use signalkit::{ensure_linked, version};

#[test]
fn version_is_the_package_version() {
    assert_eq!(version(), "0.1.0");
    ensure_linked();
}
