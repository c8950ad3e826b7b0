use signalkit::tooling::{
    analysis_yaml, build_target, cargo_toml, option_value, package_manifest_json, parse_nm_symbols, tweak_manifest_json,
};

#[test]
fn parse_nm_extracts_defined_symbols() {
    let output = "\
0000abcd T Reader__openBook\n\
                 U malloc\n\
00001234 W weak_helper\n\
0000ff00 D some_data\n";
    let symbols = parse_nm_symbols(output, "reader");
    assert_eq!(symbols.len(), 3);
    assert!(symbols.contains(&("Reader__openBook".to_owned(), "reader".to_owned(), 0xabcd)));
    assert!(symbols.iter().all(|(name, _, _)| name != "malloc"));
}

#[test]
fn manifests_are_valid_json_shape() {
    assert!(package_manifest_json("my-tweak").contains("\"id\": \"com.example.my-tweak\""));
    assert!(tweak_manifest_json("my-tweak").contains("\"library\": \"tweak.so\""));
}

#[test]
fn new_project_cargo_manifest_uses_crate_name() {
    let t = cargo_toml("my-tweak");
    assert!(t.starts_with("[package]\nname = \"my_tweak\"\n"));
    assert!(t.ends_with("ksubstrate = { path = \"../ksubstrate\" }\n"));
}

#[test]
fn options_and_build_targets() {
    let args: Vec<String> = vec!["--dest".into(), "/tmp/x".into(), "--dest".into(), "/y".into()];
    assert_eq!(option_value(&args, "--dest"), Some("/tmp/x".to_owned()));
    assert_eq!(option_value(&args[3..], "/y"), None);
    assert_eq!(option_value(&args, "--out"), None);
    assert_eq!(build_target("host"), Ok(None));
    assert_eq!(build_target("kindlehf"), Ok(Some("armv7-unknown-linux-gnueabihf".to_owned())));
    assert_eq!(build_target("kindlepw2"), Ok(Some("armv7-unknown-linux-gnueabi".to_owned())));
    assert_eq!(build_target("pc"), Err("unknown platform: pc".to_owned()));
}

#[test]
fn analysis_yaml_lists_exports_or_writes_a_template() {
    let syms = vec![("open".to_owned(), "libc.so".to_owned(), 0x1f0u64)];
    let y = analysis_yaml("pulled", "5.16", &syms);
    assert_eq!(
        y,
        "# Extracted exported symbols from pulled\nfirmware: \"5.16\"\nsymbols:\n  - name: \"open\"\n    image: \"libc.so\"\n    rva: 0x1f0\n    prologue: \"\"\n    source: \"nm-dynsym\"\n"
    );
    let t = analysis_yaml("pulled", "5.16", &Vec::new());
    assert!(t.starts_with("# No ELF exports extracted from pulled (nm unavailable"));
    assert!(t.contains("firmware: \"5.16\"\n"));
    let db = signalkit::symbols::parse_symbol_db(&y).unwrap();
    assert_eq!(db.lookup("open").unwrap().rva, 0x1f0);
}
