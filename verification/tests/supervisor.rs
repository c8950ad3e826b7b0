use signalkit::supervisor::{blacklisted_comm, builtin_spawn_roots, prune_history, HealthGuard};

#[test]
fn prune_history_drops_entries_outside_window() {
    let history = vec![10u64, 50, 100, 200];
    assert_eq!(prune_history(&history, 200, 120), vec![100, 200]);
}

#[test]
fn prune_history_keeps_recent_entries() {
    let history = vec![100u64, 150, 200];
    assert_eq!(prune_history(&history, 200, 120), vec![100, 150, 200]);
}

#[test]
fn prune_history_keeps_future_stamps() {
    assert_eq!(prune_history(&[300u64, 5], 200, 120), vec![300]);
}

#[test]
fn blacklist_blocks_recovery_critical_processes() {
    assert!(blacklisted_comm("powerd"));
    assert!(blacklisted_comm("sshd"));
    assert!(blacklisted_comm("dbus-daemon"));
    assert!(!blacklisted_comm("pillow"));
    assert!(!blacklisted_comm("appmgrd"));
    assert!(!blacklisted_comm("power"));
}

#[test]
fn health_guard_trips_on_repeated_deaths() {
    let mut guard = HealthGuard::new();
    assert!(!guard.observe(true, 100, 120, 3));
    assert!(!guard.observe(false, 101, 120, 3));
    assert!(!guard.observe(true, 102, 120, 3));
    assert!(!guard.observe(false, 103, 120, 3));
    assert!(!guard.observe(true, 104, 120, 3));
    assert!(guard.observe(false, 105, 120, 3));
}

#[test]
fn health_guard_ignores_stable_uptime() {
    let mut guard = HealthGuard::new();
    for t in 0..10 {
        assert!(!guard.observe(true, t, 120, 3));
    }
}

#[test]
fn health_guard_forgets_old_deaths() {
    let mut guard = HealthGuard::new();
    guard.observe(true, 0, 120, 2);
    guard.observe(false, 1, 120, 2);
    guard.observe(true, 2, 120, 2);
    assert!(!guard.observe(false, 500, 120, 2));
    assert_eq!(guard.deaths, vec![500]);
}

#[test]
fn builtin_roots_are_the_ui_processes() {
    assert_eq!(builtin_spawn_roots(), vec!["/usr/bin/appmgrd", "/usr/bin/pillow", "/usr/sbin/pillow"]);
}

use signalkit::supervisor::{
    crash_looping, parse_history, preload_env, RunPaths, prepend_env_list, run_paths, join_path, parse_wrapped, platform_name, record_start_history, session_bootstrap, session_lib_dir,
    session_summary, wrapper_script, Monitor, MonitorAction,
};

#[test]
fn start_history_counts_starts_in_the_window() {
    let h = record_start_history(&[10, 500, 590], 600);
    assert_eq!(h, vec![500, 590, 600]);
    assert!(crash_looping(h.len()));
    assert!(!crash_looping(record_start_history(&[], 5).len()));
}

#[test]
fn monitor_waits_for_grace_then_trips_on_deaths() {
    let mut m = Monitor::new(true, 1000);
    assert!(!m.wants_sample(1019));
    assert!(m.wants_sample(1020));
    assert_eq!(m.poll(false, None), MonitorAction::Continue);
    assert_eq!(m.poll(false, Some((true, 1020))), MonitorAction::Continue);
    assert_eq!(m.poll(false, Some((false, 1021))), MonitorAction::Continue);
    assert_eq!(m.poll(false, Some((true, 1022))), MonitorAction::Continue);
    assert_eq!(m.poll(false, Some((false, 1023))), MonitorAction::Continue);
    assert_eq!(m.poll(false, Some((true, 1024))), MonitorAction::Continue);
    assert_eq!(m.poll(false, Some((false, 1025))), MonitorAction::Unhealthy);
    assert_eq!(m.poll(true, Some((false, 1026))), MonitorAction::Disabled);
    assert!(!Monitor::new(false, 0).wants_sample(100));
}

#[test]
fn session_paths_and_wrapper_script() {
    assert_eq!(platform_name(true), "kindlehf");
    assert_eq!(platform_name(false), "kindlepw2");
    assert_eq!(join_path("/a/", "b"), "/a/b");
    assert_eq!(join_path("/a", "/b"), "/b");
    let lib = session_lib_dir("/pkg", "kindlehf");
    assert_eq!(lib, "/pkg/lib/kindlehf");
    let boot = session_bootstrap("/pkg", "kindlehf");
    assert_eq!(boot, "/pkg/lib/kindlehf/libksubstrate-bootstrap.so");
    let script = wrapper_script(&boot, &lib, "/tw", "/run/orig/pillow");
    assert_eq!(
        script,
        "#!/bin/sh\nexport LD_PRELOAD=\"/pkg/lib/kindlehf/libksubstrate-bootstrap.so${LD_PRELOAD:+ $LD_PRELOAD}\"\nexport LD_LIBRARY_PATH=\"/pkg/lib/kindlehf${LD_LIBRARY_PATH:+:$LD_LIBRARY_PATH}\"\nexport KSUBSTRATE_TWEAKS_DIR=\"/tw\"\nexport KSUBSTRATE_LOG=\"/var/local/kmc/ksubstrate/log/tweaks.log\"\nexec \"/run/orig/pillow\" \"$@\"\n"
    );
}

#[test]
fn wrapped_roots_file_and_summary() {
    assert_eq!(parse_wrapped(" /usr/bin/pillow \n\n/usr/bin/appmgrd"), vec!["/usr/bin/pillow", "/usr/bin/appmgrd"]);
    let roots = vec!["/a".to_owned(), "/b".to_owned()];
    assert_eq!(
        session_summary("/pkg", "kindlehf", "/boot.so", "/tw", &roots),
        "package=/pkg\nplatform=kindlehf\nbootstrap=/boot.so\ntweaks=/tw\nspawn_roots=/a,/b\n"
    );
}

#[test]
fn preloaded_run_prepends_the_bootstrap() {
    let paths = run_paths("/mnt/us/pkg", None, true, None);
    assert_eq!(paths.platform, "kindlehf");
    assert_eq!(paths.bootstrap, "/mnt/us/pkg/lib/kindlehf/libksubstrate-bootstrap.so");
    assert_eq!(paths.tweaks, "/mnt/us/pkg/tweaks");
    let env = preload_env(&paths, Some("libother.so"), Some("   ")).unwrap();
    assert_eq!(env.ld_preload, "/mnt/us/pkg/lib/kindlehf/libksubstrate-bootstrap.so libother.so");
    assert_eq!(env.ld_library_path, "/mnt/us/pkg/lib/kindlehf");
    assert_eq!(env.tweaks_dir, "/mnt/us/pkg/tweaks");
    assert_eq!(prepend_env_list("/a", Some("/b"), ':'), "/a:/b");
    assert_eq!(prepend_env_list("/a", None, ':'), "/a");
    let custom = run_paths("/pkg/", Some("kindlepw2"), true, Some("/t"));
    assert_eq!(custom.platform, "kindlepw2");
    assert_eq!(custom.bootstrap, "/pkg/lib/kindlepw2/libksubstrate-bootstrap.so");
    assert_eq!(custom.tweaks, "/t");
}

#[test]
fn start_history_file_round_trip() {
    assert_eq!(parse_history("100\n 150 \nbogus\n\n+200\n"), vec![100, 150, 200]);
    let h = record_start_history(&parse_history("10\n100\n"), 200);
    assert_eq!(h, vec![100, 200]);
}

#[test]
fn the_run_library_directory_is_the_bootstrap_parent() {
    // An empty platform: the session directory keeps its trailing slash, the
    // bootstrap's parent does not.
    assert_eq!(session_lib_dir("/pkg", ""), "/pkg/lib/");
    let paths = run_paths("/pkg", Some(""), true, None);
    assert_eq!(paths.bootstrap, "/pkg/lib/libksubstrate-bootstrap.so");
    let env = preload_env(&paths, None, Some("/usr/lib")).unwrap();
    assert_eq!(env.ld_library_path, "/pkg/lib:/usr/lib");
    let trailing = run_paths("/pkg", Some("kindlehf/"), true, None);
    let env = preload_env(&trailing, None, None).unwrap();
    assert_eq!(env.ld_library_path, "/pkg/lib/kindlehf");
    let root = RunPaths { platform: String::new(), bootstrap: "/".to_owned(), tweaks: String::new() };
    assert!(preload_env(&root, None, None).is_none());
}
