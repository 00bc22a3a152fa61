use merlion_kernel::log_rotate::{
    append, init, list, register, rotate, rotate_all, rotation_count, set_keep_count, set_max_size, status,
    LogTracker,
};

#[test]
fn init_tracks_default_logs() {
    let mut t = LogTracker::new();
    init(&mut t);
    assert_eq!(list(&t), vec!["/var/log/kernel.log", "/var/log/auth.log", "/var/log/syslog"]);
}

#[test]
fn register_limits() {
    let mut t = LogTracker::new();
    assert_eq!(register(&mut t, "/a", 10, 2), Ok(()));
    assert_eq!(register(&mut t, "/a", 10, 2), Err("log_rotate: already registered"));
    for i in 0..15 {
        assert_eq!(register(&mut t, &format!("/f{}", i), 10, 2), Ok(()));
    }
    assert_eq!(register(&mut t, "/g", 10, 2), Err("log_rotate: max configs reached"));
}

#[test]
fn append_triggers_rotation_past_limit() {
    let mut t = LogTracker::new();
    register(&mut t, "/log", 10, 3).unwrap();
    assert!(!append(&mut t, "/log", 6));
    assert!(!append(&mut t, "/log", 4));
    assert!(append(&mut t, "/log", 1));
    assert!(!append(&mut t, "/unknown", 100));
    let moves = rotate(&mut t, "/log").unwrap();
    let m: Vec<(&str, &str)> = moves.iter().map(|(a, b)| (a.as_str(), b.as_str())).collect();
    assert_eq!(m, vec![("/log.2", "/log.3"), ("/log.1", "/log.2")]);
    assert_eq!(t.current_sizes[0], 0);
    assert_eq!(rotation_count(&t, "/log"), 1);
    assert_eq!(rotation_count(&t, "/nope"), 0);
    assert!(rotate(&mut t, "/nope").is_none());
    assert_eq!(t.total_rotations, 1);
}

#[test]
fn rotate_all_and_settings() {
    let mut t = LogTracker::new();
    init(&mut t);
    let all = rotate_all(&mut t);
    assert_eq!(all.len(), 3);
    assert_eq!(all[1].0, "/var/log/auth.log");
    assert_eq!(all[0].1.len(), 3);
    assert_eq!(t.total_rotations, 3);
    assert_eq!(set_max_size(&mut t, "/var/log/syslog", 100), Ok(()));
    assert_eq!(set_keep_count(&mut t, "/var/log/syslog", 1), Ok(()));
    assert_eq!(set_max_size(&mut t, "/x", 1), Err("log_rotate: not found"));
    assert!(rotate(&mut t, "/var/log/syslog").unwrap().is_empty());
}

#[test]
fn status_report() {
    let mut t = LogTracker::new();
    register(&mut t, "/log", 200, 2).unwrap();
    append(&mut t, "/log", 50);
    assert_eq!(
        status(&t),
        "Log rotation status:\n  /log — 50/200 bytes (25%) — 0 rotations — keep 2\nTotal rotations: 0\n"
    );
}
