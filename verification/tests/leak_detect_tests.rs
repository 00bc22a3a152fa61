use merlion_kernel::leak_detect::{
    find_leaks, leak_report, module_summary, module_summary_report, outstanding, total_freed, total_tracked,
    track_alloc, track_free, LeakTracker,
};

#[test]
fn alloc_then_free() {
    let mut t = LeakTracker::new();
    track_alloc(&mut t, 0x1000, 64, "vfs", 10);
    track_alloc(&mut t, 0x2000, 32, "net", 20);
    track_alloc(&mut t, 0x3000, 16, "vfs", 30);
    assert_eq!(outstanding(&t), 3);
    assert!(track_free(&mut t, 0x1000));
    assert!(!track_free(&mut t, 0x1000));
    assert_eq!(outstanding(&t), 2);
    // The last record took the freed one's place.
    assert_eq!(t.records[0].address, 0x3000);
    assert_eq!(total_tracked(&t), 3);
    assert_eq!(total_freed(&t), 1);
}

#[test]
fn leaks_by_age() {
    let mut t = LeakTracker::new();
    track_alloc(&mut t, 0x10, 8, "a", 0);
    track_alloc(&mut t, 0x20, 8, "b", 900);
    let l = find_leaks(&t, 500, 1000);
    assert_eq!(l.len(), 1);
    assert_eq!(l[0].address, 0x10);
    assert!(find_leaks(&t, 500, 100).is_empty());
}

#[test]
fn leak_report_text() {
    let mut t = LeakTracker::new();
    assert_eq!(
        leak_report(&t, 0),
        "=== MerlionOS Leak Report ===\nTotal tracked : 0\nTotal freed   : 0\nOutstanding   : 0\nLeak threshold: 500 ticks (5 s)\nSuspected leaks: 0\n-----------------------------\n(none)\n=============================\n"
    );
    track_alloc(&mut t, 0xABC, 48, "task", 0);
    let r = leak_report(&t, 600);
    assert!(r.contains(" 1: addr=0x0000000000000ABC  size=48       module=task         age=600 ticks\n"));
}

#[test]
fn per_module_summary() {
    let mut t = LeakTracker::new();
    track_alloc(&mut t, 1, 10, "vfs", 0);
    track_alloc(&mut t, 2, 100, "net", 0);
    track_alloc(&mut t, 3, 20, "vfs", 0);
    track_alloc(&mut t, 4, 30, "task", 0);
    let s = module_summary(&t);
    assert_eq!(s.len(), 3);
    assert_eq!((s[0].module, s[0].count, s[0].total_bytes), ("net", 1, 100));
    assert_eq!((s[1].module, s[1].count, s[1].total_bytes), ("vfs", 2, 30));
    assert_eq!((s[2].module, s[2].count, s[2].total_bytes), ("task", 1, 30));
    let r = module_summary_report(&t);
    assert!(r.starts_with("=== Per-Module Allocation Summary ===\n MODULE          COUNT      BYTES\n -------------- ------ ----------\n"));
    assert!(r.contains(" net                 1        100\n"));
    assert!(module_summary_report(&LeakTracker::new()).contains(" (no outstanding allocations)\n"));
}
