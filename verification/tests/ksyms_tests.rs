use merlion_kernel::ksyms::{format_backtrace, init, lookup, register, SymbolTable};

#[test]
fn lookup_picks_closest_at_or_below() {
    let mut t = SymbolTable::new();
    register(&mut t, "a", 0x1000);
    register(&mut t, "b", 0x2000);
    register(&mut t, "c", 0x1800);
    assert_eq!(lookup(&t, 0x0fff), None);
    assert_eq!(lookup(&t, 0x1000), Some(("a".to_string(), 0)));
    assert_eq!(lookup(&t, 0x1900), Some(("c".to_string(), 0x100)));
    assert_eq!(lookup(&t, 0x2010), Some(("b".to_string(), 0x10)));
}

#[test]
fn lookup_tie_keeps_first_registered() {
    let mut t = SymbolTable::new();
    register(&mut t, "first", 0x500);
    register(&mut t, "second", 0x500);
    assert_eq!(lookup(&t, 0x505), Some(("first".to_string(), 5)));
}

#[test]
fn backtrace_text() {
    let mut t = SymbolTable::new();
    init(&mut t, 0x100000, 0x200000);
    let s = format_backtrace(&t, &[0x100020, 0x50, 0x2000ff]);
    assert_eq!(
        s,
        "Stack trace:\n  #0: 0x100020 <kernel_main+0x20>\n  #1: 0x50 <unknown>\n  #2: 0x2000ff <halt_loop+0xff>\n"
    );
    assert_eq!(format_backtrace(&t, &[]), "Stack trace:\n");
}
