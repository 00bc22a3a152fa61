use merlion_kernel::kdb::{
    add_reply, breakpoint_add, breakpoint_check, breakpoint_list, breakpoint_remove, disasm_count,
    disassemble_text, dispatch, enter, handle_key_event, is_active, memory_dump_text, parse_hex, parse_usize,
    phys_header, remove_reply, stack_trace, sym_lookup_addr, sym_lookup_name, KdbCommand, KdbState, KeyOutcome,
};
use merlion_kernel::keyboard::KeyEvent;
use merlion_kernel::ksyms::{register, SymbolTable};

fn printed(c: KdbCommand) -> String {
    match c {
        KdbCommand::Print(s) => s,
        _ => panic!("expected text"),
    }
}

#[test]
fn breakpoints_add_list_remove() {
    let mut st = KdbState::new();
    assert_eq!(breakpoint_list(&st), "  (no breakpoints)\n");
    assert_eq!(breakpoint_check(&st, 0x1000), Ok(0));
    assert_eq!(breakpoint_add(&mut st, 0x1000, 0x55), Ok(0));
    assert_eq!(breakpoint_add(&mut st, 0x1000, 0x55), Err("already set"));
    assert_eq!(breakpoint_add(&mut st, 0x2000, 0x90), Ok(1));
    assert_eq!(
        breakpoint_list(&st),
        "  [0] 0x0000000000001000  orig=0x55\n  [1] 0x0000000000002000  orig=0x90\n"
    );
    let bp = breakpoint_remove(&mut st, 0).unwrap();
    assert_eq!((bp.addr, bp.orig), (0x1000, 0x55));
    assert_eq!(breakpoint_remove(&mut st, 0).err(), Some("invalid slot"));
    assert_eq!(breakpoint_remove(&mut st, 16).err(), Some("invalid slot"));
    assert_eq!(breakpoint_add(&mut st, 0x3000, 1), Ok(0));
    assert_eq!(add_reply(0x3000, Ok(0)), "  bp 0 at 0x0000000000003000\n");
    assert_eq!(add_reply(0x3000, Err("table full")), "  error: table full\n");
    assert_eq!(remove_reply(4, Err("invalid slot")), "  error: invalid slot\n");
    assert_eq!(remove_reply(4, Ok(bp)), "  bp 4 removed\n");
}

#[test]
fn breakpoint_table_full() {
    let mut st = KdbState::new();
    for i in 0..16u64 {
        assert_eq!(breakpoint_add(&mut st, 0x100 * (i + 1), 0), Ok(i as usize));
    }
    assert_eq!(breakpoint_add(&mut st, 0x9999, 0), Err("table full"));
}

#[test]
fn line_editor() {
    let mut st = KdbState::new();
    let banner = enter(&mut st);
    assert!(banner.ends_with("kdb> "));
    assert!(is_active(&st));
    for c in "bp lisx".chars() {
        match handle_key_event(&mut st, KeyEvent::Char(c)) {
            KeyOutcome::Echo(e) => assert_eq!(e, c.to_string()),
            KeyOutcome::Submit(_) => panic!(),
        }
    }
    match handle_key_event(&mut st, KeyEvent::Char('\x08')) {
        KeyOutcome::Echo(e) => assert_eq!(e, "\x08 \x08"),
        KeyOutcome::Submit(_) => panic!(),
    }
    handle_key_event(&mut st, KeyEvent::Char('t'));
    match handle_key_event(&mut st, KeyEvent::ArrowUp) {
        KeyOutcome::Echo(e) => assert_eq!(e, ""),
        KeyOutcome::Submit(_) => panic!(),
    }
    match handle_key_event(&mut st, KeyEvent::Char('\n')) {
        KeyOutcome::Submit(line) => assert_eq!(line, "bp list"),
        KeyOutcome::Echo(_) => panic!(),
    }
    assert_eq!(st.buf.len(), 0);
    match handle_key_event(&mut st, KeyEvent::Char('\x7f')) {
        KeyOutcome::Echo(e) => assert_eq!(e, ""),
        KeyOutcome::Submit(_) => panic!(),
    }
    for _ in 0..200 {
        handle_key_event(&mut st, KeyEvent::Char('a'));
    }
    assert_eq!(st.buf.len(), 127);
}

#[test]
fn argument_parsing() {
    assert_eq!(parse_hex(" 0x1F "), Some(0x1f));
    assert_eq!(parse_hex("0x0xff"), Some(0xff));
    assert_eq!(parse_hex("0XAb"), Some(0xab));
    assert_eq!(parse_hex("dead"), Some(0xdead));
    assert_eq!(parse_hex("0x"), None);
    assert_eq!(parse_hex("xyz"), None);
    assert_eq!(parse_hex("1ffffffffffffffff"), None);
    assert_eq!(parse_usize(" 42"), Some(42));
    assert_eq!(parse_usize("0x10"), Some(16));
    assert_eq!(parse_usize(""), None);
    assert_eq!(parse_usize("ten"), None);
}

#[test]
fn command_decoding() {
    let mut st = KdbState::new();
    enter(&mut st);
    assert!(matches!(dispatch(&mut st, "   "), KdbCommand::Idle));
    assert!(printed(dispatch(&mut st, "help")).starts_with("  bp add <addr>"));
    assert!(matches!(dispatch(&mut st, "bp add 0x1000"), KdbCommand::BpAdd(0x1000)));
    assert_eq!(printed(dispatch(&mut st, "bp add zz")), "  usage: bp add <hex-address>\n");
    assert!(matches!(dispatch(&mut st, "bp rm 3"), KdbCommand::BpRemove(3)));
    assert_eq!(printed(dispatch(&mut st, "bp del x")), "  usage: bp rm <slot>\n");
    assert!(matches!(dispatch(&mut st, "bp"), KdbCommand::BpList));
    assert!(matches!(dispatch(&mut st, "bp ls"), KdbCommand::BpList));
    assert_eq!(printed(dispatch(&mut st, "bp frob")), "  unknown bp sub: frob\n");
    assert!(matches!(dispatch(&mut st, "md 1000"), KdbCommand::MemDump(0x1000, 64)));
    assert!(matches!(dispatch(&mut st, "x 1000 32"), KdbCommand::MemDump(0x1000, 32)));
    assert!(matches!(dispatch(&mut st, "mdp 0x2000 0x20"), KdbCommand::PhysDump(0x2000, 32)));
    assert_eq!(printed(dispatch(&mut st, "mdp")), "  usage: mdp <addr> [len]\n");
    assert!(matches!(dispatch(&mut st, "regs"), KdbCommand::Regs));
    assert!(matches!(dispatch(&mut st, "ss"), KdbCommand::Step));
    assert!(matches!(dispatch(&mut st, "sym ffff"), KdbCommand::SymAddr(0xffff)));
    assert!(matches!(dispatch(&mut st, "symn main"), KdbCommand::SymName(ref n) if n == "main"));
    assert_eq!(printed(dispatch(&mut st, "symn")), "  usage: symn <name>\n");
    assert!(matches!(dispatch(&mut st, "dis 10"), KdbCommand::Disasm(0x10, 16)));
    assert!(matches!(dispatch(&mut st, "bt"), KdbCommand::Backtrace));
    assert_eq!(printed(dispatch(&mut st, "frob")), "  unknown command 'frob' — try 'help'\n");
    assert!(is_active(&st));
    assert_eq!(printed(dispatch(&mut st, " quit ")), "  leaving kdb\n");
    assert!(!is_active(&st));
}

#[test]
fn memory_dump_format() {
    let bytes: Vec<u8> = (0x40u8..0x52).collect();
    let s = memory_dump_text(0x1000, &bytes);
    let expected = "0x0000000000001000: 40 41 42 43 44 45 46 47  48 49 4a 4b 4c 4d 4e 4f |@ABCDEFGHIJKLMNO|\n\
0x0000000000001010: 50 51                                           |PQ|\n";
    assert_eq!(s, expected);
    assert_eq!(memory_dump_text(0, &[0x00, 0x7f]), "0x0000000000000000: 00 7f                                           |..|\n");
    assert_eq!(memory_dump_text(5, &[]), "");
}

#[test]
fn disassembly_format() {
    assert_eq!(disasm_count(0), 16);
    assert_eq!(disasm_count(3), 3);
    let s = disassemble_text(0x10, &[0x90, 0xc3]);
    assert_eq!(s, "  raw bytes at 0x0000000000000010 (2 bytes):\n  0x0000000000000010: 90 c3 \n");
    let bytes = vec![0u8; 17];
    let s = disassemble_text(0, &bytes);
    assert!(s.contains("\n  0x0000000000000010: 00 \n"));
}

#[test]
fn symbol_reports() {
    let mut t = SymbolTable::new();
    register(&mut t, "kmain", 0x1000);
    assert_eq!(sym_lookup_addr(&t, 0x1010), "  0x0000000000001010 = <kmain+0x10>\n");
    assert_eq!(sym_lookup_addr(&t, 0x10), "  0x0000000000000010 = <unknown>\n");
    assert_eq!(sym_lookup_name(&t, "0x1001"), "  0x0000000000001001 = <kmain+0x1>\n");
    assert_eq!(sym_lookup_name(&t, "kmain"), "  name lookup for 'kmain' not yet indexed\n");
    assert_eq!(stack_trace(&t, &[]), "  (no frames)\n");
    assert_eq!(
        stack_trace(&t, &[0x1002]),
        "  backtrace (1 frames):\n  #0: 0x0000000000001002 <kmain+0x2>\n"
    );
    assert_eq!(phys_header(0x1000, 0xffff800000001000), "  phys 0x1000 -> virt 0xffff800000001000\n");
}
