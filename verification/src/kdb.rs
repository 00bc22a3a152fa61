//! Interactive kernel debugger: the breakpoint table, the line editor, the
//! command language and the text of its reports. Reading and patching
//! memory, reading registers and printing are the caller's: each command
//! is decoded into a `KdbCommand` that says what to do.
use vstd::prelude::*;
use vstd::string::*;
use vstd::utf8::{valid_utf8, decode_utf8};
use crate::keyboard::KeyEvent;
use crate::kvdb::str_from_utf8;
use crate::text::{string_of, str_eq, push_char, push_dec, push_hex_fixed, hex_fixed, dec, hex, u64_to_hex,
    push_spaces, spaces, trimmed, trim_str, has_prefix, starts_with_str, parse_uint, parse_u64_max,
    parse_hex_uint, parse_hex_u64_max};
use crate::ksyms::{SymbolTable, lookup, lookup_spec};
use crate::merlion_proxy::{splitn, split_n, lemma_splitn_len};

verus! {

/// Breakpoint slots.
pub const MAX_BP: usize = 16;

/// Longest command line the editor keeps.
pub const LINE_MAX: usize = 127;

/// A breakpoint slot: the patched address and the byte it held.
#[derive(PartialEq, Eq, Structural, Clone, Copy, Debug)]
pub struct Breakpoint {
    pub addr: u64,
    pub orig: u8,
    pub active: bool,
}

/// The debugger: breakpoint slots, whether it is entered, and the command
/// line being typed (bytes).
pub struct KdbState {
    pub bps: Vec<Breakpoint>,
    pub active: bool,
    pub buf: Vec<u8>,
}

impl KdbState {
    pub open spec fn wf(&self) -> bool {
        self.bps@.len() == MAX_BP && self.buf@.len() <= LINE_MAX
    }

    /// Every slot free, not entered, empty line.
    pub fn new() -> (s: Self)
        ensures
            s.wf(),
            forall|i: int| 0 <= i < MAX_BP ==> !(#[trigger] s.bps@[i]).active,
            !s.active,
            s.buf@.len() == 0,
    {
        let mut bps: Vec<Breakpoint> = Vec::new();
        let mut i: usize = 0;
        while i < MAX_BP
            invariant
                i <= MAX_BP,
                bps@.len() == i,
                forall|j: int| 0 <= j < i ==> !(#[trigger] bps@[j]).active,
            decreases MAX_BP - i,
        {
            bps.push(Breakpoint { addr: 0, orig: 0, active: false });
            i = i + 1;
        }
        KdbState { bps, active: false, buf: Vec::new() }
    }
}

// ---------------------------------------------------------------------------
// Breakpoints
// ---------------------------------------------------------------------------

/// Whether an active slot holds `addr`.
pub open spec fn is_set(bps: Seq<Breakpoint>, addr: u64) -> bool {
    exists|i: int| 0 <= i < bps.len() && (#[trigger] bps[i]).active && bps[i].addr == addr
}

/// The first free slot from the `j`-th on (the length when none).
pub open spec fn free_from(bps: Seq<Breakpoint>, j: int) -> int
    decreases bps.len() - j,
{
    if j < 0 || j >= bps.len() {
        bps.len() as int
    } else if !bps[j].active {
        j
    } else {
        free_from(bps, j + 1)
    }
}

/// What adding a breakpoint at `addr` gives: `already set`, `table full`,
/// or the first free slot.
pub open spec fn add_result(bps: Seq<Breakpoint>, addr: u64) -> Result<usize, &'static str> {
    if is_set(bps, addr) {
        Err("already set")
    } else if free_from(bps, 0) >= bps.len() {
        Err("table full")
    } else {
        Ok(free_from(bps, 0) as usize)
    }
}

proof fn lemma_free_from(bps: Seq<Breakpoint>, j: int)
    requires
        0 <= j <= bps.len(),
    ensures
        j <= free_from(bps, j) <= bps.len(),
        free_from(bps, j) < bps.len() ==> !bps[free_from(bps, j)].active,
        forall|i: int| j <= i < free_from(bps, j) ==> (#[trigger] bps[i]).active,
    decreases bps.len() - j,
{
    if j < bps.len() && bps[j].active {
        lemma_free_from(bps, j + 1);
    }
}

/// Where a breakpoint at `addr` would go (see `add_result`); nothing
/// changes. The caller reads the byte at `addr` only when this is `Ok`.
pub fn breakpoint_check(st: &KdbState, addr: u64) -> (r: Result<usize, &'static str>)
    requires
        st.wf(),
    ensures
        r == add_result(st.bps@, addr),
{
    let mut i: usize = 0;
    while i < st.bps.len()
        invariant
            i <= st.bps@.len(),
            forall|j: int| 0 <= j < i ==> !((#[trigger] st.bps@[j]).active && st.bps@[j].addr == addr),
        decreases st.bps@.len() - i,
    {
        if st.bps[i].active && st.bps[i].addr == addr {
            return Err("already set");
        }
        i = i + 1;
    }
    proof {
        lemma_free_from(st.bps@, 0);
    }
    assert(!is_set(st.bps@, addr));
    let mut k: usize = 0;
    while k < st.bps.len()
        invariant
            k <= st.bps@.len(),
            !is_set(st.bps@, addr),
            free_from(st.bps@, 0) == free_from(st.bps@, k as int),
        decreases st.bps@.len() - k,
    {
        if !st.bps[k].active {
            return Ok(k);
        }
        k = k + 1;
    }
    Err("table full")
}

/// Add a breakpoint at `addr`, whose byte was `orig` before the caller
/// patches it with `int3`: `already set` when an active slot holds `addr`,
/// `table full` when no slot is free, else the first free slot takes it.
pub fn breakpoint_add(st: &mut KdbState, addr: u64, orig: u8) -> (r: Result<usize, &'static str>)
    requires
        old(st).wf(),
    ensures
        final(st).wf(),
        r == add_result(old(st).bps@, addr),
        match r {
            Ok(slot) => final(st).bps@ == old(st).bps@.update(slot as int, Breakpoint { addr, orig, active: true }),
            Err(_) => final(st).bps@ == old(st).bps@,
        },
        final(st).active == old(st).active,
        final(st).buf@ == old(st).buf@,
{
    let r = breakpoint_check(st, addr);
    if let Ok(slot) = r {
        proof {
            lemma_free_from(old(st).bps@, 0);
        }
        st.bps.set(slot, Breakpoint { addr, orig, active: true });
    }
    r
}

/// Free a breakpoint slot, handing back what it held so the caller can
/// restore the byte: `invalid slot` when the slot is out of range or free.
pub fn breakpoint_remove(st: &mut KdbState, slot: usize) -> (r: Result<Breakpoint, &'static str>)
    requires
        old(st).wf(),
    ensures
        final(st).wf(),
        slot >= MAX_BP || !old(st).bps@[slot as int].active <==> r is Err,
        match r {
            Ok(bp) => bp == old(st).bps@[slot as int]
                && final(st).bps@ == old(st).bps@.update(slot as int, Breakpoint { active: false, ..bp }),
            Err(e) => e == "invalid slot" && final(st).bps@ == old(st).bps@,
        },
        final(st).active == old(st).active,
        final(st).buf@ == old(st).buf@,
{
    if slot >= MAX_BP || !st.bps[slot].active {
        return Err("invalid slot");
    }
    let bp = st.bps[slot];
    st.bps.set(slot, Breakpoint { addr: bp.addr, orig: bp.orig, active: false });
    Ok(bp)
}

/// The listing line of an active slot.
pub open spec fn bp_line(i: nat, b: Breakpoint) -> Seq<char> {
    "  ["@ + dec(i) + "] 0x"@ + hex_fixed(b.addr as nat, 16) + "  orig=0x"@ + hex_fixed(b.orig as nat, 2) + "\n"@
}

pub open spec fn bp_lines(bps: Seq<Breakpoint>) -> Seq<char>
    decreases bps.len(),
{
    if bps.len() == 0 {
        Seq::empty()
    } else {
        bp_lines(bps.drop_last()) + if bps.last().active { bp_line((bps.len() - 1) as nat, bps.last()) } else {
            Seq::empty()
        }
    }
}

/// The breakpoint listing: one line per active slot, or a note that there
/// is none.
pub open spec fn bp_list_text(bps: Seq<Breakpoint>) -> Seq<char> {
    if exists|i: int| 0 <= i < bps.len() && (#[trigger] bps[i]).active {
        bp_lines(bps)
    } else {
        "  (no breakpoints)\n"@
    }
}

/// The breakpoint listing (see `bp_list_text`).
pub fn breakpoint_list(st: &KdbState) -> (r: String)
    ensures
        r@ == bp_list_text(st.bps@),
{
    let mut out = String::new();
    let ghost bps = st.bps@;
    let mut any = false;
    let mut i: usize = 0;
    while i < st.bps.len()
        invariant
            i <= bps.len(),
            bps == st.bps@,
            out@ == bp_lines(bps.subrange(0, i as int)),
            any <==> exists|j: int| 0 <= j < i && (#[trigger] bps[j]).active,
        decreases bps.len() - i,
    {
        let ghost pre = bps.subrange(0, i + 1);
        assert(pre.drop_last() =~= bps.subrange(0, i as int));
        assert(pre.last() == bps[i as int]);
        let b = st.bps[i];
        if b.active {
            out.append("  [");
            push_dec(&mut out, i as u64);
            out.append("] 0x");
            push_hex_fixed(&mut out, b.addr, 16);
            out.append("  orig=0x");
            push_hex_fixed(&mut out, b.orig as u64, 2);
            out.append("\n");
            any = true;
        }
        i = i + 1;
    }
    assert(bps.subrange(0, bps.len() as int) =~= bps);
    if !any {
        return string_of("  (no breakpoints)\n");
    }
    out
}

/// The reply to `bp add`.
pub open spec fn add_reply_text(addr: u64, r: Result<usize, &'static str>) -> Seq<char> {
    match r {
        Ok(slot) => "  bp "@ + dec(slot as nat) + " at 0x"@ + hex_fixed(addr as nat, 16) + "\n"@,
        Err(e) => "  error: "@ + e@ + "\n"@,
    }
}

/// The reply to `bp add <addr>` given what `breakpoint_add` gave.
pub fn add_reply(addr: u64, r: Result<usize, &'static str>) -> (s: String)
    ensures
        s@ == add_reply_text(addr, r),
{
    match r {
        Ok(slot) => {
            let mut out = string_of("  bp ");
            push_dec(&mut out, slot as u64);
            out.append(" at 0x");
            push_hex_fixed(&mut out, addr, 16);
            out.append("\n");
            out
        },
        Err(e) => {
            let mut out = string_of("  error: ");
            out.append(e);
            out.append("\n");
            out
        },
    }
}

/// The reply to `bp rm <slot>` given what `breakpoint_remove` gave.
pub fn remove_reply(slot: usize, r: Result<Breakpoint, &'static str>) -> (s: String)
    ensures
        s@ == match r {
            Ok(_) => "  bp "@ + dec(slot as nat) + " removed\n"@,
            Err(e) => "  error: "@ + e@ + "\n"@,
        },
{
    match r {
        Ok(_) => {
            let mut out = string_of("  bp ");
            push_dec(&mut out, slot as u64);
            out.append(" removed\n");
            out
        },
        Err(e) => {
            let mut out = string_of("  error: ");
            out.append(e);
            out.append("\n");
            out
        },
    }
}

// ---------------------------------------------------------------------------
// Entering and the line editor
// ---------------------------------------------------------------------------

/// Enter the debugger: it becomes active with an empty line; the banner
/// and prompt to print are returned.
pub fn enter(st: &mut KdbState) -> (r: String)
    requires
        old(st).wf(),
    ensures
        final(st).wf(),
        final(st).active,
        final(st).buf@.len() == 0,
        final(st).bps@ == old(st).bps@,
        r@ == "\n=== MerlionOS Kernel Debugger ===\nType 'help' for commands, 'quit' to exit.\nkdb> "@,
{
    st.active = true;
    st.buf.clear();
    string_of("\n=== MerlionOS Kernel Debugger ===\nType 'help' for commands, 'quit' to exit.\nkdb> ")
}

/// Whether the debugger is active.
pub fn is_active(st: &KdbState) -> (r: bool)
    ensures
        r == st.active,
{
    st.active
}

/// What a key does to the line being typed: text to echo, or a finished
/// line to run (after a newline is printed; the prompt follows when the
/// debugger is still active).
pub enum KeyOutcome {
    Echo(String),
    Submit(String),
}

impl KeyOutcome {
    pub open spec fn echo(&self) -> Option<Seq<char>> {
        match self {
            KeyOutcome::Echo(s) => Some(s@),
            KeyOutcome::Submit(_) => None,
        }
    }

    pub open spec fn line(&self) -> Option<Seq<char>> {
        match self {
            KeyOutcome::Submit(s) => Some(s@),
            KeyOutcome::Echo(_) => None,
        }
    }
}

/// The text of the typed bytes: their UTF-8 reading, empty when they are
/// not valid UTF-8.
pub open spec fn line_text(buf: Seq<u8>) -> Seq<char> {
    if valid_utf8(buf) { decode_utf8(buf) } else { Seq::empty() }
}

/// What a key does to the typed bytes (see `handle_key_event`).
pub open spec fn edit_buf(buf: Seq<u8>, event: KeyEvent) -> Seq<u8> {
    match event {
        KeyEvent::Char(c) => if c == '\n' || c == '\r' {
            Seq::empty()
        } else if c == '\x08' || c == '\x7f' {
            if buf.len() > 0 { buf.drop_last() } else { buf }
        } else if buf.len() < LINE_MAX {
            buf.push((c as u32) as u8)
        } else {
            buf
        },
        _ => buf,
    }
}

/// Route a key to the line editor: newline or carriage return submits the
/// line and empties it; backspace or delete erases the last byte (echoing
/// `\x08 \x08`); another character is kept (its low byte) while the line
/// has room, and echoed; any other key does nothing.
pub fn handle_key_event(st: &mut KdbState, event: KeyEvent) -> (r: KeyOutcome)
    requires
        old(st).wf(),
    ensures
        final(st).wf(),
        final(st).bps@ == old(st).bps@,
        final(st).active == old(st).active,
        final(st).buf@ == edit_buf(old(st).buf@, event),
        match event {
            KeyEvent::Char(c) => if c == '\n' || c == '\r' {
                r.line() == Some(line_text(old(st).buf@)) && final(st).buf@.len() == 0
            } else if c == '\x08' || c == '\x7f' {
                if old(st).buf@.len() > 0 {
                    r.echo() == Some("\x08 \x08"@) && final(st).buf@ == old(st).buf@.drop_last()
                } else {
                    r.echo() == Some(Seq::<char>::empty()) && final(st).buf@ == old(st).buf@
                }
            } else if old(st).buf@.len() < LINE_MAX {
                r.echo() == Some(seq![c]) && final(st).buf@ == old(st).buf@.push((c as u32) as u8)
            } else {
                r.echo() == Some(Seq::<char>::empty()) && final(st).buf@ == old(st).buf@
            },
            _ => r.echo() == Some(Seq::<char>::empty()) && final(st).buf@ == old(st).buf@,
        },
{
    match event {
        KeyEvent::Char(c) => {
            if c == '\n' || c == '\r' {
                let line = match str_from_utf8(st.buf.as_slice()) {
                    Some(s) => {
                        proof {
                            vstd::utf8::encode_utf8_decode_utf8(s@);
                        }
                        string_of(s)
                    },
                    None => String::new(),
                };
                st.buf.clear();
                KeyOutcome::Submit(line)
            } else if c == '\x08' || c == '\x7f' {
                if st.buf.len() > 0 {
                    st.buf.pop();
                    KeyOutcome::Echo(string_of("\x08 \x08"))
                } else {
                    KeyOutcome::Echo(String::new())
                }
            } else if st.buf.len() < LINE_MAX {
                st.buf.push((c as u32) as u8);
                let mut s = String::new();
                push_char(&mut s, c);
                KeyOutcome::Echo(s)
            } else {
                KeyOutcome::Echo(String::new())
            }
        },
        _ => KeyOutcome::Echo(String::new()),
    }
}

// ---------------------------------------------------------------------------
// The command language
// ---------------------------------------------------------------------------

/// `s` with every leading copy of `p` removed (as `str::trim_start_matches`).
pub open spec fn strip_all(s: Seq<char>, p: Seq<char>) -> Seq<char>
    decreases s.len(),
{
    if p.len() > 0 && has_prefix(s, p) { strip_all(s.subrange(p.len() as int, s.len() as int), p) } else { s }
}

fn strip_all_str<'a>(s: &'a str, p: &str) -> (r: &'a str)
    ensures
        r@ == strip_all(s@, p@),
{
    let mut t = s;
    if p.unicode_len() == 0 {
        return t;
    }
    while starts_with_str(t, p)
        invariant
            p@.len() > 0,
            strip_all(s@, p@) == strip_all(t@, p@),
        decreases t@.len(),
    {
        t = t.substring_char(p.unicode_len(), t.unicode_len());
    }
    t
}

/// An address argument: trimmed, leading `0x` then `0X` prefixes dropped,
/// then hexadecimal digits that fit 64 bits.
pub open spec fn kdb_hex(s: Seq<char>) -> Option<u64> {
    let t = strip_all(strip_all(trimmed(s), "0x"@), "0X"@);
    if t.len() == 0 {
        None
    } else {
        match parse_hex_uint(t, u64::MAX as nat) {
            Some(v) => Some(v as u64),
            None => None,
        }
    }
}

/// A length argument: trimmed, hexadecimal after `0x`, decimal otherwise.
pub open spec fn kdb_usize(s: Seq<char>) -> Option<usize> {
    let t = trimmed(s);
    if t.len() == 0 {
        None
    } else if has_prefix(t, "0x"@) {
        match parse_hex_uint(t.subrange(2, t.len() as int), usize::MAX as nat) {
            Some(v) => Some(v as usize),
            None => None,
        }
    } else {
        match parse_uint(t, usize::MAX as nat) {
            Some(v) => Some(v as usize),
            None => None,
        }
    }
}

/// Reads an address argument (see `kdb_hex`).
pub fn parse_hex(s: &str) -> (r: Option<u64>)
    ensures
        r == kdb_hex(s@),
{
    let t = strip_all_str(strip_all_str(trim_str(s), "0x"), "0X");
    if t.unicode_len() == 0 {
        return None;
    }
    parse_hex_u64_max(t, u64::MAX)
}

/// Reads a length argument (see `kdb_usize`).
pub fn parse_usize(s: &str) -> (r: Option<usize>)
    ensures
        r == kdb_usize(s@),
{
    let t = trim_str(s);
    if t.unicode_len() == 0 {
        return None;
    }
    if starts_with_str(t, "0x") {
        proof {
            reveal_strlit("0x");
        }
        let rest = t.substring_char(2, t.unicode_len());
        match parse_hex_u64_max(rest, usize::MAX as u64) {
            Some(v) => Some(v as usize),
            None => None,
        }
    } else {
        match parse_u64_max(t, usize::MAX as u64) {
            Some(v) => Some(v as usize),
            None => None,
        }
    }
}

/// The help text.
pub open spec fn help_text() -> Seq<char> {
    "  bp add <addr>    — set breakpoint\n  bp rm <slot>     — remove breakpoint\n  bp list          — list breakpoints\n  md <addr> [len]  — dump virtual memory (default 64)\n  mdp <addr> [len] — dump physical memory\n  regs             — CPU register dump\n  step             — arm single-step (TF)\n  sym <addr>       — symbol lookup by address\n  symn <name>      — symbol lookup by name\n  dis <addr> [n]   — raw disassembly bytes\n  bt               — stack backtrace\n  quit             — exit debugger\n"@
}

/// What a command line asks for.
pub enum KdbCommand {
    /// An empty line: nothing.
    Idle,
    /// Print this text.
    Print(String),
    /// Set a breakpoint at the address.
    BpAdd(u64),
    /// Remove the breakpoint in the slot.
    BpRemove(usize),
    /// List the breakpoints.
    BpList,
    /// Dump virtual memory: address and length.
    MemDump(u64, usize),
    /// Dump physical memory: address and length.
    PhysDump(u64, usize),
    /// Dump the CPU registers.
    Regs,
    /// Arm single-stepping.
    Step,
    /// Resolve an address to a symbol.
    SymAddr(u64),
    /// Look a symbol up by name.
    SymName(String),
    /// Show raw instruction bytes: address and count.
    Disasm(u64, usize),
    /// Show a backtrace.
    Backtrace,
}

/// A command as plain values.
pub enum CommandModel {
    Idle,
    Print(Seq<char>),
    BpAdd(u64),
    BpRemove(usize),
    BpList,
    MemDump(u64, usize),
    PhysDump(u64, usize),
    Regs,
    Step,
    SymAddr(u64),
    SymName(Seq<char>),
    Disasm(u64, usize),
    Backtrace,
}

impl KdbCommand {
    pub open spec fn model(&self) -> CommandModel {
        match self {
            KdbCommand::Idle => CommandModel::Idle,
            KdbCommand::Print(s) => CommandModel::Print(s@),
            KdbCommand::BpAdd(a) => CommandModel::BpAdd(*a),
            KdbCommand::BpRemove(s) => CommandModel::BpRemove(*s),
            KdbCommand::BpList => CommandModel::BpList,
            KdbCommand::MemDump(a, n) => CommandModel::MemDump(*a, *n),
            KdbCommand::PhysDump(a, n) => CommandModel::PhysDump(*a, *n),
            KdbCommand::Regs => CommandModel::Regs,
            KdbCommand::Step => CommandModel::Step,
            KdbCommand::SymAddr(a) => CommandModel::SymAddr(*a),
            KdbCommand::SymName(n) => CommandModel::SymName(n@),
            KdbCommand::Disasm(a, n) => CommandModel::Disasm(*a, *n),
            KdbCommand::Backtrace => CommandModel::Backtrace,
        }
    }
}

pub open spec fn or_default(v: Option<usize>, d: usize) -> usize {
    match v {
        Some(x) => x,
        None => d,
    }
}

/// The words of a trimmed command line: the command and up to two
/// arguments (the second keeps its spaces), missing ones empty.
pub open spec fn words3(t: Seq<char>) -> (Seq<char>, Seq<char>, Seq<char>) {
    let p = splitn(t, 3, ' ');
    (p[0], if p.len() >= 2 { p[1] } else { Seq::empty() }, if p.len() >= 3 { p[2] } else { Seq::empty() })
}

/// What a command line asks for.
pub open spec fn dispatch_spec(line: Seq<char>) -> CommandModel {
    let t = trimmed(line);
    let (cmd, a1, a2) = words3(t);
    if t.len() == 0 {
        CommandModel::Idle
    } else if cmd == "help"@ || cmd == "h"@ || cmd == "?"@ {
        CommandModel::Print(help_text())
    } else if cmd == "bp"@ {
        if a1 == "add"@ {
            match kdb_hex(a2) {
                Some(a) => CommandModel::BpAdd(a),
                None => CommandModel::Print("  usage: bp add <hex-address>\n"@),
            }
        } else if a1 == "rm"@ || a1 == "del"@ {
            match parse_uint(a2, usize::MAX as nat) {
                Some(n) => CommandModel::BpRemove(n as usize),
                None => CommandModel::Print("  usage: bp rm <slot>\n"@),
            }
        } else if a1 == "list"@ || a1 == "ls"@ || a1.len() == 0 {
            CommandModel::BpList
        } else {
            CommandModel::Print("  unknown bp sub: "@ + a1 + "\n"@)
        }
    } else if cmd == "md"@ || cmd == "x"@ {
        match kdb_hex(a1) {
            Some(a) => CommandModel::MemDump(a, or_default(kdb_usize(a2), 64)),
            None => CommandModel::Print("  usage: md <addr> [len]\n"@),
        }
    } else if cmd == "mdp"@ {
        match kdb_hex(a1) {
            Some(a) => CommandModel::PhysDump(a, or_default(kdb_usize(a2), 64)),
            None => CommandModel::Print("  usage: mdp <addr> [len]\n"@),
        }
    } else if cmd == "regs"@ || cmd == "reg"@ {
        CommandModel::Regs
    } else if cmd == "step"@ || cmd == "ss"@ {
        CommandModel::Step
    } else if cmd == "sym"@ {
        match kdb_hex(a1) {
            Some(a) => CommandModel::SymAddr(a),
            None => CommandModel::Print("  usage: sym <hex-address>\n"@),
        }
    } else if cmd == "symn"@ {
        if a1.len() > 0 { CommandModel::SymName(a1) } else { CommandModel::Print("  usage: symn <name>\n"@) }
    } else if cmd == "dis"@ || cmd == "disasm"@ {
        match kdb_hex(a1) {
            Some(a) => CommandModel::Disasm(a, or_default(kdb_usize(a2), 16)),
            None => CommandModel::Print("  usage: dis <addr> [count]\n"@),
        }
    } else if cmd == "bt"@ || cmd == "backtrace"@ {
        CommandModel::Backtrace
    } else if cmd == "quit"@ || cmd == "q"@ {
        CommandModel::Print("  leaving kdb\n"@)
    } else {
        CommandModel::Print("  unknown command '"@ + cmd + "' — try 'help'\n"@)
    }
}

/// Whether a command line leaves the debugger.
pub open spec fn quits(line: Seq<char>) -> bool {
    let t = trimmed(line);
    let w = words3(t);
    t.len() > 0 && (w.0 == "quit"@ || w.0 == "q"@)
}

fn print(s: &str) -> (r: KdbCommand)
    ensures
        r.model() == CommandModel::Print(s@),
{
    KdbCommand::Print(string_of(s))
}

fn bp_command(a1: &str, a2: &str) -> (r: KdbCommand)
    ensures
        r.model() == (if a1@ == "add"@ {
            match kdb_hex(a2@) {
                Some(a) => CommandModel::BpAdd(a),
                None => CommandModel::Print("  usage: bp add <hex-address>\n"@),
            }
        } else if a1@ == "rm"@ || a1@ == "del"@ {
            match parse_uint(a2@, usize::MAX as nat) {
                Some(n) => CommandModel::BpRemove(n as usize),
                None => CommandModel::Print("  usage: bp rm <slot>\n"@),
            }
        } else if a1@ == "list"@ || a1@ == "ls"@ || a1@.len() == 0 {
            CommandModel::BpList
        } else {
            CommandModel::Print("  unknown bp sub: "@ + a1@ + "\n"@)
        }),
{
    if str_eq(a1, "add") {
        match parse_hex(a2) {
            Some(a) => KdbCommand::BpAdd(a),
            None => print("  usage: bp add <hex-address>\n"),
        }
    } else if str_eq(a1, "rm") || str_eq(a1, "del") {
        match parse_u64_max(a2, usize::MAX as u64) {
            Some(n) => KdbCommand::BpRemove(n as usize),
            None => print("  usage: bp rm <slot>\n"),
        }
    } else if str_eq(a1, "list") || str_eq(a1, "ls") || a1.unicode_len() == 0 {
        KdbCommand::BpList
    } else {
        let mut out = string_of("  unknown bp sub: ");
        out.append(a1);
        out.append("\n");
        KdbCommand::Print(out)
    }
}

/// `md` (kind 0), `mdp` (kind 1) and `dis` (kind 2) take an address and
/// an optional length.
fn addr_command(kind: u8, a1: &str, a2: &str) -> (r: KdbCommand)
    requires
        kind <= 2,
    ensures
        r.model() == match kdb_hex(a1@) {
            Some(a) => if kind == 0 {
                CommandModel::MemDump(a, or_default(kdb_usize(a2@), 64))
            } else if kind == 1 {
                CommandModel::PhysDump(a, or_default(kdb_usize(a2@), 64))
            } else {
                CommandModel::Disasm(a, or_default(kdb_usize(a2@), 16))
            },
            None => if kind == 0 {
                CommandModel::Print("  usage: md <addr> [len]\n"@)
            } else if kind == 1 {
                CommandModel::Print("  usage: mdp <addr> [len]\n"@)
            } else {
                CommandModel::Print("  usage: dis <addr> [count]\n"@)
            },
        },
{
    match parse_hex(a1) {
        Some(a) => {
            let n = parse_usize(a2);
            if kind == 0 {
                KdbCommand::MemDump(a, match n { Some(x) => x, None => 64 })
            } else if kind == 1 {
                KdbCommand::PhysDump(a, match n { Some(x) => x, None => 64 })
            } else {
                KdbCommand::Disasm(a, match n { Some(x) => x, None => 16 })
            }
        },
        None => if kind == 0 {
            print("  usage: md <addr> [len]\n")
        } else if kind == 1 {
            print("  usage: mdp <addr> [len]\n")
        } else {
            print("  usage: dis <addr> [count]\n")
        },
    }
}

/// Decode a command line (see `dispatch_spec`); `quit` or `q` also leaves
/// the debugger.
pub fn dispatch(st: &mut KdbState, line: &str) -> (r: KdbCommand)
    requires
        old(st).wf(),
    ensures
        final(st).wf(),
        r.model() == dispatch_spec(line@),
        final(st).active == (old(st).active && !quits(line@)),
        final(st).bps@ == old(st).bps@,
        final(st).buf@ == old(st).buf@,
{
    let t = trim_str(line);
    if t.unicode_len() == 0 {
        return KdbCommand::Idle;
    }
    let parts = split_n(t, 3, ' ');
    let ghost pv = parts@.map_values(|w: &str| w@);
    proof {
        lemma_splitn_len(t@, 3, ' ');
    }
    assert(pv[0] == parts[0]@);
    let cmd = parts[0];
    let a1: &str = if parts.len() >= 2 {
        assert(pv[1] == parts[1]@);
        parts[1]
    } else {
        ""
    };
    let a2: &str = if parts.len() >= 3 {
        assert(pv[2] == parts[2]@);
        parts[2]
    } else {
        ""
    };
    proof {
        reveal_strlit("");
    }
    assert(words3(t@) == (cmd@, a1@, a2@));
    let is_quit = str_eq(cmd, "quit") || str_eq(cmd, "q");
    if is_quit {
        st.active = false;
    }
    if str_eq(cmd, "help") || str_eq(cmd, "h") || str_eq(cmd, "?") {
        KdbCommand::Print(string_of("  bp add <addr>    — set breakpoint\n  bp rm <slot>     — remove breakpoint\n  bp list          — list breakpoints\n  md <addr> [len]  — dump virtual memory (default 64)\n  mdp <addr> [len] — dump physical memory\n  regs             — CPU register dump\n  step             — arm single-step (TF)\n  sym <addr>       — symbol lookup by address\n  symn <name>      — symbol lookup by name\n  dis <addr> [n]   — raw disassembly bytes\n  bt               — stack backtrace\n  quit             — exit debugger\n"))
    } else if str_eq(cmd, "bp") {
        bp_command(a1, a2)
    } else if str_eq(cmd, "md") || str_eq(cmd, "x") {
        addr_command(0, a1, a2)
    } else if str_eq(cmd, "mdp") {
        addr_command(1, a1, a2)
    } else if str_eq(cmd, "regs") || str_eq(cmd, "reg") {
        KdbCommand::Regs
    } else if str_eq(cmd, "step") || str_eq(cmd, "ss") {
        KdbCommand::Step
    } else if str_eq(cmd, "sym") {
        match parse_hex(a1) {
            Some(a) => KdbCommand::SymAddr(a),
            None => print("  usage: sym <hex-address>\n"),
        }
    } else if str_eq(cmd, "symn") {
        if a1.unicode_len() > 0 {
            KdbCommand::SymName(string_of(a1))
        } else {
            print("  usage: symn <name>\n")
        }
    } else if str_eq(cmd, "dis") || str_eq(cmd, "disasm") {
        addr_command(2, a1, a2)
    } else if str_eq(cmd, "bt") || str_eq(cmd, "backtrace") {
        KdbCommand::Backtrace
    } else if is_quit {
        print("  leaving kdb\n")
    } else {
        let mut out = string_of("  unknown command '");
        out.append(cmd);
        out.append("' — try 'help'\n");
        KdbCommand::Print(out)
    }
}

// ---------------------------------------------------------------------------
// Reports
// ---------------------------------------------------------------------------

/// How a byte shows in the character column of a dump.
pub open spec fn printable(b: u8) -> char {
    if 0x20 <= b < 0x7F { b as char } else { '.' }
}

/// Hex cells of a dump row: two digits and a space each, one more space
/// after the eighth.
pub open spec fn hex_cells(row: Seq<u8>) -> Seq<char>
    decreases row.len(),
{
    if row.len() == 0 {
        Seq::empty()
    } else {
        hex_cells(row.drop_last()) + hex_fixed(row.last() as nat, 2) + " "@ + if row.len() == 8 { " "@ } else {
            Seq::empty()
        }
    }
}

pub open spec fn ascii_cells(row: Seq<u8>) -> Seq<char>
    decreases row.len(),
{
    if row.len() == 0 { Seq::empty() } else { ascii_cells(row.drop_last()).push(printable(row.last())) }
}

/// One dump row of up to 16 bytes at address `a`.
pub open spec fn dump_row(a: nat, row: Seq<u8>) -> Seq<char> {
    "0x"@ + hex_fixed(a, 16) + ": "@ + hex_cells(row) + spaces((3 * (16 - row.len())) as nat) + "|"@ + ascii_cells(row)
        + "|\n"@
}

/// A hex and character dump of `bytes` read from address `a`, 16 per row.
pub open spec fn dump_text(a: nat, bytes: Seq<u8>) -> Seq<char>
    decreases bytes.len(),
{
    if bytes.len() == 0 {
        Seq::empty()
    } else if bytes.len() <= 16 {
        dump_row(a, bytes)
    } else {
        dump_row(a, bytes.take(16)) + dump_text(a + 16, bytes.skip(16))
    }
}

fn push_printable(out: &mut String, b: u8)
    ensures
        final(out)@ == old(out)@.push(printable(b)),
{
    if b >= 0x20 && b < 0x7F {
        push_char(out, b as char);
    } else {
        push_char(out, '.');
    }
}

fn push_dump_row(out: &mut String, a: u64, row: &[u8])
    requires
        row@.len() <= 16,
    ensures
        final(out)@ == old(out)@ + dump_row(a as nat, row@),
{
    out.append("0x");
    push_hex_fixed(out, a, 16);
    out.append(": ");
    let ghost h0 = out@;
    let mut c: usize = 0;
    while c < row.len()
        invariant
            c <= row@.len(),
            out@ == h0 + hex_cells(row@.subrange(0, c as int)),
        decreases row@.len() - c,
    {
        let ghost pre = row@.subrange(0, c + 1);
        assert(pre.drop_last() =~= row@.subrange(0, c as int));
        push_hex_fixed(out, row[c] as u64, 2);
        out.append(" ");
        if c == 7 {
            out.append(" ");
        }
        c = c + 1;
    }
    assert(row@.subrange(0, row@.len() as int) =~= row@);
    push_spaces(out, 3 * (16 - row.len()));
    out.append("|");
    let ghost h1 = out@;
    let mut c: usize = 0;
    while c < row.len()
        invariant
            c <= row@.len(),
            out@ == h1 + ascii_cells(row@.subrange(0, c as int)),
        decreases row@.len() - c,
    {
        let ghost pre = row@.subrange(0, c + 1);
        assert(pre.drop_last() =~= row@.subrange(0, c as int));
        push_printable(out, row[c]);
        c = c + 1;
    }
    out.append("|\n");
}

/// The dump of `bytes`, read from address `addr` (see `dump_text`).
pub fn memory_dump_text(addr: u64, bytes: &[u8]) -> (r: String)
    requires
        addr + bytes@.len() <= u64::MAX + 1,
    ensures
        r@ == dump_text(addr as nat, bytes@),
{
    let mut out = String::new();
    let n = bytes.len();
    let mut off: usize = 0;
    assert(bytes@.subrange(0, n as int) =~= bytes@);
    assert(out@ + dump_text(addr as nat, bytes@) =~= dump_text(addr as nat, bytes@));
    while off < n
        invariant
            n == bytes@.len(),
            off <= n,
            addr + n <= u64::MAX + 1,
            out@ + dump_text((addr + off) as nat, bytes@.subrange(off as int, n as int)) == dump_text(addr as nat, bytes@),
        decreases n - off,
    {
        let ghost rest = bytes@.subrange(off as int, n as int);
        let row_len: usize = if n - off < 16 { n - off } else { 16 };
        let row = vstd::slice::slice_subrange(bytes, off, off + row_len);
        let ghost before = out@;
        push_dump_row(&mut out, addr + off as u64, row);
        if n - off > 16 {
            assert(rest.take(16) =~= row@);
            assert(rest.skip(16) =~= bytes@.subrange(off + 16, n as int));
        } else {
            assert(rest =~= row@);
            assert(bytes@.subrange((off + row_len) as int, n as int) =~= Seq::<u8>::empty());
        }
        off = off + row_len;
    }
    assert(bytes@.subrange(n as int, n as int) =~= Seq::<u8>::empty());
    out
}

/// The bytes shown by `dis`: `count`, or 16 when it is 0.
pub fn disasm_count(count: usize) -> (n: usize)
    ensures
        n == if count == 0 { 16 } else { count },
{
    if count == 0 { 16 } else { count }
}

/// The raw-byte cells of `dis`: 16 to a line, each line led by its address.
pub open spec fn dis_cells(a: nat, bytes: Seq<u8>) -> Seq<char>
    decreases bytes.len(),
{
    if bytes.len() == 0 {
        Seq::empty()
    } else {
        let i = (bytes.len() - 1) as nat;
        dis_cells(a, bytes.drop_last()) + (if i % 16 == 0 {
            (if i > 0 { "\n"@ } else { Seq::empty() }) + "  0x"@ + hex_fixed(a + i, 16) + ": "@
        } else {
            Seq::empty()
        }) + hex_fixed(bytes.last() as nat, 2) + " "@
    }
}

/// What `dis` shows of `bytes` read from `a`.
pub open spec fn disasm_text(a: nat, bytes: Seq<u8>) -> Seq<char> {
    "  raw bytes at 0x"@ + hex_fixed(a, 16) + " ("@ + dec(bytes.len()) + " bytes):\n"@ + dis_cells(a, bytes) + "\n"@
}

/// The raw instruction bytes `bytes` read from `addr` (see `disasm_text`).
pub fn disassemble_text(addr: u64, bytes: &[u8]) -> (r: String)
    requires
        addr + bytes@.len() <= u64::MAX + 1,
    ensures
        r@ == disasm_text(addr as nat, bytes@),
{
    let mut out = string_of("  raw bytes at 0x");
    push_hex_fixed(&mut out, addr, 16);
    out.append(" (");
    push_dec(&mut out, bytes.len() as u64);
    out.append(" bytes):\n");
    let ghost h0 = out@;
    let mut i: usize = 0;
    while i < bytes.len()
        invariant
            i <= bytes@.len(),
            addr + bytes@.len() <= u64::MAX + 1,
            out@ == h0 + dis_cells(addr as nat, bytes@.subrange(0, i as int)),
        decreases bytes@.len() - i,
    {
        let ghost pre = bytes@.subrange(0, i + 1);
        assert(pre.drop_last() =~= bytes@.subrange(0, i as int));
        if i % 16 == 0 {
            if i > 0 {
                out.append("\n");
            }
            out.append("  0x");
            push_hex_fixed(&mut out, addr + i as u64, 16);
            out.append(": ");
        }
        push_hex_fixed(&mut out, bytes[i] as u64, 2);
        out.append(" ");
        i = i + 1;
    }
    assert(bytes@.subrange(0, bytes@.len() as int) =~= bytes@);
    out.append("\n");
    out
}

/// What `sym <addr>` shows.
pub open spec fn sym_text(s: Seq<(Seq<char>, u64)>, addr: u64) -> Seq<char> {
    "  0x"@ + hex_fixed(addr as nat, 16) + " = <"@ + match lookup_spec(s, addr) {
        Some((name, off)) => name + "+0x"@ + hex(off as nat) + ">\n"@,
        None => "unknown>\n"@,
    }
}

/// What `sym <addr>` shows (see `sym_text`).
pub fn sym_lookup_addr(t: &SymbolTable, addr: u64) -> (r: String)
    ensures
        r@ == sym_text(t.syms(), addr),
{
    let mut out = string_of("  0x");
    push_hex_fixed(&mut out, addr, 16);
    out.append(" = <");
    match lookup(t, addr) {
        Some((name, off)) => {
            out.append(name.as_str());
            out.append("+0x");
            let h = u64_to_hex(off);
            out.append(h.as_str());
            out.append(">\n");
        },
        None => {
            out.append("unknown>\n");
        },
    }
    out
}

/// What `symn <query>` shows: a query that reads as hexadecimal (after
/// leading `0x`s) is resolved as an address; names are not indexed.
pub open spec fn sym_name_text(s: Seq<(Seq<char>, u64)>, query: Seq<char>) -> Seq<char> {
    match parse_hex_uint(strip_all(query, "0x"@), u64::MAX as nat) {
        Some(a) => sym_text(s, a as u64),
        None => "  name lookup for '"@ + query + "' not yet indexed\n"@,
    }
}

/// What `symn <query>` shows (see `sym_name_text`).
pub fn sym_lookup_name(t: &SymbolTable, query: &str) -> (r: String)
    ensures
        r@ == sym_name_text(t.syms(), query@),
{
    let q = strip_all_str(query, "0x");
    match parse_hex_u64_max(q, u64::MAX) {
        Some(a) => sym_lookup_addr(t, a),
        None => {
            let mut out = string_of("  name lookup for '");
            out.append(query);
            out.append("' not yet indexed\n");
            out
        },
    }
}

/// One `bt` line.
pub open spec fn bt_line(s: Seq<(Seq<char>, u64)>, i: nat, a: u64) -> Seq<char> {
    "  #"@ + dec(i) + ": 0x"@ + hex_fixed(a as nat, 16) + " <"@ + match lookup_spec(s, a) {
        Some((name, off)) => name + "+0x"@ + hex(off as nat) + ">\n"@,
        None => "unknown>\n"@,
    }
}

pub open spec fn bt_lines(s: Seq<(Seq<char>, u64)>, frames: Seq<u64>) -> Seq<char>
    decreases frames.len(),
{
    if frames.len() == 0 {
        Seq::empty()
    } else {
        bt_lines(s, frames.drop_last()) + bt_line(s, (frames.len() - 1) as nat, frames.last())
    }
}

/// What `bt` shows for the return addresses `frames`.
pub open spec fn stack_trace_text(s: Seq<(Seq<char>, u64)>, frames: Seq<u64>) -> Seq<char> {
    if frames.len() == 0 {
        "  (no frames)\n"@
    } else {
        "  backtrace ("@ + dec(frames.len()) + " frames):\n"@ + bt_lines(s, frames)
    }
}

fn push_bt_line(out: &mut String, t: &SymbolTable, i: usize, a: u64)
    ensures
        final(out)@ == old(out)@ + bt_line(t.syms(), i as nat, a),
{
    out.append("  #");
    push_dec(out, i as u64);
    out.append(": 0x");
    push_hex_fixed(out, a, 16);
    out.append(" <");
    match lookup(t, a) {
        Some((name, off)) => {
            out.append(name.as_str());
            out.append("+0x");
            let h = u64_to_hex(off);
            out.append(h.as_str());
            out.append(">\n");
        },
        None => {
            out.append("unknown>\n");
        },
    }
}

/// What `bt` shows (see `stack_trace_text`).
pub fn stack_trace(t: &SymbolTable, frames: &[u64]) -> (r: String)
    ensures
        r@ == stack_trace_text(t.syms(), frames@),
{
    if frames.len() == 0 {
        return string_of("  (no frames)\n");
    }
    let mut out = string_of("  backtrace (");
    push_dec(&mut out, frames.len() as u64);
    out.append(" frames):\n");
    let ghost h0 = out@;
    let mut i: usize = 0;
    while i < frames.len()
        invariant
            i <= frames@.len(),
            out@ == h0 + bt_lines(t.syms(), frames@.subrange(0, i as int)),
        decreases frames@.len() - i,
    {
        let ghost pre = frames@.subrange(0, i + 1);
        assert(pre.drop_last() =~= frames@.subrange(0, i as int));
        push_bt_line(&mut out, t, i, frames[i]);
        i = i + 1;
    }
    assert(frames@.subrange(0, frames@.len() as int) =~= frames@);
    out
}

/// The line shown before a physical dump: the physical address and the
/// virtual address it maps to.
pub fn phys_header(pa: u64, va: u64) -> (r: String)
    ensures
        r@ == "  phys 0x"@ + hex(pa as nat) + " -> virt 0x"@ + hex(va as nat) + "\n"@,
{
    let mut out = string_of("  phys 0x");
    let h = u64_to_hex(pa);
    out.append(h.as_str());
    out.append(" -> virt 0x");
    let v = u64_to_hex(va);
    out.append(v.as_str());
    out.append("\n");
    out
}

// ---------------------------------------------------------------------------
// Laws
// ---------------------------------------------------------------------------

/// A breakpoint added at a free address takes a free slot, makes a second
/// add at that address fail with `already set`, and removing it frees the
/// slot again with the other slots untouched.
pub proof fn law_add_then_remove(bps: Seq<Breakpoint>, addr: u64, orig: u8)
    requires
        bps.len() == MAX_BP,
        add_result(bps, addr) is Ok,
    ensures
        ({
            let slot = add_result(bps, addr)->Ok_0 as int;
            let added = bps.update(slot, Breakpoint { addr, orig, active: true });
            let removed = added.update(slot, Breakpoint { active: false, ..added[slot] });
            &&& !bps[slot].active
            &&& add_result(added, addr) == Err::<usize, &'static str>("already set")
            &&& !is_set(removed, addr)
            &&& forall|i: int| 0 <= i < MAX_BP && i != slot ==> #[trigger] removed[i] == bps[i]
        }),
{
    lemma_free_from(bps, 0);
    let slot = add_result(bps, addr)->Ok_0 as int;
    let added = bps.update(slot, Breakpoint { addr, orig, active: true });
    assert(added[slot].active && added[slot].addr == addr);
    let removed = added.update(slot, Breakpoint { active: false, ..added[slot] });
    assert forall|i: int| 0 <= i < removed.len() && (#[trigger] removed[i]).active implies removed[i].addr != addr by {
        assert(removed[i] == bps[i]);
    }
}

/// The typed bytes after the keys of `s`, from `buf`.
pub open spec fn type_chars(buf: Seq<u8>, s: Seq<char>) -> Seq<u8>
    decreases s.len(),
{
    if s.len() == 0 { buf } else { edit_buf(type_chars(buf, s.drop_last()), KeyEvent::Char(s.last())) }
}

/// Whether `c` is a key the editor keeps as typed.
pub open spec fn plain_key(c: char) -> bool {
    c != '\n' && c != '\r' && c != '\x08' && c != '\x7f'
}

proof fn lemma_type_chars(s: Seq<char>)
    requires
        s.len() <= LINE_MAX,
        forall|i: int| 0 <= i < s.len() ==> plain_key(#[trigger] s[i]),
    ensures
        type_chars(Seq::empty(), s) == s.map_values(|c: char| (c as u32) as u8),
    decreases s.len(),
{
    if s.len() > 0 {
        let d = s.drop_last();
        assert forall|i: int| 0 <= i < d.len() implies plain_key(#[trigger] d[i]) by {
            assert(d[i] == s[i]);
        }
        lemma_type_chars(d);
        assert(plain_key(s[s.len() - 1]));
        assert(s.map_values(|c: char| (c as u32) as u8) =~= d.map_values(|c: char| (c as u32) as u8).push(
            (s.last() as u32) as u8));
    }
}

/// A line of plain ASCII keys typed from an empty line is submitted, on
/// Enter, as exactly that text.
pub proof fn law_typed_line_submitted(s: Seq<char>)
    requires
        s.len() <= LINE_MAX,
        vstd::utf8::is_ascii_chars(s),
        forall|i: int| 0 <= i < s.len() ==> plain_key(#[trigger] s[i]),
    ensures
        line_text(type_chars(Seq::empty(), s)) == s,
{
    lemma_type_chars(s);
    vstd::utf8::is_ascii_chars_encode_utf8(s);
    vstd::utf8::is_ascii_chars_nat_bound(s);
    let typed = type_chars(Seq::empty(), s);
    assert forall|i: int| 0 <= i < s.len() implies #[trigger] typed[i] == vstd::utf8::encode_utf8(s)[i] by {
        let c = s[i];
        let u = c as u32;
        assert((c as u8) == (u as u8));
    }
    assert(typed =~= vstd::utf8::encode_utf8(s));
    vstd::utf8::encode_utf8_valid_utf8(s);
    vstd::utf8::encode_utf8_decode_utf8(s);
}

} // verus!
