//! Kernel symbol table: function names and addresses registered at boot,
//! used to turn return addresses into `name+offset` in backtraces.
use vstd::prelude::*;
use vstd::string::*;
use crate::text::{string_of, push_dec, dec, hex, u64_to_hex};

verus! {

/// A registered symbol.
pub struct Symbol {
    pub name: String,
    pub addr: u64,
}

/// The registered symbols, in registration order.
pub struct SymbolTable {
    pub symbols: Vec<Symbol>,
}

impl SymbolTable {
    /// The symbols as `(name, address)` pairs.
    pub open spec fn syms(&self) -> Seq<(Seq<char>, u64)> {
        self.symbols@.map_values(|s: Symbol| (s.name@, s.addr))
    }

    /// No symbols.
    pub fn new() -> (t: Self)
        ensures
            t.syms().len() == 0,
    {
        SymbolTable { symbols: Vec::new() }
    }
}

/// Register a kernel symbol.
pub fn register(t: &mut SymbolTable, name: &str, addr: u64)
    ensures
        final(t).syms() == old(t).syms().push((name@, addr)),
{
    t.symbols.push(Symbol { name: string_of(name), addr });
    assert(t.syms() =~= old(t).syms().push((name@, addr)));
}

/// Index of the symbol `lookup` settles on among the first `n`: scanning
/// in order, a symbol at or before `addr` replaces the one held when there
/// is none or it lies strictly higher.
pub open spec fn closest_upto(s: Seq<(Seq<char>, u64)>, addr: u64, n: int) -> Option<int>
    decreases n,
{
    if n <= 0 {
        None
    } else {
        let b = closest_upto(s, addr, n - 1);
        if s[n - 1].1 <= addr && (b is None || s[n - 1].1 > s[b->0].1) { Some(n - 1) } else { b }
    }
}

/// Index of the symbol chosen for `addr`.
pub open spec fn closest(s: Seq<(Seq<char>, u64)>, addr: u64) -> Option<int> {
    closest_upto(s, addr, s.len() as int)
}

/// What `lookup` gives: the chosen symbol's name and `addr`'s offset from
/// it.
pub open spec fn lookup_spec(s: Seq<(Seq<char>, u64)>, addr: u64) -> Option<(Seq<char>, u64)> {
    match closest(s, addr) {
        Some(i) => Some((s[i].0, (addr - s[i].1) as u64)),
        None => None,
    }
}

proof fn lemma_closest_upto(s: Seq<(Seq<char>, u64)>, addr: u64, n: int)
    requires
        0 <= n <= s.len(),
    ensures
        closest_upto(s, addr, n) is None <==> forall|j: int| 0 <= j < n ==> #[trigger] s[j].1 > addr,
        closest_upto(s, addr, n) matches Some(i) ==> {
            &&& 0 <= i < n
            &&& s[i].1 <= addr
            &&& forall|j: int| 0 <= j < n && #[trigger] s[j].1 <= addr ==> s[j].1 <= s[i].1
            &&& forall|j: int| 0 <= j < i && #[trigger] s[j].1 <= addr ==> s[j].1 < s[i].1
        },
    decreases n,
{
    if n > 0 {
        lemma_closest_upto(s, addr, n - 1);
    }
}

/// The symbol `lookup` finds for `addr` is one at or before it, as high as
/// any such, and the first registered at that address; there is none
/// exactly when every symbol lies above `addr`.
pub proof fn law_lookup_closest(s: Seq<(Seq<char>, u64)>, addr: u64)
    ensures
        closest(s, addr) is None <==> forall|j: int| 0 <= j < s.len() ==> #[trigger] s[j].1 > addr,
        closest(s, addr) matches Some(i) ==> {
            &&& 0 <= i < s.len()
            &&& s[i].1 <= addr
            &&& forall|j: int| 0 <= j < s.len() && #[trigger] s[j].1 <= addr ==> s[j].1 <= s[i].1
            &&& forall|j: int| 0 <= j < i && #[trigger] s[j].1 <= addr ==> s[j].1 < s[i].1
        },
{
    lemma_closest_upto(s, addr, s.len() as int);
}

fn closest_index(t: &SymbolTable, addr: u64) -> (r: Option<usize>)
    ensures
        match r {
            Some(i) => closest(t.syms(), addr) == Some(i as int) && i < t.symbols@.len(),
            None => closest(t.syms(), addr) is None,
        },
{
    let ghost s = t.syms();
    let mut best: Option<usize> = None;
    let mut k: usize = 0;
    while k < t.symbols.len()
        invariant
            k <= t.symbols@.len(),
            s == t.syms(),
            match best {
                Some(i) => closest_upto(s, addr, k as int) == Some(i as int) && i < k,
                None => closest_upto(s, addr, k as int) is None,
            },
        decreases t.symbols@.len() - k,
    {
        assert(s[k as int].1 == t.symbols@[k as int].addr);
        let a = t.symbols[k].addr;
        if a <= addr {
            match best {
                None => {
                    best = Some(k);
                },
                Some(b) => {
                    assert(s[b as int].1 == t.symbols@[b as int].addr);
                    if a > t.symbols[b].addr {
                        best = Some(k);
                    }
                },
            }
        }
        k = k + 1;
    }
    best
}

/// Look up the symbol for `addr`: its name and the offset of `addr` from
/// it (see `lookup_spec`).
pub fn lookup(t: &SymbolTable, addr: u64) -> (r: Option<(String, u64)>)
    ensures
        match r {
            Some((name, off)) => lookup_spec(t.syms(), addr) == Some((name@, off)),
            None => lookup_spec(t.syms(), addr) is None,
        },
{
    match closest_index(t, addr) {
        Some(i) => {
            let ghost s = t.syms();
            assert(s[i as int] == (t.symbols@[i as int].name@, t.symbols@[i as int].addr));
            proof {
                lemma_closest_upto(s, addr, s.len() as int);
            }
            Some((string_of(t.symbols[i].name.as_str()), addr - t.symbols[i].addr))
        },
        None => None,
    }
}

/// The backtrace line of the `i`-th frame, at `addr`.
pub open spec fn frame_line(s: Seq<(Seq<char>, u64)>, i: nat, addr: u64) -> Seq<char> {
    "  #"@ + dec(i) + ": 0x"@ + hex(addr as nat) + match lookup_spec(s, addr) {
        Some((name, off)) => " <"@ + name + "+0x"@ + hex(off as nat) + ">\n"@,
        None => " <unknown>\n"@,
    }
}

pub open spec fn frame_lines(s: Seq<(Seq<char>, u64)>, frames: Seq<u64>) -> Seq<char>
    decreases frames.len(),
{
    if frames.len() == 0 {
        Seq::empty()
    } else {
        frame_lines(s, frames.drop_last()) + frame_line(s, (frames.len() - 1) as nat, frames.last())
    }
}

fn push_frame(out: &mut String, t: &SymbolTable, i: usize, addr: u64)
    ensures
        final(out)@ == old(out)@ + frame_line(t.syms(), i as nat, addr),
{
    out.append("  #");
    push_dec(out, i as u64);
    out.append(": 0x");
    let h = u64_to_hex(addr);
    out.append(h.as_str());
    match lookup(t, addr) {
        Some((name, off)) => {
            out.append(" <");
            out.append(name.as_str());
            out.append("+0x");
            let ho = u64_to_hex(off);
            out.append(ho.as_str());
            out.append(">\n");
        },
        None => {
            out.append(" <unknown>\n");
        },
    }
}

/// A backtrace of the return addresses `frames` (innermost first), each
/// resolved to `name+offset` when a symbol lies at or before it.
pub fn format_backtrace(t: &SymbolTable, frames: &[u64]) -> (r: String)
    ensures
        r@ == "Stack trace:\n"@ + frame_lines(t.syms(), frames@),
{
    let mut out = string_of("Stack trace:\n");
    let ghost head = out@;
    let mut k: usize = 0;
    while k < frames.len()
        invariant
            k <= frames@.len(),
            head == "Stack trace:\n"@,
            out@ == head + frame_lines(t.syms(), frames@.subrange(0, k as int)),
        decreases frames@.len() - k,
    {
        let ghost pre = frames@.subrange(0, k + 1);
        assert(pre.drop_last() =~= frames@.subrange(0, k as int));
        push_frame(&mut out, t, k, frames[k]);
        k = k + 1;
    }
    assert(frames@.subrange(0, frames@.len() as int) =~= frames@);
    out
}

/// Register the core kernel symbols, at the addresses the caller takes of
/// the kernel's entry point and of its halt loop.
pub fn init(t: &mut SymbolTable, kernel_main_addr: u64, halt_loop_addr: u64)
    ensures
        final(t).syms() == old(t).syms().push(("kernel_main"@, kernel_main_addr)).push(("halt_loop"@, halt_loop_addr)),
{
    register(t, "kernel_main", kernel_main_addr);
    register(t, "halt_loop", halt_loop_addr);
}

} // verus!
