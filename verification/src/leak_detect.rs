//! Memory leak detection: heap allocations are recorded with the module
//! that asked for them and the tick they were made, so that old ones can be
//! reported as suspected leaks and live memory summed per module.
use vstd::prelude::*;
use vstd::string::*;
use crate::libc::{wrap_inc, inc_wrapping};
use crate::text::{string_of, push_dec, dec, str_eq, push_char, pad_right, pad_left, push_padded, push_padded_left,
    push_dec_padded, push_dec_padded_left};

verus! {

/// Ticks per second of the programmable interval timer.
pub const PIT_FREQUENCY_HZ: u64 = 100;

/// Age in ticks beyond which `leak_report` flags an allocation.
pub const LEAK_THRESHOLD: u64 = 500;

/// A tracked heap allocation.
#[derive(Clone, Copy, Debug)]
pub struct AllocationRecord {
    /// Address the allocator returned.
    pub address: u64,
    /// Size in bytes.
    pub size: usize,
    /// Kernel module that asked for it.
    pub module: &'static str,
    /// Tick at which it was recorded.
    pub tick: u64,
}

/// The live allocations and the running totals since boot.
pub struct LeakTracker {
    pub records: Vec<AllocationRecord>,
    pub total_tracked: u64,
    pub total_freed: u64,
}

impl LeakTracker {
    /// Nothing tracked yet.
    pub fn new() -> (t: Self)
        ensures
            t.records@.len() == 0,
            t.total_tracked == 0,
            t.total_freed == 0,
    {
        LeakTracker { records: Vec::new(), total_tracked: 0, total_freed: 0 }
    }
}

/// Record a new allocation made at tick `now`.
pub fn track_alloc(t: &mut LeakTracker, addr: u64, size: usize, module: &'static str, now: u64)
    ensures
        final(t).records@ == old(t).records@.push(AllocationRecord { address: addr, size, module, tick: now }),
        final(t).total_tracked == wrap_inc(old(t).total_tracked),
        final(t).total_freed == old(t).total_freed,
{
    t.records.push(AllocationRecord { address: addr, size, module, tick: now });
    t.total_tracked = inc_wrapping(t.total_tracked);
}

/// Index of the first record from `j` on for address `addr` (the length
/// when none).
pub open spec fn record_index(s: Seq<AllocationRecord>, addr: u64, j: int) -> int
    decreases s.len() - j,
{
    if j < 0 || j >= s.len() {
        s.len() as int
    } else if s[j].address == addr {
        j
    } else {
        record_index(s, addr, j + 1)
    }
}

proof fn lemma_record_index(s: Seq<AllocationRecord>, addr: u64, j: int)
    requires
        0 <= j <= s.len(),
    ensures
        j <= record_index(s, addr, j) <= s.len(),
    decreases s.len() - j,
{
    if j < s.len() && s[j].address != addr {
        lemma_record_index(s, addr, j + 1);
    }
}

/// Drop the record of the allocation at `addr`: the last record takes its
/// place. False when there is none (a double free or an untracked block).
pub fn track_free(t: &mut LeakTracker, addr: u64) -> (r: bool)
    ensures
        ({
            let s = old(t).records@;
            let i = record_index(s, addr, 0);
            &&& r == (i < s.len())
            &&& r ==> final(t).records@ == s.update(i, s.last()).drop_last()
                && final(t).total_freed == wrap_inc(old(t).total_freed)
            &&& !r ==> final(t).records@ == s && final(t).total_freed == old(t).total_freed
        }),
        final(t).total_tracked == old(t).total_tracked,
{
    let ghost s = t.records@;
    proof {
        lemma_record_index(s, addr, 0);
    }
    let n = t.records.len();
    let mut i: usize = 0;
    while i < n
        invariant
            n == t.records@.len(),
            t.records@ == s,
            s == old(t).records@,
            t.total_freed == old(t).total_freed,
            t.total_tracked == old(t).total_tracked,
            i <= n,
            record_index(s, addr, 0) == record_index(s, addr, i as int),
        decreases n - i,
    {
        if t.records[i].address == addr {
            t.records.swap_remove(i);
            t.total_freed = inc_wrapping(t.total_freed);
            return true;
        }
        i = i + 1;
    }
    false
}

/// How many allocations have been tracked since boot.
pub fn total_tracked(t: &LeakTracker) -> (r: u64)
    ensures
        r == t.total_tracked,
{
    t.total_tracked
}

/// How many tracked allocations have been freed since boot.
pub fn total_freed(t: &LeakTracker) -> (r: u64)
    ensures
        r == t.total_freed,
{
    t.total_freed
}

/// How many allocations are live.
pub fn outstanding(t: &LeakTracker) -> (r: usize)
    ensures
        r == t.records@.len(),
{
    t.records.len()
}

/// The age of a record at tick `now` (0 for a record from the future).
pub open spec fn age(r: AllocationRecord, now: u64) -> u64 {
    if now >= r.tick { (now - r.tick) as u64 } else { 0 }
}

/// The records older than `threshold` ticks at `now`, in order.
pub open spec fn leaks_of(s: Seq<AllocationRecord>, threshold: u64, now: u64) -> Seq<AllocationRecord>
    decreases s.len(),
{
    if s.len() == 0 {
        s
    } else {
        let rest = leaks_of(s.drop_last(), threshold, now);
        if age(s.last(), now) > threshold { rest.push(s.last()) } else { rest }
    }
}

/// The allocations older than `age_threshold_ticks` at tick `now`.
pub fn find_leaks(t: &LeakTracker, age_threshold_ticks: u64, now: u64) -> (r: Vec<AllocationRecord>)
    ensures
        r@ == leaks_of(t.records@, age_threshold_ticks, now),
{
    let ghost s = t.records@;
    let mut out: Vec<AllocationRecord> = Vec::new();
    let mut i: usize = 0;
    while i < t.records.len()
        invariant
            s == t.records@,
            i <= s.len(),
            out@ == leaks_of(s.subrange(0, i as int), age_threshold_ticks, now),
        decreases s.len() - i,
    {
        let rec = t.records[i];
        assert(s.subrange(0, i + 1).drop_last() =~= s.subrange(0, i as int));
        if now.saturating_sub(rec.tick) > age_threshold_ticks {
            out.push(rec);
        }
        i = i + 1;
    }
    assert(s.subrange(0, s.len() as int) =~= s);
    out
}

// ---------------------------------------------------------------------------
// Reports
// ---------------------------------------------------------------------------

/// One line of the leak report (`i` counts from 0).
pub open spec fn leak_line(i: int, r: AllocationRecord, now: u64) -> Seq<char> {
    " "@ + dec((i + 1) as nat) + ": addr=0x"@ + hex_upper(r.address as nat, 16) + "  size="@ + pad_right(dec(r.size as nat), 8)
        + " module="@ + pad_right(r.module@, 12) + " age="@ + dec(age(r, now) as nat) + " ticks\n"@
}

pub open spec fn leak_lines(s: Seq<AllocationRecord>, now: u64) -> Seq<char>
    decreases s.len(),
{
    if s.len() == 0 { Seq::empty() } else { leak_lines(s.drop_last(), now) + leak_line(s.len() - 1, s.last(), now) }
}

/// The leak report at tick `now`.
pub open spec fn leak_report_text(t: LeakTracker, now: u64) -> Seq<char> {
    let leaks = leaks_of(t.records@, LEAK_THRESHOLD, now);
    "=== MerlionOS Leak Report ===\nTotal tracked : "@ + dec(t.total_tracked as nat) + "\nTotal freed   : "@
        + dec(t.total_freed as nat) + "\nOutstanding   : "@ + dec(t.records@.len()) + "\nLeak threshold: "@
        + dec(LEAK_THRESHOLD as nat) + " ticks ("@ + dec((LEAK_THRESHOLD / PIT_FREQUENCY_HZ) as nat) + " s)\nSuspected leaks: "@
        + dec(leaks.len()) + "\n-----------------------------\n"@
        + (if leaks.len() == 0 { "(none)\n"@ } else { leak_lines(leaks, now) })
        + "=============================\n"@
}

fn push_leak_line(out: &mut String, i: usize, r: AllocationRecord, now: u64)
    requires
        i < usize::MAX,
    ensures
        final(out)@ == old(out)@ + leak_line(i as int, r, now),
{
    out.append(" ");
    push_dec(out, (i + 1) as u64);
    out.append(": addr=0x");
    push_hex16(out, r.address);
    out.append("  size=");
    push_dec_padded(out, r.size as u64, 8);
    out.append(" module=");
    push_padded(out, r.module, 12);
    out.append(" age=");
    push_dec(out, now.saturating_sub(r.tick));
    out.append(" ticks\n");
    assert(final(out)@ =~= old(out)@ + leak_line(i as int, r, now));
}

/// The suspected-leak report at tick `now`: allocations older than
/// `LEAK_THRESHOLD` ticks, with the running totals.
pub fn leak_report(t: &LeakTracker, now: u64) -> (out: String)
    ensures
        out@ == leak_report_text(*t, now),
{
    let leaks = find_leaks(t, LEAK_THRESHOLD, now);
    let mut out = string_of("=== MerlionOS Leak Report ===\nTotal tracked : ");
    push_dec(&mut out, t.total_tracked);
    out.append("\nTotal freed   : ");
    push_dec(&mut out, t.total_freed);
    out.append("\nOutstanding   : ");
    push_dec(&mut out, t.records.len() as u64);
    out.append("\nLeak threshold: ");
    push_dec(&mut out, LEAK_THRESHOLD);
    out.append(" ticks (");
    push_dec(&mut out, LEAK_THRESHOLD / PIT_FREQUENCY_HZ);
    out.append(" s)\nSuspected leaks: ");
    push_dec(&mut out, leaks.len() as u64);
    out.append("\n-----------------------------\n");
    let ghost head = out@;
    if leaks.len() == 0 {
        out.append("(none)\n");
    } else {
        let mut i: usize = 0;
        while i < leaks.len()
            invariant
                i <= leaks@.len(),
                out@ == head + leak_lines(leaks@.subrange(0, i as int), now),
            decreases leaks@.len() - i,
        {
            assert(leaks@.subrange(0, i + 1).drop_last() =~= leaks@.subrange(0, i as int));
            push_leak_line(&mut out, i, leaks[i], now);
            i = i + 1;
        }
        assert(leaks@.subrange(0, leaks@.len() as int) =~= leaks@);
    }
    out.append("=============================\n");
    out
}

/// Live allocations of one module.
#[derive(Clone, Copy, Debug)]
pub struct ModuleStats {
    pub module: &'static str,
    /// Live allocations.
    pub count: usize,
    /// Bytes across them.
    pub total_bytes: usize,
}

/// Bytes of all the records.
pub open spec fn sizes_sum(s: Seq<AllocationRecord>) -> nat
    decreases s.len(),
{
    if s.len() == 0 { 0 } else { sizes_sum(s.drop_last()) + s.last().size as nat }
}

/// Index of the first entry from `j` on for module `m` (the length when none).
pub open spec fn stat_index(g: Seq<ModuleStats>, m: Seq<char>, j: int) -> int
    decreases g.len() - j,
{
    if j < 0 || j >= g.len() {
        g.len() as int
    } else if g[j].module@ == m {
        j
    } else {
        stat_index(g, m, j + 1)
    }
}

/// The per-module totals of the records, modules in order of first
/// appearance.
pub open spec fn group_stats(s: Seq<AllocationRecord>) -> Seq<ModuleStats>
    decreases s.len(),
{
    if s.len() == 0 {
        Seq::empty()
    } else {
        let g = group_stats(s.drop_last());
        let r = s.last();
        let i = stat_index(g, r.module@, 0);
        if i < g.len() {
            g.update(i, ModuleStats { count: (g[i].count + 1) as usize, total_bytes: (g[i].total_bytes + r.size) as usize, ..g[i] })
        } else {
            g.push(ModuleStats { module: r.module, count: 1, total_bytes: r.size })
        }
    }
}

/// Index of the first entry from `j` on with fewer bytes than `b`.
pub open spec fn first_smaller(g: Seq<ModuleStats>, b: usize, j: int) -> int
    decreases g.len() - j,
{
    if j < 0 || j >= g.len() {
        g.len() as int
    } else if g[j].total_bytes < b {
        j
    } else {
        first_smaller(g, b, j + 1)
    }
}

/// The entries by bytes, largest first, equal ones in their original order.
pub open spec fn sort_by_bytes(g: Seq<ModuleStats>) -> Seq<ModuleStats>
    decreases g.len(),
{
    if g.len() == 0 {
        g
    } else {
        let r = sort_by_bytes(g.drop_last());
        r.insert(first_smaller(r, g.last().total_bytes, 0), g.last())
    }
}

proof fn lemma_stat_index(g: Seq<ModuleStats>, m: Seq<char>, j: int)
    requires
        0 <= j <= g.len(),
    ensures
        j <= stat_index(g, m, j) <= g.len(),
    decreases g.len() - j,
{
    if j < g.len() && g[j].module@ != m {
        lemma_stat_index(g, m, j + 1);
    }
}

proof fn lemma_first_smaller(g: Seq<ModuleStats>, b: usize, j: int)
    requires
        0 <= j <= g.len(),
    ensures
        j <= first_smaller(g, b, j) <= g.len(),
    decreases g.len() - j,
{
    if j < g.len() && g[j].total_bytes >= b {
        lemma_first_smaller(g, b, j + 1);
    }
}

proof fn lemma_sort_len(g: Seq<ModuleStats>)
    ensures
        sort_by_bytes(g).len() == g.len(),
    decreases g.len(),
{
    if g.len() > 0 {
        lemma_sort_len(g.drop_last());
        lemma_first_smaller(sort_by_bytes(g.drop_last()), g.last().total_bytes, 0);
    }
}

/// Per-module totals of the live allocations, largest first (equal totals
/// in order of the modules' first allocation).
pub fn module_summary(t: &LeakTracker) -> (r: Vec<ModuleStats>)
    requires
        sizes_sum(t.records@) <= usize::MAX,
    ensures
        r@ == sort_by_bytes(group_stats(t.records@)),
{
    let ghost s = t.records@;
    let mut stats: Vec<ModuleStats> = Vec::new();
    let mut i: usize = 0;
    while i < t.records.len()
        invariant
            s == t.records@,
            i <= s.len(),
            sizes_sum(s) <= usize::MAX,
            stats@ == group_stats(s.subrange(0, i as int)),
            forall|k: int| 0 <= k < stats@.len() ==> #[trigger] stats@[k].count <= i
                && stats@[k].total_bytes <= sizes_sum(s.subrange(0, i as int)),
        decreases s.len() - i,
    {
        let rec = t.records[i];
        let ghost pre = s.subrange(0, i + 1);
        assert(pre.drop_last() =~= s.subrange(0, i as int));
        assert(pre.last() == rec);
        proof {
            lemma_sum_prefix(s, i + 1);
            lemma_stat_index(stats@, rec.module@, 0);
        }
        let mut j: usize = 0;
        while j < stats.len()
            invariant
                j <= stats@.len(),
                stat_index(stats@, rec.module@, 0) == stat_index(stats@, rec.module@, j as int),
            ensures
                j == stat_index(stats@, rec.module@, 0),
            decreases stats@.len() - j,
        {
            if str_eq(stats[j].module, rec.module) {
                break;
            }
            j = j + 1;
        }
        if j < stats.len() {
            let old_s = stats[j];
            stats.set(j, ModuleStats { module: old_s.module, count: old_s.count + 1, total_bytes: old_s.total_bytes + rec.size });
        } else {
            stats.push(ModuleStats { module: rec.module, count: 1, total_bytes: rec.size });
        }
        i = i + 1;
    }
    assert(s.subrange(0, s.len() as int) =~= s);
    let ghost g = stats@;
    let mut sorted: Vec<ModuleStats> = Vec::new();
    let mut k: usize = 0;
    while k < stats.len()
        invariant
            g == stats@,
            k <= g.len(),
            sorted@ == sort_by_bytes(g.subrange(0, k as int)),
        decreases g.len() - k,
    {
        let x = stats[k];
        let ghost pre = g.subrange(0, k + 1);
        assert(pre.drop_last() =~= g.subrange(0, k as int));
        proof {
            lemma_first_smaller(sorted@, x.total_bytes, 0);
        }
        let mut p: usize = 0;
        while p < sorted.len()
            invariant
                p <= sorted@.len(),
                first_smaller(sorted@, x.total_bytes, 0) == first_smaller(sorted@, x.total_bytes, p as int),
            ensures
                p == first_smaller(sorted@, x.total_bytes, 0),
            decreases sorted@.len() - p,
        {
            if sorted[p].total_bytes < x.total_bytes {
                break;
            }
            p = p + 1;
        }
        sorted.insert(p, x);
        k = k + 1;
    }
    assert(g.subrange(0, g.len() as int) =~= g);
    sorted
}

proof fn lemma_sum_prefix(s: Seq<AllocationRecord>, i: int)
    requires
        0 <= i <= s.len(),
    ensures
        sizes_sum(s.subrange(0, i)) <= sizes_sum(s),
    decreases s.len() - i,
{
    if i < s.len() {
        lemma_sum_prefix(s, i + 1);
        assert(s.subrange(0, i + 1).drop_last() =~= s.subrange(0, i));
    } else {
        assert(s.subrange(0, i) =~= s);
    }
}

/// One row of the module summary.
pub open spec fn summary_row(m: ModuleStats) -> Seq<char> {
    " "@ + pad_right(m.module@, 14) + " "@ + pad_left(dec(m.count as nat), 6) + " "@ + pad_left(dec(m.total_bytes as nat), 10) + "\n"@
}

pub open spec fn summary_rows(g: Seq<ModuleStats>) -> Seq<char>
    decreases g.len(),
{
    if g.len() == 0 { Seq::empty() } else { summary_rows(g.drop_last()) + summary_row(g.last()) }
}

/// The module summary table.
pub open spec fn summary_text(g: Seq<ModuleStats>) -> Seq<char> {
    "=== Per-Module Allocation Summary ===\n"@ + " MODULE          COUNT      BYTES\n"@
        + " -------------- ------ ----------\n"@ + summary_rows(g)
        + (if g.len() == 0 { " (no outstanding allocations)\n"@ } else { Seq::empty() })
        + "=====================================\n"@
}

fn push_summary_row(out: &mut String, s: ModuleStats)
    ensures
        final(out)@ == old(out)@ + summary_row(s),
{
    out.append(" ");
    push_padded(out, s.module, 14);
    out.append(" ");
    push_dec_padded_left(out, s.count as u64, 6);
    out.append(" ");
    push_dec_padded_left(out, s.total_bytes as u64, 10);
    out.append("\n");
}

/// The per-module summary as a table.
pub fn module_summary_report(t: &LeakTracker) -> (out: String)
    requires
        sizes_sum(t.records@) <= usize::MAX,
    ensures
        out@ == summary_text(sort_by_bytes(group_stats(t.records@))),
{
    let stats = module_summary(t);
    let mut out = string_of("=== Per-Module Allocation Summary ===\n");
    out.append(" MODULE          COUNT      BYTES\n");
    out.append(" -------------- ------ ----------\n");
    let ghost head = out@;
    let mut i: usize = 0;
    while i < stats.len()
        invariant
            i <= stats@.len(),
            out@ == head + summary_rows(stats@.subrange(0, i as int)),
        decreases stats@.len() - i,
    {
        let ghost pre = stats@.subrange(0, i + 1);
        assert(pre.drop_last() =~= stats@.subrange(0, i as int));
        push_summary_row(&mut out, stats[i]);
        i = i + 1;
    }
    assert(stats@.subrange(0, stats@.len() as int) =~= stats@);
    if stats.len() == 0 {
        out.append(" (no outstanding allocations)\n");
    }
    out.append("=====================================\n");
    out
}

/// An upper-case hexadecimal digit.
pub open spec fn upper_digit(d: nat) -> char {
    if d < 10 { ((d + 48) as u8) as char } else { ((d + 55) as u8) as char }
}

/// The last `k` upper-case hexadecimal digits of `n`, zero-padded.
pub open spec fn hex_upper(n: nat, k: nat) -> Seq<char>
    decreases k,
{
    if k == 0 { Seq::empty() } else { hex_upper(n / 16, (k - 1) as nat).push(upper_digit(n % 16)) }
}

fn push_hex16(out: &mut String, n: u64)
    ensures
        final(out)@ == old(out)@ + hex_upper(n as nat, 16),
{
    let mut digits: Vec<char> = Vec::new();
    let mut v: u64 = n;
    let mut k: usize = 0;
    assert(pow16(0) == 1);
    while k < 16
        invariant
            k <= 16,
            digits@.len() == k,
            v as nat == (n as nat) / pow16(k as nat),
            forall|j: int| 0 <= j < k ==> digits@[j] == upper_digit(((n as nat) / pow16(j as nat)) % 16),
        decreases 16 - k,
    {
        let d = v % 16;
        let c: char = if d < 10 { ((d + 48) as u8) as char } else { ((d + 55) as u8) as char };
        digits.push(c);
        proof {
            lemma_pow16_div(n as nat, k as nat);
        }
        v = v / 16;
        k = k + 1;
    }
    let mut j: usize = 16;
    let ghost o = out@;
    while j > 0
        invariant
            j <= 16,
            digits@.len() == 16,
            forall|i: int| 0 <= i < 16 ==> digits@[i] == upper_digit(((n as nat) / pow16(i as nat)) % 16),
            out@ == o + hex_upper((n as nat) / pow16(j as nat), (16 - j) as nat),
        decreases j,
    {
        j = j - 1;
        push_char(out, digits[j]);
        proof {
            lemma_hex_upper_step(n as nat, j as nat);
        }
    }
    assert(pow16(0) == 1);
}

/// 16 to the power `k`.
pub open spec fn pow16(k: nat) -> nat
    decreases k,
{
    if k == 0 { 1 } else { 16 * pow16((k - 1) as nat) }
}

proof fn lemma_pow16_pos(k: nat)
    ensures
        pow16(k) >= 1,
    decreases k,
{
    if k > 0 {
        lemma_pow16_pos((k - 1) as nat);
    }
}

proof fn lemma_pow16_div(n: nat, k: nat)
    ensures
        n / pow16(k) / 16 == n / pow16(k + 1),
{
    lemma_pow16_pos(k);
    assert(pow16(k + 1) == pow16(k) * 16);
    vstd::arithmetic::div_mod::lemma_div_denominator(n as int, pow16(k) as int, 16);
}

proof fn lemma_hex_upper_unfold(m: nat, k: nat)
    requires
        k > 0,
    ensures
        hex_upper(m, k) == hex_upper(m / 16, (k - 1) as nat).push(upper_digit(m % 16)),
{
}

proof fn lemma_hex_upper_step(n: nat, j: nat)
    requires
        j < 16,
    ensures
        hex_upper(n / pow16(j + 1), (16 - (j + 1)) as nat).push(upper_digit((n / pow16(j)) % 16))
            == hex_upper(n / pow16(j), (16 - j) as nat),
{
    lemma_pow16_div(n, j);
    let m = n / pow16(j);
    let k: nat = (16 - j) as nat;
    assert(k > 0);
    lemma_hex_upper_unfold(m, k);
    assert((k - 1) as nat == (16 - (j + 1)) as nat);
}

// ---------------------------------------------------------------------------
// Laws
// ---------------------------------------------------------------------------

/// Freeing a block right after tracking it, at an address no live record
/// has, gives back the records as they were.
pub proof fn law_alloc_then_free(s: Seq<AllocationRecord>, r: AllocationRecord)
    requires
        forall|j: int| 0 <= j < s.len() ==> s[j].address != r.address,
    ensures
        record_index(s.push(r), r.address, 0) == s.len(),
        s.push(r).update(s.len() as int, s.push(r).last()).drop_last() == s,
{
    lemma_no_record(s.push(r), r.address, 0);
    assert(s.push(r).update(s.len() as int, s.push(r).last()).drop_last() =~= s);
}

proof fn lemma_no_record(s: Seq<AllocationRecord>, addr: u64, j: int)
    requires
        0 <= j <= s.len(),
        s.len() > 0,
        s.last().address == addr,
        forall|k: int| 0 <= k < s.len() - 1 ==> s[k].address != addr,
    ensures
        record_index(s, addr, j) == if j < s.len() { s.len() - 1 } else { s.len() as int },
    decreases s.len() - j,
{
    if j < s.len() - 1 {
        lemma_no_record(s, addr, j + 1);
    }
}

/// The counters stay in balance (allocations counted = frees counted + live
/// records), as long as they
/// do not wrap, through every `track_alloc` and every `track_free`.
pub proof fn law_counters_balance(s: Seq<AllocationRecord>, n_tracked: u64, freed: u64, r: AllocationRecord, addr: u64)
    requires
        n_tracked == freed + s.len(),
        n_tracked < u64::MAX,
    ensures
        wrap_inc(n_tracked) == freed + s.push(r).len(),
        record_index(s, addr, 0) < s.len() ==> n_tracked == wrap_inc(freed)
            + s.update(record_index(s, addr, 0), s.last()).drop_last().len(),
{
    lemma_record_index(s, addr, 0);
}


/// No module appears twice.
pub open spec fn modules_distinct(g: Seq<ModuleStats>) -> bool {
    forall|a: int, b: int| 0 <= a < b < g.len() ==> #[trigger] g[a].module@ != #[trigger] g[b].module@
}

/// Totals from the largest down.
pub open spec fn bytes_descending(g: Seq<ModuleStats>) -> bool {
    forall|a: int, b: int| 0 <= a < b < g.len() ==> #[trigger] g[a].total_bytes >= #[trigger] g[b].total_bytes
}

proof fn lemma_stat_index_absent(g: Seq<ModuleStats>, m: Seq<char>, j: int)
    requires
        0 <= j <= g.len(),
        stat_index(g, m, j) == g.len(),
    ensures
        forall|k: int| j <= k < g.len() ==> #[trigger] g[k].module@ != m,
    decreases g.len() - j,
{
    if j < g.len() {
        lemma_stat_index_absent(g, m, j + 1);
    }
}

proof fn lemma_stat_index_found(g: Seq<ModuleStats>, m: Seq<char>, j: int)
    requires
        0 <= j <= g.len(),
    ensures
        stat_index(g, m, j) < g.len() ==> g[stat_index(g, m, j)].module@ == m,
    decreases g.len() - j,
{
    if j < g.len() && g[j].module@ != m {
        lemma_stat_index_found(g, m, j + 1);
    }
}

proof fn lemma_group_distinct(s: Seq<AllocationRecord>)
    ensures
        modules_distinct(group_stats(s)),
    decreases s.len(),
{
    if s.len() > 0 {
        lemma_group_distinct(s.drop_last());
        let g = group_stats(s.drop_last());
        let r = s.last();
        lemma_stat_index(g, r.module@, 0);
        let i = stat_index(g, r.module@, 0);
        if i < g.len() {
            lemma_stat_index_found(g, r.module@, 0);
            let t = group_stats(s);
            assert forall|a: int, b: int| 0 <= a < b < t.len() implies #[trigger] t[a].module@ != #[trigger] t[b].module@ by {
                assert(t[a].module == g[a].module && t[b].module == g[b].module);
            }
        } else {
            lemma_stat_index_absent(g, r.module@, 0);
            let t = group_stats(s);
            assert forall|a: int, b: int| 0 <= a < b < t.len() implies #[trigger] t[a].module@ != #[trigger] t[b].module@ by {
                if b == g.len() {
                    assert(g[a].module@ != r.module@);
                }
            }
        }
    }
}

proof fn lemma_first_smaller_split(g: Seq<ModuleStats>, b: usize, j: int)
    requires
        0 <= j <= g.len(),
    ensures
        forall|k: int| j <= k < first_smaller(g, b, j) ==> #[trigger] g[k].total_bytes >= b,
        first_smaller(g, b, j) < g.len() ==> g[first_smaller(g, b, j)].total_bytes < b,
    decreases g.len() - j,
{
    if j < g.len() && g[j].total_bytes >= b {
        lemma_first_smaller_split(g, b, j + 1);
    }
}

proof fn lemma_sort_props(g: Seq<ModuleStats>)
    ensures
        bytes_descending(sort_by_bytes(g)),
        sort_by_bytes(g).to_multiset() == g.to_multiset(),
    decreases g.len(),
{
    broadcast use vstd::seq_lib::to_multiset_insert, vstd::seq_lib::to_multiset_build;
    if g.len() == 0 {
        assert(sort_by_bytes(g) == g);
    } else {
        lemma_sort_props(g.drop_last());
        let r = sort_by_bytes(g.drop_last());
        let x = g.last();
        lemma_first_smaller(r, x.total_bytes, 0);
        lemma_first_smaller_split(r, x.total_bytes, 0);
        let p = first_smaller(r, x.total_bytes, 0);
        let t = r.insert(p, x);
        assert(t == sort_by_bytes(g));
        assert forall|a: int, b: int| 0 <= a < b < t.len() implies #[trigger] t[a].total_bytes >= #[trigger] t[b].total_bytes by {
            if a < p && b < p {
                assert(t[a] == r[a] && t[b] == r[b]);
            } else if a < p && b == p {
                assert(t[a] == r[a]);
            } else if a < p {
                assert(t[a] == r[a] && t[b] == r[b - 1]);
            } else if a == p {
                assert(t[b] == r[b - 1]);
                assert(r[p].total_bytes < x.total_bytes);
                if b - 1 > p {
                    assert(r[p].total_bytes >= r[b - 1].total_bytes);
                }
            } else {
                assert(t[a] == r[a - 1] && t[b] == r[b - 1]);
            }
        }
        assert(g.drop_last().push(x) =~= g);
    }
}

/// The module summary holds each module once: the per-module totals name
/// every module once, and ordering them by bytes, largest first, keeps
/// exactly those entries.
pub proof fn law_module_summary(s: Seq<AllocationRecord>)
    ensures
        modules_distinct(group_stats(s)),
        sort_by_bytes(group_stats(s)).to_multiset() == group_stats(s).to_multiset(),
        bytes_descending(sort_by_bytes(group_stats(s))),
{
    lemma_group_distinct(s);
    lemma_sort_props(group_stats(s));
}

} // verus!
