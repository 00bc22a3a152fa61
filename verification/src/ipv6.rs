//! IPv6 addressing, header and ICMPv6 encoding and decoding, neighbor
//! discovery cache and longest-prefix-match routing.
use vstd::prelude::*;
use vstd::string::*;
use crate::libc::{wrap_inc, inc_wrapping};
use crate::text::{string_of, push_dec, dec, hex, u64_to_hex, push_padded, pad_right, push_char, digit_char, pieces, pieces_from, split_char};

verus! {

/// A 128-bit IPv6 address.
#[derive(Clone, Copy, Debug, PartialEq, Eq)]
pub struct Ipv6Addr {
    pub octets: [u8; 16],
}

/// The octets of the loopback address `::1`.
pub open spec fn loopback_octets() -> Seq<u8> {
    Seq::new(16, |i: int| if i == 15 { 1u8 } else { 0u8 })
}

/// The sixteen octets of eight 16-bit segments, high byte first.
pub open spec fn segs_to_octets(s: Seq<u16>) -> Seq<u8> {
    Seq::new(16, |k: int| if k % 2 == 0 { (s[k / 2] / 256) as u8 } else { (s[k / 2] % 256) as u8 })
}

/// The eight 16-bit segments of sixteen octets.
pub open spec fn octets_to_segs(o: Seq<u8>) -> Seq<u16> {
    Seq::new(8, |i: int| (o[2 * i] * 256 + o[2 * i + 1]) as u16)
}

/// Whether two addresses are the same.
pub fn addr_eq(a: &Ipv6Addr, b: &Ipv6Addr) -> (r: bool)
    ensures
        r == (a.octets@ == b.octets@),
{
    let mut i: usize = 0;
    while i < 16
        invariant
            i <= 16,
            forall|j: int| 0 <= j < i ==> a.octets@[j] == b.octets@[j],
        decreases 16 - i,
    {
        if a.octets[i] != b.octets[i] {
            return false;
        }
        i = i + 1;
    }
    assert(a.octets@ =~= b.octets@);
    true
}

impl Ipv6Addr {
    /// An address from raw octets.
    pub fn new(octets: [u8; 16]) -> (r: Self)
        ensures
            r.octets == octets,
    {
        Ipv6Addr { octets }
    }

    /// The unspecified address `::`.
    pub fn unspecified() -> (r: Self)
        ensures
            r.octets@ == Seq::new(16, |i: int| 0u8),
    {
        let r = Ipv6Addr { octets: [0u8; 16] };
        assert(r.octets@ =~= Seq::new(16, |i: int| 0u8));
        r
    }

    /// The loopback address `::1`.
    pub fn loopback() -> (r: Self)
        ensures
            r.octets@ == loopback_octets(),
    {
        let r = Ipv6Addr { octets: [0, 0, 0, 0, 0, 0, 0, 0, 0, 0, 0, 0, 0, 0, 0, 1] };
        assert(r.octets@ =~= loopback_octets());
        r
    }

    /// An address from eight 16-bit segments.
    pub fn from_segments(segs: [u16; 8]) -> (r: Self)
        ensures
            r.octets@ == segs_to_octets(segs@),
    {
        let mut octets = [0u8; 16];
        let mut i: usize = 0;
        while i < 8
            invariant
                i <= 8,
                octets@.len() == 16,
                forall|k: int| 0 <= k < 2 * i ==> #[trigger] octets@[k] == segs_to_octets(segs@)[k],
            decreases 8 - i,
        {
            let seg = segs[i];
            octets[2 * i] = (seg / 256) as u8;
            octets[2 * i + 1] = (seg % 256) as u8;
            i = i + 1;
        }
        assert(octets@ =~= segs_to_octets(segs@));
        Ipv6Addr { octets }
    }

    /// The eight 16-bit segments, high byte first.
    pub fn segments(&self) -> (r: [u16; 8])
        ensures
            r@ == octets_to_segs(self.octets@),
    {
        let mut segs = [0u16; 8];
        let mut i: usize = 0;
        while i < 8
            invariant
                i <= 8,
                segs@.len() == 8,
                forall|k: int| 0 <= k < i ==> #[trigger] segs@[k] == octets_to_segs(self.octets@)[k],
            decreases 8 - i,
        {
            segs[i] = (self.octets[2 * i] as u16) * 256 + (self.octets[2 * i + 1] as u16);
            i = i + 1;
        }
        assert(segs@ =~= octets_to_segs(self.octets@));
        segs
    }

    /// Whether this is the loopback address `::1`.
    pub fn is_loopback(&self) -> (r: bool)
        ensures
            r == (self.octets@ == loopback_octets()),
    {
        let lo = Ipv6Addr::loopback();
        addr_eq(self, &lo)
    }

    /// Whether this is a link-local address (`fe80::/10`).
    pub fn is_link_local(&self) -> (r: bool)
        ensures
            r == (self.octets@[0] == 0xfe && (self.octets@[1] & 0xc0) == 0x80),
    {
        self.octets[0] == 0xfe && (self.octets[1] & 0xc0) == 0x80
    }

    /// Whether this is a multicast address (`ff00::/8`).
    pub fn is_multicast(&self) -> (r: bool)
        ensures
            r == (self.octets@[0] == 0xff),
    {
        self.octets[0] == 0xff
    }

    /// Whether this is the unspecified address `::`.
    pub fn is_unspecified(&self) -> (r: bool)
        ensures
            r == (self.octets@ == Seq::new(16, |i: int| 0u8)),
    {
        let z = Ipv6Addr::unspecified();
        addr_eq(self, &z)
    }

    /// The link-local address of a MAC address (EUI-64: `fe80::` followed
    /// by the MAC with its universal/local bit flipped and `ff:fe` in the
    /// middle).
    pub fn from_mac(mac: &[u8; 6]) -> (r: Self)
        ensures
            r.octets@ == seq![0xfeu8, 0x80u8, 0u8, 0u8, 0u8, 0u8, 0u8, 0u8,
                mac@[0] ^ 0x02u8, mac@[1], mac@[2], 0xffu8, 0xfeu8, mac@[3], mac@[4], mac@[5]],
    {
        let mut octets = [0u8; 16];
        octets[0] = 0xfe;
        octets[1] = 0x80;
        octets[8] = mac[0] ^ 0x02;
        octets[9] = mac[1];
        octets[10] = mac[2];
        octets[11] = 0xff;
        octets[12] = 0xfe;
        octets[13] = mac[3];
        octets[14] = mac[4];
        octets[15] = mac[5];
        let r = Ipv6Addr { octets };
        assert(r.octets@ =~= seq![0xfeu8, 0x80u8, 0u8, 0u8, 0u8, 0u8, 0u8, 0u8,
            mac@[0] ^ 0x02u8, mac@[1], mac@[2], 0xffu8, 0xfeu8, mac@[3], mac@[4], mac@[5]]);
        r
    }
}

/// Whether `c` is a hexadecimal digit.
pub open spec fn is_hex_digit(c: char) -> bool {
    ('0' <= c <= '9') || ('a' <= c <= 'f') || ('A' <= c <= 'F')
}

/// The value of a hexadecimal digit.
pub open spec fn hex_digit_value(c: char) -> nat {
    if '0' <= c <= '9' {
        (c as u32 - 48) as nat
    } else if 'a' <= c <= 'f' {
        (c as u32 - 87) as nat
    } else {
        (c as u32 - 55) as nat
    }
}

/// The value of a run of hexadecimal digits.
pub open spec fn hex_value(d: Seq<char>) -> nat
    decreases d.len(),
{
    if d.len() == 0 { 0 } else { hex_value(d.drop_last()) * 16 + hex_digit_value(d.last()) }
}

/// What `parse_hex_u16` gives: one to four hexadecimal digits.
pub open spec fn parse_hex_spec(s: Seq<char>) -> Option<u16> {
    if s.len() == 0 || s.len() > 4 || !(forall|i: int| 0 <= i < s.len() ==> #[trigger] is_hex_digit(s[i])) {
        None
    } else {
        Some(hex_value(s) as u16)
    }
}

/// `16` to the power `k`.
pub open spec fn pow16(k: nat) -> nat
    decreases k,
{
    if k == 0 { 1 } else { 16 * pow16((k - 1) as nat) }
}

proof fn lemma_pow16_mono(i: nat, j: nat)
    requires
        i <= j,
    ensures
        pow16(i) <= pow16(j),
    decreases j - i,
{
    if i < j {
        lemma_pow16_mono(i, (j - 1) as nat);
    }
}

/// Parse one to four hexadecimal digits.
pub fn parse_hex_u16(s: &str) -> (r: Option<u16>)
    ensures
        r == parse_hex_spec(s@),
{
    let n = s.unicode_len();
    if n == 0 || n > 4 {
        return None;
    }
    let mut val: u32 = 0;
    let mut i: usize = 0;
    while i < n
        invariant
            n == s@.len(),
            1 <= n <= 4,
            i <= n,
            forall|j: int| 0 <= j < i ==> #[trigger] is_hex_digit(s@[j]),
            val == hex_value(s@.subrange(0, i as int)),
            val < pow16(i as nat),
        decreases n - i,
    {
        let c = s.get_char(i);
        let d: u32 = if '0' <= c && c <= '9' {
            (c as u32) - 48
        } else if 'a' <= c && c <= 'f' {
            (c as u32) - 87
        } else if 'A' <= c && c <= 'F' {
            (c as u32) - 55
        } else {
            assert(!is_hex_digit(s@[i as int]));
            return None;
        };
        let ghost pre = s@.subrange(0, i + 1);
        assert(pre.drop_last() =~= s@.subrange(0, i as int));
        proof {
            lemma_pow16_mono((i + 1) as nat, 4);
            assert(pow16(4) == 65536) by {
                reveal_with_fuel(pow16, 5);
            }
            let p = pow16(i as nat);
            assert(pow16((i + 1) as nat) == 16 * p);
            assert(val * 16 + d < p * 16) by (nonlinear_arith)
                requires
                    val < p,
                    d < 16,
            ;
        }
        val = val * 16 + d;
        i = i + 1;
    }
    assert(s@.subrange(0, n as int) =~= s@);
    proof {
        lemma_pow16_mono(n as nat, 4);
        assert(pow16(4) == 65536) by {
            reveal_with_fuel(pow16, 5);
        }
    }
    Some(val as u16)
}

// ---------------------------------------------------------------------------
// Text form
// ---------------------------------------------------------------------------

/// The scan for the `::` run: the first longest run of at least two zero
/// segments, as `(start, length)`, or `(8, 0)` when there is none; `cs`,
/// `cl` are the current run and `bs`, `bl` the best so far.
pub open spec fn zero_scan(s: Seq<u16>, i: int, cs: int, cl: int, bs: int, bl: int) -> (int, int)
    decreases s.len() - i,
{
    if i < 0 || i >= s.len() {
        if cl > bl && cl >= 2 { (cs, cl) } else { (bs, bl) }
    } else if s[i] == 0 {
        zero_scan(s, i + 1, if cl == 0 { i } else { cs }, cl + 1, bs, bl)
    } else if cl > bl && cl >= 2 {
        zero_scan(s, i + 1, cs, 0, cs, cl)
    } else {
        zero_scan(s, i + 1, cs, 0, bs, bl)
    }
}

/// The run of zero segments that the text form compresses.
pub open spec fn best_zero_run(s: Seq<u16>) -> (int, int) {
    zero_scan(s, 0, 0, 0, 8, 0)
}

/// Segments in lower-case hex, separated by `:`.
pub open spec fn hex_join(s: Seq<u16>) -> Seq<char>
    decreases s.len(),
{
    if s.len() == 0 {
        Seq::empty()
    } else if s.len() == 1 {
        hex(s[0] as nat)
    } else {
        hex_join(s.drop_last()) + ":"@ + hex(s.last() as nat)
    }
}

/// The text form of an address: colon-separated hex segments, with the
/// first longest run of two or more zero segments written as `::`.
pub open spec fn addr_text(o: Seq<u8>) -> Seq<char> {
    let s = octets_to_segs(o);
    let r = best_zero_run(s);
    if r.1 == 0 {
        hex_join(s)
    } else {
        hex_join(s.subrange(0, r.0)) + "::"@ + hex_join(s.subrange(r.0 + r.1, 8))
    }
}

fn push_hex_join(out: &mut String, segs: &[u16; 8], from: usize, to: usize)
    requires
        from <= to <= 8,
    ensures
        final(out)@ == old(out)@ + hex_join(segs@.subrange(from as int, to as int)),
{
    let mut i: usize = from;
    while i < to
        invariant
            from <= i <= to,
            to <= 8,
            segs@.len() == 8,
            out@ == old(out)@ + hex_join(segs@.subrange(from as int, i as int)),
        decreases to - i,
    {
        let ghost pre = segs@.subrange(from as int, i + 1);
        assert(pre.drop_last() =~= segs@.subrange(from as int, i as int));
        if i > from {
            out.append(":");
        }
        let h = u64_to_hex(segs[i] as u64);
        out.append(h.as_str());
        i = i + 1;
        assert(out@ =~= old(out)@ + hex_join(pre));
    }
}

impl Ipv6Addr {
    /// The colon-hex text of the address with `::` compression.
    pub fn display(&self) -> (r: String)
        ensures
            r@ == addr_text(self.octets@),
    {
        let segs = self.segments();
        let ghost s = segs@;
        let mut best_start: usize = 8;
        let mut best_len: usize = 0;
        let mut cur_start: usize = 0;
        let mut cur_len: usize = 0;
        let mut i: usize = 0;
        while i < 8
            invariant
                s == segs@,
                s.len() == 8,
                i <= 8,
                cur_len <= i,
                cur_len > 0 ==> cur_start + cur_len == i,
                best_len <= 8,
                best_len > 0 ==> best_start + best_len <= i,
                best_zero_run(s) == zero_scan(s, i as int, cur_start as int, cur_len as int, best_start as int, best_len as int),
            decreases 8 - i,
        {
            if segs[i] == 0 {
                if cur_len == 0 {
                    cur_start = i;
                }
                cur_len = cur_len + 1;
            } else {
                if cur_len > best_len && cur_len >= 2 {
                    best_start = cur_start;
                    best_len = cur_len;
                }
                cur_len = 0;
            }
            i = i + 1;
        }
        if cur_len > best_len && cur_len >= 2 {
            best_start = cur_start;
            best_len = cur_len;
        }
        assert(best_zero_run(s) == (best_start as int, best_len as int));
        let mut out = String::new();
        if best_len == 0 {
            push_hex_join(&mut out, &segs, 0, 8);
            assert(s.subrange(0, 8) =~= s);
        } else {
            push_hex_join(&mut out, &segs, 0, best_start);
            out.append("::");
            push_hex_join(&mut out, &segs, best_start + best_len, 8);
        }
        out
    }
}

/// Position of the first `::` in `s` at or after `j` (the length when none).
pub open spec fn dcolon_pos(s: Seq<char>, j: int) -> int
    decreases s.len() - j,
{
    if j < 0 || j + 1 >= s.len() {
        s.len() as int
    } else if s[j] == ':' && s[j + 1] == ':' {
        j
    } else {
        dcolon_pos(s, j + 1)
    }
}

fn find_dcolon(s: &str) -> (r: usize)
    ensures
        r == dcolon_pos(s@, 0),
        r == s@.len() || r + 1 < s@.len(),
{
    let n = s.unicode_len();
    let mut i: usize = 0;
    while n > 0 && i < n - 1
        invariant
            n == s@.len(),
            i <= n,
            dcolon_pos(s@, 0) == dcolon_pos(s@, i as int),
        decreases n - i,
    {
        if s.get_char(i) == ':' && s.get_char(i + 1) == ':' {
            return i;
        }
        i = i + 1;
    }
    n
}

/// The values of hex groups, when every one of them parses.
pub open spec fn parse_groups(g: Seq<Seq<char>>) -> Option<Seq<u16>>
    decreases g.len(),
{
    if g.len() == 0 {
        Some(Seq::empty())
    } else {
        match (parse_groups(g.drop_last()), parse_hex_spec(g.last())) {
            (Some(v), Some(x)) => Some(v.push(x)),
            _ => None,
        }
    }
}

/// The `:`-separated groups of `s` (none for the empty string).
pub open spec fn groups_of(s: Seq<char>) -> Seq<Seq<char>> {
    if s.len() == 0 { Seq::empty() } else { pieces(s, ':') }
}

/// The segments that an address text denotes: eight groups, or groups
/// around a single `::` that stands for as many zero segments as are
/// missing.
pub open spec fn parse_addr(s: Seq<char>) -> Option<Seq<u16>> {
    if s.len() == 0 {
        None
    } else {
        let k = dcolon_pos(s, 0);
        if k >= s.len() {
            let all = pieces(s, ':');
            if all.len() != 8 { None } else { parse_groups(all) }
        } else {
            let left = s.subrange(0, k);
            let rest = s.subrange(k + 2, s.len() as int);
            if dcolon_pos(rest, 0) < rest.len() {
                None
            } else {
                let lg = groups_of(left);
                let rg = groups_of(rest);
                if lg.len() + rg.len() > 8 {
                    None
                } else {
                    match (parse_groups(lg), parse_groups(rg)) {
                        (Some(a), Some(b)) => Some(a + Seq::new((8 - a.len() - b.len()) as nat, |i: int| 0u16) + b),
                        _ => None,
                    }
                }
            }
        }
    }
}

fn parse_group_list(g: &Vec<String>) -> (r: Option<Vec<u16>>)
    ensures
        match r {
            Some(v) => parse_groups(g@.map_values(|x: String| x@)) == Some(v@),
            None => parse_groups(g@.map_values(|x: String| x@)) is None,
        },
{
    let ghost gs = g@.map_values(|x: String| x@);
    let mut out: Vec<u16> = Vec::new();
    let mut i: usize = 0;
    while i < g.len()
        invariant
            gs == g@.map_values(|x: String| x@),
            i <= g@.len(),
            parse_groups(gs.subrange(0, i as int)) == Some(out@),
        decreases g@.len() - i,
    {
        let ghost pre = gs.subrange(0, i + 1);
        assert(pre.drop_last() =~= gs.subrange(0, i as int));
        assert(pre.last() == g@[i as int]@);
        match parse_hex_u16(g[i].as_str()) {
            Some(v) => {
                out.push(v);
            },
            None => {
                proof {
                    lemma_parse_groups_prefix(gs, i + 1);
                }
                return None;
            },
        }
        i = i + 1;
    }
    assert(gs.subrange(0, g@.len() as int) =~= gs);
    Some(out)
}

proof fn lemma_parse_groups_prefix(g: Seq<Seq<char>>, k: int)
    requires
        0 <= k <= g.len(),
        parse_groups(g.subrange(0, k)) is None,
    ensures
        parse_groups(g) is None,
    decreases g.len() - k,
{
    if k < g.len() {
        let pre = g.subrange(0, k + 1);
        assert(pre.drop_last() =~= g.subrange(0, k));
        lemma_parse_groups_prefix(g, k + 1);
    } else {
        assert(g.subrange(0, k) =~= g);
    }
}

proof fn lemma_parse_groups_len(g: Seq<Seq<char>>)
    requires
        parse_groups(g) is Some,
    ensures
        parse_groups(g)->Some_0.len() == g.len(),
    decreases g.len(),
{
    if g.len() > 0 {
        lemma_parse_groups_len(g.drop_last());
    }
}

fn groups(s: &str) -> (r: Vec<String>)
    ensures
        r@.map_values(|x: String| x@) == groups_of(s@),
{
    if s.unicode_len() == 0 {
        let r: Vec<String> = Vec::new();
        assert(r@.map_values(|x: String| x@) =~= Seq::<Seq<char>>::empty());
        r
    } else {
        split_char(s, ':')
    }
}

impl Ipv6Addr {
    /// Parse an address such as `2001:db8::1`, `::1` or `fe80::1`.
    pub fn from_str(s: &str) -> (r: Option<Self>)
        ensures
            match r {
                Some(a) => parse_addr(s@) matches Some(g) && a.octets@ == segs_to_octets(g),
                None => parse_addr(s@) is None,
            },
    {
        let n = s.unicode_len();
        if n == 0 {
            return None;
        }
        let k = find_dcolon(s);
        if k >= n {
            let all = split_char(s, ':');
            if all.len() != 8 {
                return None;
            }
            let vals = match parse_group_list(&all) {
                Some(v) => v,
                None => return None,
            };
            proof {
                lemma_parse_groups_len(all@.map_values(|x: String| x@));
            }
            let mut segs = [0u16; 8];
            let mut i: usize = 0;
            while i < 8
                invariant
                    vals@.len() == 8,
                    segs@.len() == 8,
                    i <= 8,
                    forall|j: int| 0 <= j < i ==> #[trigger] segs@[j] == vals@[j],
                decreases 8 - i,
            {
                segs[i] = vals[i];
                i = i + 1;
            }
            assert(segs@ =~= vals@);
            return Some(Ipv6Addr::from_segments(segs));
        }
        let left = s.substring_char(0, k);
        let rest = s.substring_char(k + 2, n);
        if find_dcolon(rest) < rest.unicode_len() {
            return None;
        }
        let lg = groups(left);
        let rg = groups(rest);
        if lg.len() > 8 || rg.len() > 8 - lg.len() {
            return None;
        }
        let a = match parse_group_list(&lg) {
            Some(v) => v,
            None => return None,
        };
        let b = match parse_group_list(&rg) {
            Some(v) => v,
            None => return None,
        };
        proof {
            lemma_parse_groups_len(lg@.map_values(|x: String| x@));
            lemma_parse_groups_len(rg@.map_values(|x: String| x@));
        }
        let la = a.len();
        let lb = b.len();
        let mut segs = [0u16; 8];
        let mut i: usize = 0;
        while i < la
            invariant
                la == a@.len(),
                la + lb <= 8,
                segs@.len() == 8,
                i <= la,
                forall|j: int| 0 <= j < i ==> #[trigger] segs@[j] == a@[j],
                forall|j: int| i <= j < 8 ==> #[trigger] segs@[j] == 0,
            decreases la - i,
        {
            segs[i] = a[i];
            i = i + 1;
        }
        let mut j: usize = 0;
        while j < lb
            invariant
                la == a@.len(),
                lb == b@.len(),
                la + lb <= 8,
                segs@.len() == 8,
                j <= lb,
                forall|x: int| 0 <= x < la ==> #[trigger] segs@[x] == a@[x],
                forall|x: int| la <= x < 8 - lb ==> #[trigger] segs@[x] == 0,
                forall|x: int| 8 - lb <= x < 8 - lb + j ==> #[trigger] segs@[x] == b@[x - (8 - lb)],
                forall|x: int| 8 - lb + j <= x < 8 ==> #[trigger] segs@[x] == 0,
            decreases lb - j,
        {
            segs[8 - lb + j] = b[j];
            j = j + 1;
        }
        assert(segs@ =~= a@ + Seq::new((8 - a@.len() - b@.len()) as nat, |i: int| 0u16) + b@);
        Some(Ipv6Addr::from_segments(segs))
    }
}

// ---------------------------------------------------------------------------
// Header
// ---------------------------------------------------------------------------

/// A parsed IPv6 header (40 bytes on the wire).
#[derive(Clone, Copy, Debug)]
pub struct Ipv6Header {
    pub version: u8,
    pub traffic_class: u8,
    /// 20 bits.
    pub flow_label: u32,
    pub payload_length: u16,
    /// 58 = ICMPv6, 6 = TCP, 17 = UDP.
    pub next_header: u8,
    pub hop_limit: u8,
    pub src: Ipv6Addr,
    pub dst: Ipv6Addr,
}

/// The 40 header bytes: version 6, traffic class and flow label 0, the
/// payload length big-endian, next header, hop limit, then the addresses.
pub open spec fn header_bytes(src: Seq<u8>, dst: Seq<u8>, next_header: u8, payload_len: u16, hop_limit: u8) -> Seq<u8> {
    seq![0x60u8, 0u8, 0u8, 0u8, (payload_len / 256) as u8, (payload_len % 256) as u8, next_header, hop_limit] + src + dst
}

fn push_octets(buf: &mut Vec<u8>, a: &Ipv6Addr)
    ensures
        final(buf)@ == old(buf)@ + a.octets@,
{
    let mut i: usize = 0;
    while i < 16
        invariant
            i <= 16,
            buf@ == old(buf)@ + a.octets@.subrange(0, i as int),
        decreases 16 - i,
    {
        buf.push(a.octets[i]);
        i = i + 1;
        assert(buf@ =~= old(buf)@ + a.octets@.subrange(0, i as int));
    }
    assert(a.octets@.subrange(0, 16) =~= a.octets@);
}

/// The 40-byte header for a packet.
pub fn build_header(src: Ipv6Addr, dst: Ipv6Addr, next_header: u8, payload_len: u16, hop_limit: u8) -> (buf: Vec<u8>)
    ensures
        buf@ == header_bytes(src.octets@, dst.octets@, next_header, payload_len, hop_limit),
{
    let mut buf: Vec<u8> = Vec::new();
    buf.push(0x60);
    buf.push(0x00);
    buf.push(0x00);
    buf.push(0x00);
    buf.push((payload_len / 256) as u8);
    buf.push((payload_len % 256) as u8);
    buf.push(next_header);
    buf.push(hop_limit);
    let ghost h = buf@;
    push_octets(&mut buf, &src);
    push_octets(&mut buf, &dst);
    assert(h =~= seq![0x60u8, 0u8, 0u8, 0u8, (payload_len / 256) as u8, (payload_len % 256) as u8, next_header, hop_limit]);
    buf
}

/// Sixteen bytes of `d` from `at` as an address.
pub open spec fn octets_at(d: Seq<u8>, at: int) -> Seq<u8> {
    d.subrange(at, at + 16)
}

fn addr_at(data: &[u8], at: usize) -> (a: Ipv6Addr)
    requires
        at <= 24,
        at + 16 <= data@.len(),
    ensures
        a.octets@ == octets_at(data@, at as int),
{
    let mut octets = [0u8; 16];
    let mut i: usize = 0;
    while i < 16
        invariant
            at <= 24,
            at + 16 <= data@.len(),
            octets@.len() == 16,
            i <= 16,
            forall|k: int| 0 <= k < i ==> #[trigger] octets@[k] == data@[at + k],
        decreases 16 - i,
    {
        octets[i] = data[at + i];
        i = i + 1;
    }
    assert(octets@ =~= octets_at(data@, at as int));
    Ipv6Addr { octets }
}

/// Whether `h` holds the fields of the header at the start of `d`.
pub open spec fn header_of(d: Seq<u8>, h: Ipv6Header) -> bool {
    &&& h.version == d[0] / 16
    &&& h.traffic_class == (d[0] % 16) * 16 + d[1] / 16
    &&& h.flow_label == (d[1] % 16) * 65536 + d[2] * 256 + d[3]
    &&& h.payload_length == d[4] * 256 + d[5]
    &&& h.next_header == d[6]
    &&& h.hop_limit == d[7]
    &&& h.src.octets@ == octets_at(d, 8)
    &&& h.dst.octets@ == octets_at(d, 24)
}

/// Parse the header at the start of `data`; the payload is the
/// `payload_length` bytes after it, or all that is there when fewer.
pub fn parse_header(data: &[u8]) -> (r: Result<(Ipv6Header, &[u8]), &'static str>)
    ensures
        data@.len() < 40 ==> (r matches Err(e) && e@ == "ipv6: packet too short for header"@),
        data@.len() >= 40 && data@[0] / 16 != 6 ==> (r matches Err(e) && e@ == "ipv6: version is not 6"@),
        data@.len() >= 40 && data@[0] / 16 == 6 ==> (r matches Ok((h, p)) && header_of(data@, h)
            && p@ == data@.subrange(40, if data@.len() >= 40 + h.payload_length { 40 + h.payload_length } else { data@.len() as int })),
{
    if data.len() < 40 {
        return Err("ipv6: packet too short for header");
    }
    let version = data[0] / 16;
    if version != 6 {
        return Err("ipv6: version is not 6");
    }
    let traffic_class = (data[0] % 16) * 16 + data[1] / 16;
    let flow_label = ((data[1] % 16) as u32) * 65536 + (data[2] as u32) * 256 + (data[3] as u32);
    let payload_length = (data[4] as u16) * 256 + (data[5] as u16);
    let header = Ipv6Header {
        version,
        traffic_class,
        flow_label,
        payload_length,
        next_header: data[6],
        hop_limit: data[7],
        src: addr_at(data, 8),
        dst: addr_at(data, 24),
    };
    let payload_end: usize = 40 + payload_length as usize;
    let payload = if data.len() >= payload_end { &data[40..payload_end] } else { &data[40..data.len()] };
    Ok((header, payload))
}

// ---------------------------------------------------------------------------
// ICMPv6
// ---------------------------------------------------------------------------

pub const ICMPV6_ECHO_REQUEST: u8 = 128;
pub const ICMPV6_ECHO_REPLY: u8 = 129;
pub const ICMPV6_ROUTER_SOLICIT: u8 = 133;
pub const ICMPV6_ROUTER_ADVERT: u8 = 134;
pub const ICMPV6_NEIGHBOR_SOLICIT: u8 = 135;
pub const ICMPV6_NEIGHBOR_ADVERT: u8 = 136;

/// The bytes of `d` from `at` on.
pub open spec fn bytes_from(d: Seq<u8>, at: int) -> Seq<u8> {
    d.subrange(at, d.len() as int)
}

/// The big-endian 16-bit value of two bytes.
pub open spec fn be16(hi: u8, lo: u8) -> u16 {
    (hi * 256 + lo) as u16
}

fn be16_of(hi: u8, lo: u8) -> (r: u16)
    ensures
        r == be16(hi, lo),
{
    (hi as u16) * 256 + (lo as u16)
}

/// A parsed ICMPv6 message.
pub enum IcmpV6Message {
    EchoRequest { id: u16, seq: u16, data: Vec<u8> },
    EchoReply { id: u16, seq: u16, data: Vec<u8> },
    NeighborSolicit { target: Ipv6Addr },
    NeighborAdvert { target: Ipv6Addr },
    RouterSolicit,
    RouterAdvert,
    Unknown { msg_type: u8, code: u8 },
}

/// Sum of the big-endian 16-bit words of `d` from `i` on, skipping the
/// checksum field (bytes 2 and 3); a trailing odd byte is the high byte
/// of a word.
pub open spec fn word_sum(d: Seq<u8>, i: int) -> nat
    decreases d.len() - i,
{
    if i < 0 || i >= d.len() {
        0
    } else if i + 1 >= d.len() {
        (d[i] * 256) as nat
    } else if i == 2 {
        word_sum(d, i + 2)
    } else {
        (d[i] * 256 + d[i + 1]) as nat + word_sum(d, i + 2)
    }
}

/// End-around carry folding down to 16 bits.
pub open spec fn fold_carries(s: nat) -> nat
    decreases s,
{
    if s < 65536 {
        s
    } else {
        proof {
            assert(s % 65536 + s / 65536 < s) by (nonlinear_arith)
                requires
                    s >= 65536,
            ;
        }
        fold_carries(s % 65536 + s / 65536)
    }
}

/// The one's-complement checksum of an ICMPv6 body (without pseudo-header).
pub open spec fn checksum_of(d: Seq<u8>) -> u16 {
    (65535 - fold_carries(word_sum(d, 0))) as u16
}

proof fn lemma_word_sum_bound(d: Seq<u8>, i: int)
    requires
        0 <= i,
    ensures
        word_sum(d, i) <= 65536 * (if d.len() > i { d.len() - i } else { 0 }),
    decreases d.len() - i,
{
    if i < d.len() && i + 1 < d.len() {
        lemma_word_sum_bound(d, i + 2);
    }
}

proof fn lemma_fold_bound(s: nat)
    ensures
        fold_carries(s) < 65536,
    decreases s,
{
    if s >= 65536 {
        assert(s % 65536 + s / 65536 < s) by (nonlinear_arith)
            requires
                s >= 65536,
        ;
        lemma_fold_bound(s % 65536 + s / 65536);
    }
}

/// The ICMPv6 checksum of a message.
fn ones_checksum(data: &[u8]) -> (r: u16)
    requires
        data@.len() <= 32768,
    ensures
        r == checksum_of(data@),
{
    let n = data.len();
    let mut sum: u32 = 0;
    let mut i: usize = 0;
    proof {
        lemma_word_sum_bound(data@, 0);
    }
    while i + 1 < n
        invariant
            n == data@.len(),
            n <= 32768,
            i <= n,
            i % 2 == 0,
            sum + word_sum(data@, i as int) == word_sum(data@, 0),
            word_sum(data@, 0) <= 65536 * 32768,
        decreases n - i,
    {
        if i == 2 {
            i = i + 2;
        } else {
            proof {
                lemma_word_sum_bound(data@, i + 2);
            }
            sum = sum + (data[i] as u32) * 256 + (data[i + 1] as u32);
            i = i + 2;
        }
    }
    if i < n {
        sum = sum + (data[i] as u32) * 256;
    }
    assert(sum == word_sum(data@, 0));
    while sum >= 65536
        invariant
            fold_carries(sum as nat) == fold_carries(word_sum(data@, 0)),
        decreases sum,
    {
        sum = (sum % 65536) + (sum / 65536);
    }
    proof {
        lemma_fold_bound(word_sum(data@, 0));
    }
    (65535 - sum) as u16
}

/// The 8-byte echo request: type 128, code 0, checksum, id, sequence.
pub open spec fn echo_request_bytes(id: u16, seq: u16) -> Seq<u8> {
    let body = seq![ICMPV6_ECHO_REQUEST, 0u8, 0u8, 0u8, (id / 256) as u8, (id % 256) as u8, (seq / 256) as u8, (seq % 256) as u8];
    let c = checksum_of(body);
    body.update(2, (c / 256) as u8).update(3, (c % 256) as u8)
}

/// An ICMPv6 echo request (ping) for `id` and `seq`.
pub fn build_echo_request(id: u16, seq: u16) -> (buf: Vec<u8>)
    ensures
        buf@ == echo_request_bytes(id, seq),
{
    let mut buf: Vec<u8> = Vec::new();
    buf.push(ICMPV6_ECHO_REQUEST);
    buf.push(0);
    buf.push(0);
    buf.push(0);
    buf.push((id / 256) as u8);
    buf.push((id % 256) as u8);
    buf.push((seq / 256) as u8);
    buf.push((seq % 256) as u8);
    let ghost body = buf@;
    assert(body =~= seq![ICMPV6_ECHO_REQUEST, 0u8, 0u8, 0u8, (id / 256) as u8, (id % 256) as u8, (seq / 256) as u8, (seq % 256) as u8]);
    let cksum = ones_checksum(buf.as_slice());
    buf.set(2, (cksum / 256) as u8);
    buf.set(3, (cksum % 256) as u8);
    buf
}

/// The 24-byte neighbor solicitation for `target`.
pub open spec fn neighbor_solicit_bytes(target: Seq<u8>) -> Seq<u8> {
    let body = seq![ICMPV6_NEIGHBOR_SOLICIT, 0u8, 0u8, 0u8, 0u8, 0u8, 0u8, 0u8] + target;
    let c = checksum_of(body);
    body.update(2, (c / 256) as u8).update(3, (c % 256) as u8)
}

/// An ICMPv6 neighbor solicitation for `target`.
pub fn build_neighbor_solicit(target: Ipv6Addr) -> (buf: Vec<u8>)
    ensures
        buf@ == neighbor_solicit_bytes(target.octets@),
{
    let mut buf: Vec<u8> = Vec::new();
    buf.push(ICMPV6_NEIGHBOR_SOLICIT);
    buf.push(0);
    buf.push(0);
    buf.push(0);
    buf.push(0);
    buf.push(0);
    buf.push(0);
    buf.push(0);
    let ghost head = buf@;
    push_octets(&mut buf, &target);
    assert(head =~= seq![ICMPV6_NEIGHBOR_SOLICIT, 0u8, 0u8, 0u8, 0u8, 0u8, 0u8, 0u8]);
    let cksum = ones_checksum(buf.as_slice());
    buf.set(2, (cksum / 256) as u8);
    buf.set(3, (cksum % 256) as u8);
    buf
}

/// Whether `m` is what `parse_icmpv6` makes of `d` (which holds at least
/// four bytes, and eight for an echo and 24 for a neighbor message).
pub open spec fn message_of(d: Seq<u8>, m: IcmpV6Message) -> bool {
    let t = d[0];
    if t == ICMPV6_ECHO_REQUEST || t == ICMPV6_ECHO_REPLY {
        let id = be16(d[4], d[5]);
        let sq = be16(d[6], d[7]);
        let rest = bytes_from(d, 8);
        if t == ICMPV6_ECHO_REQUEST {
            m matches IcmpV6Message::EchoRequest { id: a, seq: b, data: p } && a == id && b == sq && p@ == rest
        } else {
            m matches IcmpV6Message::EchoReply { id: a, seq: b, data: p } && a == id && b == sq && p@ == rest
        }
    } else if t == ICMPV6_NEIGHBOR_SOLICIT {
        m matches IcmpV6Message::NeighborSolicit { target } && target.octets@ == octets_at(d, 8)
    } else if t == ICMPV6_NEIGHBOR_ADVERT {
        m matches IcmpV6Message::NeighborAdvert { target } && target.octets@ == octets_at(d, 8)
    } else if t == ICMPV6_ROUTER_SOLICIT {
        m is RouterSolicit
    } else if t == ICMPV6_ROUTER_ADVERT {
        m is RouterAdvert
    } else {
        m matches IcmpV6Message::Unknown { msg_type, code } && msg_type == t && code == d[1]
    }
}

/// The error `parse_icmpv6` reports for `d`, if any.
pub open spec fn message_error(d: Seq<u8>) -> Option<Seq<char>> {
    if d.len() < 4 {
        Some("icmpv6: too short"@)
    } else if (d[0] == ICMPV6_ECHO_REQUEST || d[0] == ICMPV6_ECHO_REPLY) && d.len() < 8 {
        Some("icmpv6: echo too short"@)
    } else if d[0] == ICMPV6_NEIGHBOR_SOLICIT && d.len() < 24 {
        Some("icmpv6: neighbor solicit too short"@)
    } else if d[0] == ICMPV6_NEIGHBOR_ADVERT && d.len() < 24 {
        Some("icmpv6: neighbor advert too short"@)
    } else {
        None
    }
}

/// Parse an ICMPv6 message.
pub fn parse_icmpv6(data: &[u8]) -> (r: Result<IcmpV6Message, &'static str>)
    ensures
        match message_error(data@) {
            Some(e) => r matches Err(m) && m@ == e,
            None => r matches Ok(m) && message_of(data@, m),
        },
{
    if data.len() < 4 {
        return Err("icmpv6: too short");
    }
    let msg_type = data[0];
    let code = data[1];
    if msg_type == ICMPV6_ECHO_REQUEST || msg_type == ICMPV6_ECHO_REPLY {
        if data.len() < 8 {
            return Err("icmpv6: echo too short");
        }
        let id = be16_of(data[4], data[5]);
        let seq = be16_of(data[6], data[7]);
        let payload = vstd::slice::slice_to_vec(&data[8..data.len()]);
        if msg_type == ICMPV6_ECHO_REQUEST {
            Ok(IcmpV6Message::EchoRequest { id, seq, data: payload })
        } else {
            Ok(IcmpV6Message::EchoReply { id, seq, data: payload })
        }
    } else if msg_type == ICMPV6_NEIGHBOR_SOLICIT {
        if data.len() < 24 {
            return Err("icmpv6: neighbor solicit too short");
        }
        Ok(IcmpV6Message::NeighborSolicit { target: addr_at(data, 8) })
    } else if msg_type == ICMPV6_NEIGHBOR_ADVERT {
        if data.len() < 24 {
            return Err("icmpv6: neighbor advert too short");
        }
        Ok(IcmpV6Message::NeighborAdvert { target: addr_at(data, 8) })
    } else if msg_type == ICMPV6_ROUTER_SOLICIT {
        Ok(IcmpV6Message::RouterSolicit)
    } else if msg_type == ICMPV6_ROUTER_ADVERT {
        Ok(IcmpV6Message::RouterAdvert)
    } else {
        Ok(IcmpV6Message::Unknown { msg_type, code })
    }
}

// ---------------------------------------------------------------------------
// Neighbor discovery cache
// ---------------------------------------------------------------------------

/// State of a neighbor cache entry.
#[derive(PartialEq, Eq, Structural, Clone, Copy, Debug)]
pub enum NeighborState {
    /// Address resolution in progress: no MAC yet.
    Incomplete,
    Reachable,
    Stale,
    Delay,
    Probe,
}

/// A neighbor cache entry.
#[derive(Clone, Copy, Debug)]
pub struct NeighborEntry {
    pub ipv6: Ipv6Addr,
    pub mac: [u8; 6],
    pub state: NeighborState,
    pub last_seen: u64,
}

pub const MAX_NEIGHBOR_ENTRIES: usize = 64;
pub const MAX_ROUTES: usize = 32;

/// A routing table entry.
pub struct Ipv6Route {
    pub prefix: Ipv6Addr,
    pub prefix_len: u8,
    pub gateway: Ipv6Addr,
    pub interface: String,
}

/// A route as plain values.
pub struct RouteModel {
    pub prefix: Seq<u8>,
    pub prefix_len: u8,
    pub gateway: Seq<u8>,
    pub interface: Seq<char>,
}

impl View for Ipv6Route {
    type V = RouteModel;

    open spec fn view(&self) -> RouteModel {
        RouteModel { prefix: self.prefix.octets@, prefix_len: self.prefix_len, gateway: self.gateway.octets@, interface: self.interface@ }
    }
}

/// The routes of a vector as plain values.
pub open spec fn routes_view(v: Seq<Ipv6Route>) -> Seq<RouteModel> {
    v.map_values(|r: Ipv6Route| r@)
}

/// The IPv6 subsystem state: our address, the neighbor cache, the routing
/// table and the packet counters.
pub struct Ipv6State {
    pub our_addr: Ipv6Addr,
    pub neighbors: Vec<NeighborEntry>,
    pub routes: Vec<Ipv6Route>,
    pub packets_sent: u64,
    pub packets_recv: u64,
    pub pings_sent: u64,
}

impl Ipv6State {
    pub open spec fn routes_view(&self) -> Seq<RouteModel> {
        routes_view(self.routes@)
    }

    /// The tables stay within their limits.
    pub open spec fn wf(&self) -> bool {
        self.neighbors@.len() <= MAX_NEIGHBOR_ENTRIES && self.routes@.len() <= MAX_ROUTES
    }

    /// No address, empty tables, counters at zero.
    pub fn new() -> (s: Self)
        ensures
            s.wf(),
            s.our_addr.octets@ == Seq::new(16, |i: int| 0u8),
            s.neighbors@.len() == 0,
            s.routes@.len() == 0,
            s.packets_sent == 0 && s.packets_recv == 0 && s.pings_sent == 0,
    {
        Ipv6State {
            our_addr: Ipv6Addr::unspecified(),
            neighbors: Vec::new(),
            routes: Vec::new(),
            packets_sent: 0,
            packets_recv: 0,
            pings_sent: 0,
        }
    }
}

/// Index of the first cache entry from `j` on for `addr` (only resolved
/// ones when `resolved_only`), or the length when none.
pub open spec fn neighbor_index(t: Seq<NeighborEntry>, addr: Seq<u8>, resolved_only: bool, j: int) -> int
    decreases t.len() - j,
{
    if j < 0 || j >= t.len() {
        t.len() as int
    } else if t[j].ipv6.octets@ == addr && (!resolved_only || t[j].state != NeighborState::Incomplete) {
        j
    } else {
        neighbor_index(t, addr, resolved_only, j + 1)
    }
}

fn find_neighbor(st: &Ipv6State, addr: &Ipv6Addr, resolved_only: bool) -> (r: usize)
    ensures
        r == neighbor_index(st.neighbors@, addr.octets@, resolved_only, 0),
        r <= st.neighbors@.len(),
{
    let n = st.neighbors.len();
    let mut i: usize = 0;
    while i < n
        invariant
            n == st.neighbors@.len(),
            i <= n,
            neighbor_index(st.neighbors@, addr.octets@, resolved_only, 0)
                == neighbor_index(st.neighbors@, addr.octets@, resolved_only, i as int),
        decreases n - i,
    {
        let e = &st.neighbors[i];
        if addr_eq(&e.ipv6, addr) && (!resolved_only || e.state != NeighborState::Incomplete) {
            return i;
        }
        i = i + 1;
    }
    n
}

/// The MAC address of a resolved neighbor.
pub fn ndp_lookup(st: &Ipv6State, addr: &Ipv6Addr) -> (r: Option<[u8; 6]>)
    ensures
        ({
            let i = neighbor_index(st.neighbors@, addr.octets@, true, 0);
            r == if i < st.neighbors@.len() { Some(st.neighbors@[i].mac) } else { None }
        }),
{
    let i = find_neighbor(st, addr, true);
    if i < st.neighbors.len() {
        Some(st.neighbors[i].mac)
    } else {
        None
    }
}

/// Record that `ipv6` is reachable at `mac` at tick `now`: the first entry
/// for the address is refreshed, or a new entry is added while the cache
/// has room.
pub fn ndp_add(st: &mut Ipv6State, ipv6: Ipv6Addr, mac: [u8; 6], now: u64)
    requires
        old(st).wf(),
    ensures
        final(st).wf(),
        final(st).our_addr == old(st).our_addr,
        final(st).routes@ == old(st).routes@,
        final(st).packets_sent == old(st).packets_sent,
        final(st).packets_recv == old(st).packets_recv,
        final(st).pings_sent == old(st).pings_sent,
        ({
            let t = old(st).neighbors@;
            let i = neighbor_index(t, ipv6.octets@, false, 0);
            let e = NeighborEntry { ipv6: t[i].ipv6, mac, state: NeighborState::Reachable, last_seen: now };
            if i < t.len() {
                final(st).neighbors@ == t.update(i, e)
            } else if t.len() < MAX_NEIGHBOR_ENTRIES {
                final(st).neighbors@ == t.push(NeighborEntry { ipv6, mac, state: NeighborState::Reachable, last_seen: now })
            } else {
                final(st).neighbors@ == t
            }
        }),
{
    let i = find_neighbor(st, &ipv6, false);
    if i < st.neighbors.len() {
        let old_e = st.neighbors[i];
        st.neighbors.set(i, NeighborEntry { ipv6: old_e.ipv6, mac, state: NeighborState::Reachable, last_seen: now });
        return;
    }
    if st.neighbors.len() < MAX_NEIGHBOR_ENTRIES {
        st.neighbors.push(NeighborEntry { ipv6, mac, state: NeighborState::Reachable, last_seen: now });
    }
}

/// Two lower-case hex digits of a byte.
pub open spec fn hex2(b: u8) -> Seq<char> {
    seq![digit_char((b / 16) as nat), digit_char((b % 16) as nat)]
}

/// A MAC address as `xx:xx:xx:xx:xx:xx`.
pub open spec fn mac_text(m: Seq<u8>) -> Seq<char> {
    hex2(m[0]) + ":"@ + hex2(m[1]) + ":"@ + hex2(m[2]) + ":"@ + hex2(m[3]) + ":"@ + hex2(m[4]) + ":"@ + hex2(m[5])
}

fn push_hex2(out: &mut String, b: u8)
    ensures
        final(out)@ == old(out)@ + hex2(b),
{
    let hi = b / 16;
    let lo = b % 16;
    let c1: char = if hi < 10 { (hi + 48) as char } else { (hi + 87) as char };
    let c2: char = if lo < 10 { (lo + 48) as char } else { (lo + 87) as char };
    assert(c1 == digit_char(hi as nat));
    assert(c2 == digit_char(lo as nat));
    push_char(out, c1);
    push_char(out, c2);
    assert(final(out)@ =~= old(out)@ + hex2(b));
}

fn push_mac(out: &mut String, m: &[u8; 6])
    ensures
        final(out)@ == old(out)@ + mac_text(m@),
{
    push_hex2(out, m[0]);
    out.append(":");
    push_hex2(out, m[1]);
    out.append(":");
    push_hex2(out, m[2]);
    out.append(":");
    push_hex2(out, m[3]);
    out.append(":");
    push_hex2(out, m[4]);
    out.append(":");
    push_hex2(out, m[5]);
    assert(final(out)@ =~= old(out)@ + mac_text(m@));
}

/// The state column of the neighbor table.
pub open spec fn neighbor_state_text(s: NeighborState) -> Seq<char> {
    match s {
        NeighborState::Incomplete => "INCOMPLETE"@,
        NeighborState::Reachable => "REACHABLE "@,
        NeighborState::Stale => "STALE     "@,
        NeighborState::Delay => "DELAY     "@,
        NeighborState::Probe => "PROBE     "@,
    }
}

/// `now - then`, wrapping.
pub open spec fn wrap_sub(now: u64, then: u64) -> u64 {
    if now >= then { (now - then) as u64 } else { (now + 18446744073709551616 - then) as u64 }
}

/// One row of the neighbor table at tick `now`.
pub open spec fn neighbor_row(e: NeighborEntry, now: u64) -> Seq<char> {
    pad_right(addr_text(e.ipv6.octets@), 40) + " "@ + mac_text(e.mac@) + " "@ + neighbor_state_text(e.state) + " "@
        + dec(wrap_sub(now, e.last_seen) as nat) + "\n"@
}

/// The rows of the neighbor table.
pub open spec fn neighbor_rows(t: Seq<NeighborEntry>, now: u64) -> Seq<char>
    decreases t.len(),
{
    if t.len() == 0 { Seq::empty() } else { neighbor_rows(t.drop_last(), now) + neighbor_row(t.last(), now) }
}

/// The neighbor table as text at tick `now`.
pub open spec fn ndp_table_text(t: Seq<NeighborEntry>, now: u64) -> Seq<char> {
    if t.len() == 0 {
        "(neighbor cache empty)\n"@
    } else {
        "IPv6 Address                             MAC               State       Age\n"@
            + "---------------------------------------- ----------------- ----------- ------\n"@
            + neighbor_rows(t, now)
    }
}

#[verifier::spinoff_prover]
#[verifier::rlimit(60)]
fn push_neighbor_row(out: &mut String, e: &NeighborEntry, now: u64)
    ensures
        final(out)@ == old(out)@ + neighbor_row(*e, now),
{
    let a = e.ipv6.display();
    push_padded(out, a.as_str(), 40);
    out.append(" ");
    push_mac(out, &e.mac);
    out.append(" ");
    match e.state {
        NeighborState::Incomplete => out.append("INCOMPLETE"),
        NeighborState::Reachable => out.append("REACHABLE "),
        NeighborState::Stale => out.append("STALE     "),
        NeighborState::Delay => out.append("DELAY     "),
        NeighborState::Probe => out.append("PROBE     "),
    }
    out.append(" ");
    push_dec(out, now.wrapping_sub(e.last_seen));
    out.append("\n");
    assert(final(out)@ =~= old(out)@ + neighbor_row(*e, now));
}

/// The neighbor cache as a table, with each entry's age at tick `now`.
pub fn ndp_table(st: &Ipv6State, now: u64) -> (out: String)
    ensures
        out@ == ndp_table_text(st.neighbors@, now),
{
    let n = st.neighbors.len();
    if n == 0 {
        return string_of("(neighbor cache empty)\n");
    }
    let mut out = string_of("IPv6 Address                             MAC               State       Age\n");
    out.append("---------------------------------------- ----------------- ----------- ------\n");
    let ghost head = out@;
    let mut i: usize = 0;
    while i < n
        invariant
            n == st.neighbors@.len(),
            i <= n,
            out@ == head + neighbor_rows(st.neighbors@.subrange(0, i as int), now),
        decreases n - i,
    {
        let ghost pre = st.neighbors@.subrange(0, i + 1);
        assert(pre.drop_last() =~= st.neighbors@.subrange(0, i as int));
        push_neighbor_row(&mut out, &st.neighbors[i], now);
        i = i + 1;
        assert(out@ =~= head + neighbor_rows(pre, now));
    }
    assert(st.neighbors@.subrange(0, n as int) =~= st.neighbors@);
    assert(out@ =~= ndp_table_text(st.neighbors@, now));
    out
}

// ---------------------------------------------------------------------------
// Routing
// ---------------------------------------------------------------------------

/// Add a route through `gateway` on `eth0`, unless the table is full.
pub fn add_route(st: &mut Ipv6State, prefix: Ipv6Addr, prefix_len: u8, gateway: Ipv6Addr)
    requires
        old(st).wf(),
    ensures
        final(st).wf(),
        final(st).our_addr == old(st).our_addr,
        final(st).neighbors@ == old(st).neighbors@,
        final(st).packets_sent == old(st).packets_sent,
        final(st).packets_recv == old(st).packets_recv,
        final(st).pings_sent == old(st).pings_sent,
        final(st).routes_view() == if old(st).routes@.len() >= MAX_ROUTES {
            old(st).routes_view()
        } else {
            old(st).routes_view().push(RouteModel { prefix: prefix.octets@, prefix_len, gateway: gateway.octets@, interface: "eth0"@ })
        },
{
    if st.routes.len() >= MAX_ROUTES {
        return;
    }
    let ghost r0 = st.routes_view();
    let r = Ipv6Route { prefix, prefix_len, gateway, interface: string_of("eth0") };
    st.routes.push(r);
    assert(st.routes_view() =~= r0.push(r@));
}

/// The routes other than those for `prefix/len`.
pub open spec fn without_route(rs: Seq<RouteModel>, prefix: Seq<u8>, len: u8) -> Seq<RouteModel>
    decreases rs.len(),
{
    if rs.len() == 0 {
        rs
    } else {
        let rest = without_route(rs.drop_last(), prefix, len);
        if rs.last().prefix == prefix && rs.last().prefix_len == len { rest } else { rest.push(rs.last()) }
    }
}

proof fn lemma_without_route_len(rs: Seq<RouteModel>, prefix: Seq<u8>, len: u8)
    ensures
        without_route(rs, prefix, len).len() <= rs.len(),
    decreases rs.len(),
{
    if rs.len() > 0 {
        lemma_without_route_len(rs.drop_last(), prefix, len);
    }
}

/// Remove every route for `prefix/prefix_len`.
pub fn remove_route(st: &mut Ipv6State, prefix: &Ipv6Addr, prefix_len: u8)
    requires
        old(st).wf(),
    ensures
        final(st).wf(),
        final(st).our_addr == old(st).our_addr,
        final(st).neighbors@ == old(st).neighbors@,
        final(st).packets_sent == old(st).packets_sent,
        final(st).packets_recv == old(st).packets_recv,
        final(st).pings_sent == old(st).pings_sent,
        final(st).routes_view() == without_route(old(st).routes_view(), prefix.octets@, prefix_len),
{
    let ghost r0 = st.routes_view();
    let mut kept: Vec<Ipv6Route> = Vec::new();
    while st.routes.len() > 0
        invariant
            r0 == old(st).routes_view(),
            st.our_addr == old(st).our_addr,
            st.neighbors@ == old(st).neighbors@,
            st.packets_sent == old(st).packets_sent,
            st.packets_recv == old(st).packets_recv,
            st.pings_sent == old(st).pings_sent,
            without_route(r0, prefix.octets@, prefix_len)
                == without_route(st.routes_view(), prefix.octets@, prefix_len) + routes_view(kept@),
        decreases st.routes@.len(),
    {
        let ghost before = st.routes_view();
        let ghost acc = routes_view(kept@);
        let r = st.routes.pop().unwrap();
        assert(before.drop_last() =~= st.routes_view());
        assert(before.last() == r@);
        if !(addr_eq(&r.prefix, prefix) && r.prefix_len == prefix_len) {
            assert(without_route(before, prefix.octets@, prefix_len)
                == without_route(st.routes_view(), prefix.octets@, prefix_len).push(r@));
            kept.insert(0, r);
            assert(routes_view(kept@) =~= seq![r@] + acc);
            assert(without_route(st.routes_view(), prefix.octets@, prefix_len).push(r@) + acc
                =~= without_route(st.routes_view(), prefix.octets@, prefix_len) + (seq![r@] + acc));
        } else {
            assert(without_route(before, prefix.octets@, prefix_len) == without_route(st.routes_view(), prefix.octets@, prefix_len));
        }
    }
    assert(without_route(st.routes_view(), prefix.octets@, prefix_len) =~= Seq::<RouteModel>::empty());
    st.routes = kept;
    assert(without_route(r0, prefix.octets@, prefix_len) =~= st.routes_view());
    proof {
        lemma_without_route_len(r0, prefix.octets@, prefix_len);
    }
}

/// Whether `addr` lies in `prefix/len`: the first `len / 8` bytes agree,
/// and so do the top `len % 8` bits of the next one; lengths past 135
/// match nothing.
pub open spec fn prefix_match(prefix: Seq<u8>, len: u8, addr: Seq<u8>) -> bool {
    let full = (len / 8) as int;
    let rem = len % 8;
    &&& full <= 16
    &&& forall|i: int| 0 <= i < full ==> #[trigger] prefix[i] == addr[i]
    &&& (rem > 0 && full < 16) ==> (prefix[full] & (0xffu8 << (8 - rem) as u8)) == (addr[full] & (0xffu8 << (8 - rem) as u8))
}

fn prefix_matches(prefix: &Ipv6Addr, prefix_len: u8, addr: &Ipv6Addr) -> (r: bool)
    ensures
        r == prefix_match(prefix.octets@, prefix_len, addr.octets@),
{
    let full_bytes = (prefix_len / 8) as usize;
    let remaining_bits = prefix_len % 8;
    if full_bytes > 16 {
        return false;
    }
    let mut i: usize = 0;
    while i < full_bytes
        invariant
            full_bytes <= 16,
            full_bytes == (prefix_len / 8) as int,
            i <= full_bytes,
            forall|k: int| 0 <= k < i ==> #[trigger] prefix.octets@[k] == addr.octets@[k],
        decreases full_bytes - i,
    {
        if prefix.octets[i] != addr.octets[i] {
            return false;
        }
        i = i + 1;
    }
    if remaining_bits > 0 && full_bytes < 16 {
        let mask: u8 = 0xffu8 << (8 - remaining_bits);
        if (prefix.octets[full_bytes] & mask) != (addr.octets[full_bytes] & mask) {
            return false;
        }
    }
    true
}

/// Index of the route that `lookup_route` picks among the first `rs`:
/// the longest matching prefix, the first of equally long ones.
pub open spec fn best_route(rs: Seq<RouteModel>, dst: Seq<u8>) -> Option<int>
    decreases rs.len(),
{
    if rs.len() == 0 {
        None
    } else {
        let b = best_route(rs.drop_last(), dst);
        let r = rs.last();
        if prefix_match(r.prefix, r.prefix_len, dst) && (b is None || r.prefix_len > rs[b->Some_0].prefix_len) {
            Some(rs.len() - 1)
        } else {
            b
        }
    }
}

proof fn lemma_best_route_range(rs: Seq<RouteModel>, dst: Seq<u8>)
    ensures
        best_route(rs, dst) matches Some(i) ==> 0 <= i < rs.len(),
    decreases rs.len(),
{
    if rs.len() > 0 {
        lemma_best_route_range(rs.drop_last(), dst);
    }
}

/// Longest-prefix-match lookup: the gateway of the best matching route.
pub fn lookup_route(st: &Ipv6State, dst: &Ipv6Addr) -> (r: Option<Ipv6Addr>)
    ensures
        match best_route(st.routes_view(), dst.octets@) {
            Some(i) => r matches Some(g) && g.octets@ == st.routes_view()[i].gateway,
            None => r is None,
        },
{
    let n = st.routes.len();
    let mut best: Option<usize> = None;
    let mut i: usize = 0;
    while i < n
        invariant
            n == st.routes@.len(),
            n == st.routes_view().len(),
            i <= n,
            match best {
                Some(b) => best_route(st.routes_view().subrange(0, i as int), dst.octets@) == Some(b as int) && b < i,
                None => best_route(st.routes_view().subrange(0, i as int), dst.octets@) is None,
            },
        decreases n - i,
    {
        let ghost pre = st.routes_view().subrange(0, i + 1);
        assert(pre.drop_last() =~= st.routes_view().subrange(0, i as int));
        let r = &st.routes[i];
        assert(pre.last() == r@);
        if prefix_matches(&r.prefix, r.prefix_len, dst) {
            match best {
                Some(b) => {
                    assert(pre[b as int] == st.routes@[b as int]@);
                    if r.prefix_len > st.routes[b].prefix_len {
                        best = Some(i);
                    }
                },
                None => {
                    best = Some(i);
                },
            }
        }
        i = i + 1;
    }
    assert(st.routes_view().subrange(0, n as int) =~= st.routes_view());
    match best {
        Some(b) => {
            assert(st.routes_view()[b as int] == st.routes@[b as int]@);
            Some(st.routes[b].gateway)
        },
        None => None,
    }
}

/// One row of the routing table.
pub open spec fn route_row(r: RouteModel) -> Seq<char> {
    pad_right(addr_text(r.prefix), 41) + " /"@ + pad_right(dec(r.prefix_len as nat), 3) + " "@
        + pad_right(addr_text(r.gateway), 40) + " "@ + r.interface + "\n"@
}

/// The rows of the routing table.
pub open spec fn route_rows(rs: Seq<RouteModel>) -> Seq<char>
    decreases rs.len(),
{
    if rs.len() == 0 { Seq::empty() } else { route_rows(rs.drop_last()) + route_row(rs.last()) }
}

/// The routing table as text.
pub open spec fn routing_table_text(rs: Seq<RouteModel>) -> Seq<char> {
    if rs.len() == 0 {
        "(no IPv6 routes)\n"@
    } else {
        "Prefix                                    Len  Gateway                                  Iface\n"@
            + "----------------------------------------- ---- ---------------------------------------- -----\n"@
            + route_rows(rs)
    }
}

fn push_route_row(out: &mut String, r: &Ipv6Route)
    ensures
        final(out)@ == old(out)@ + route_row(r@),
{
    let p = r.prefix.display();
    push_padded(out, p.as_str(), 41);
    out.append(" /");
    crate::text::push_dec_padded(out, r.prefix_len as u64, 3);
    out.append(" ");
    let g = r.gateway.display();
    push_padded(out, g.as_str(), 40);
    out.append(" ");
    out.append(r.interface.as_str());
    out.append("\n");
    assert(final(out)@ =~= old(out)@ + route_row(r@));
}

/// The routing table as text.
pub fn routing_table(st: &Ipv6State) -> (out: String)
    ensures
        out@ == routing_table_text(st.routes_view()),
{
    let n = st.routes.len();
    if n == 0 {
        return string_of("(no IPv6 routes)\n");
    }
    let mut out = string_of("Prefix                                    Len  Gateway                                  Iface\n");
    out.append("----------------------------------------- ---- ---------------------------------------- -----\n");
    let ghost head = out@;
    let mut i: usize = 0;
    while i < n
        invariant
            n == st.routes@.len(),
            n == st.routes_view().len(),
            i <= n,
            out@ == head + route_rows(st.routes_view().subrange(0, i as int)),
        decreases n - i,
    {
        let ghost pre = st.routes_view().subrange(0, i + 1);
        assert(pre.drop_last() =~= st.routes_view().subrange(0, i as int));
        assert(pre.last() == st.routes@[i as int]@);
        push_route_row(&mut out, &st.routes[i]);
        i = i + 1;
        assert(out@ =~= head + route_rows(pre));
    }
    assert(st.routes_view().subrange(0, n as int) =~= st.routes_view());
    assert(out@ =~= routing_table_text(st.routes_view()));
    out
}

// ---------------------------------------------------------------------------
// Subsystem
// ---------------------------------------------------------------------------

/// The MAC used when there is no network card.
pub open spec fn default_mac() -> Seq<u8> {
    seq![0x52u8, 0x54u8, 0x00u8, 0x12u8, 0x34u8, 0x56u8]
}

/// Take the link-local address of the default MAC, and add the
/// link-local route `fe80::/10` (on-link) and the loopback route `::1/128`.
pub fn init(st: &mut Ipv6State)
    requires
        old(st).wf(),
    ensures
        final(st).wf(),
        final(st).our_addr.octets@ == seq![0xfeu8, 0x80u8, 0u8, 0u8, 0u8, 0u8, 0u8, 0u8,
            0x50u8, 0x54u8, 0x00u8, 0xffu8, 0xfeu8, 0x12u8, 0x34u8, 0x56u8],
        final(st).neighbors@ == old(st).neighbors@,
        final(st).packets_sent == old(st).packets_sent,
        final(st).packets_recv == old(st).packets_recv,
        final(st).pings_sent == old(st).pings_sent,
        ({
            let ll = RouteModel {
                prefix: segs_to_octets(seq![0xfe80u16, 0u16, 0u16, 0u16, 0u16, 0u16, 0u16, 0u16]),
                prefix_len: 10,
                gateway: Seq::new(16, |i: int| 0u8),
                interface: "eth0"@,
            };
            let lo = RouteModel { prefix: loopback_octets(), prefix_len: 128, gateway: loopback_octets(), interface: "eth0"@ };
            let r0 = old(st).routes_view();
            let r1 = if r0.len() >= MAX_ROUTES { r0 } else { r0.push(ll) };
            final(st).routes_view() == if r1.len() >= MAX_ROUTES { r1 } else { r1.push(lo) }
        }),
{
    let mac: [u8; 6] = [0x52, 0x54, 0x00, 0x12, 0x34, 0x56];
    let ll = Ipv6Addr::from_mac(&mac);
    let b0: u8 = mac[0];
    assert(b0 ^ 0x02u8 == 0x50u8) by (bit_vector)
        requires
            b0 == 0x52u8,
    ;
    st.our_addr = ll;
    let prefix = Ipv6Addr::from_segments([0xfe80, 0, 0, 0, 0, 0, 0, 0]);
    add_route(st, prefix, 10, Ipv6Addr::unspecified());
    add_route(st, Ipv6Addr::loopback(), 128, Ipv6Addr::loopback());
}

/// Our current address.
pub fn our_ipv6(st: &Ipv6State) -> (r: Ipv6Addr)
    ensures
        r == st.our_addr,
{
    st.our_addr
}

/// `yes` or `no`.
pub open spec fn yes_no(b: bool) -> Seq<char> {
    if b { "yes"@ } else { "no"@ }
}

/// The subsystem summary.
pub open spec fn ipv6_info_text(st: Ipv6State) -> Seq<char> {
    let o = st.our_addr.octets@;
    "ipv6: address "@ + addr_text(o) + "\n"@
        + "ipv6: loopback "@ + yes_no(o == loopback_octets()) + "\n"@
        + "ipv6: link-local "@ + yes_no(o[0] == 0xfe && (o[1] & 0xc0) == 0x80) + "\n"@
        + "ipv6: neighbor cache entries: "@ + dec(st.neighbors@.len()) + "\n"@
        + "ipv6: routing table entries: "@ + dec(st.routes@.len()) + "\n"@
}

/// A summary of the subsystem: our address and the table sizes.
pub fn ipv6_info(st: &Ipv6State) -> (out: String)
    ensures
        out@ == ipv6_info_text(*st),
{
    let addr = st.our_addr;
    let mut out = string_of("ipv6: address ");
    let a = addr.display();
    out.append(a.as_str());
    out.append("\n");
    out.append("ipv6: loopback ");
    out.append(if addr.is_loopback() { "yes" } else { "no" });
    out.append("\n");
    out.append("ipv6: link-local ");
    out.append(if addr.is_link_local() { "yes" } else { "no" });
    out.append("\n");
    out.append("ipv6: neighbor cache entries: ");
    push_dec(&mut out, st.neighbors.len() as u64);
    out.append("\n");
    out.append("ipv6: routing table entries: ");
    push_dec(&mut out, st.routes.len() as u64);
    out.append("\n");
    assert(out@ =~= ipv6_info_text(*st));
    out
}

/// The packet counters as text.
pub open spec fn ipv6_stats_text(st: Ipv6State) -> Seq<char> {
    "ipv6: packets sent: "@ + dec(st.packets_sent as nat) + ", received: "@ + dec(st.packets_recv as nat)
        + ", pings: "@ + dec(st.pings_sent as nat) + "\n"@
}

/// The packet counters as text.
pub fn ipv6_stats(st: &Ipv6State) -> (out: String)
    ensures
        out@ == ipv6_stats_text(*st),
{
    let mut out = string_of("ipv6: packets sent: ");
    push_dec(&mut out, st.packets_sent);
    out.append(", received: ");
    push_dec(&mut out, st.packets_recv);
    out.append(", pings: ");
    push_dec(&mut out, st.pings_sent);
    out.append("\n");
    assert(out@ =~= ipv6_stats_text(*st));
    out
}

/// Send a packet to `dst`: the header is built from our address (hop
/// limit 64, the payload length taken modulo 2^16) and the packet is
/// counted. False, with nothing counted, while we have no address.
pub fn send_ipv6(st: &mut Ipv6State, dst: Ipv6Addr, next_header: u8, payload: &[u8]) -> (r: bool)
    ensures
        r == (old(st).our_addr.octets@ != Seq::new(16, |i: int| 0u8)),
        final(st).packets_sent == if r { wrap_inc(old(st).packets_sent) } else { old(st).packets_sent },
        final(st).our_addr == old(st).our_addr,
        final(st).neighbors@ == old(st).neighbors@,
        final(st).routes@ == old(st).routes@,
        final(st).packets_recv == old(st).packets_recv,
        final(st).pings_sent == old(st).pings_sent,
{
    let src = st.our_addr;
    if src.is_unspecified() {
        return false;
    }
    let len16 = (payload.len() % 65536) as u16;
    let _header = build_header(src, dst, next_header, len16, 64);
    st.packets_sent = inc_wrapping(st.packets_sent);
    true
}

/// The report of `ping6`.
pub open spec fn ping6_text(dst: Seq<u8>, seq: u16, sent: bool) -> Seq<char> {
    if sent {
        "ping6 "@ + addr_text(dst) + " seq="@ + dec(seq as nat) + ": sent ("@ + dec(8) + " bytes)"@
    } else {
        "ping6 "@ + addr_text(dst) + ": failed (no source address)"@
    }
}

/// Send an echo request to `dst`; its sequence number is the low 16 bits
/// of the ping counter, which counts every call.
pub fn ping6(st: &mut Ipv6State, dst: &Ipv6Addr) -> (out: String)
    ensures
        ({
            let sent = old(st).our_addr.octets@ != Seq::new(16, |i: int| 0u8);
            &&& out@ == ping6_text(dst.octets@, old(st).pings_sent as u16, sent)
            &&& final(st).pings_sent == wrap_inc(old(st).pings_sent)
            &&& final(st).packets_sent == if sent { wrap_inc(old(st).packets_sent) } else { old(st).packets_sent }
        }),
        final(st).our_addr == old(st).our_addr,
        final(st).neighbors@ == old(st).neighbors@,
        final(st).routes@ == old(st).routes@,
        final(st).packets_recv == old(st).packets_recv,
{
    let seq = st.pings_sent as u16;
    st.pings_sent = inc_wrapping(st.pings_sent);
    let echo = build_echo_request(1, seq);
    let d = dst.display();
    if send_ipv6(st, *dst, 58, echo.as_slice()) {
        let mut out = string_of("ping6 ");
        out.append(d.as_str());
        out.append(" seq=");
        push_dec(&mut out, seq as u64);
        out.append(": sent (");
        push_dec(&mut out, echo.len() as u64);
        out.append(" bytes)");
        assert(echo@.len() == 8);
        assert(out@ =~= ping6_text(dst.octets@, seq, true));
        out
    } else {
        let mut out = string_of("ping6 ");
        out.append(d.as_str());
        out.append(": failed (no source address)");
        assert(out@ =~= ping6_text(dst.octets@, seq, false));
        out
    }
}

// ---------------------------------------------------------------------------
// Laws
// ---------------------------------------------------------------------------

/// Splitting an address into segments and joining them again gives the
/// same segments.
pub proof fn law_segments_roundtrip(s: Seq<u16>)
    requires
        s.len() == 8,
    ensures
        octets_to_segs(segs_to_octets(s)) == s,
{
    assert forall|i: int| 0 <= i < 8 implies #[trigger] octets_to_segs(segs_to_octets(s))[i] == s[i] by {
        let o = segs_to_octets(s);
        assert(o[2 * i] == (s[i] / 256) as u8);
        assert(o[2 * i + 1] == (s[i] % 256) as u8);
    }
    assert(octets_to_segs(segs_to_octets(s)) =~= s);
}

/// A header that `build_header` wrote parses back to the fields it was
/// built from (version 6, traffic class and flow label 0).
pub proof fn law_header_roundtrip(src: Seq<u8>, dst: Seq<u8>, nh: u8, pl: u16, hop: u8, h: Ipv6Header)
    requires
        src.len() == 16,
        dst.len() == 16,
        header_of(header_bytes(src, dst, nh, pl, hop), h),
    ensures
        header_bytes(src, dst, nh, pl, hop).len() == 40,
        header_bytes(src, dst, nh, pl, hop)[0] / 16 == 6,
        h.version == 6,
        h.traffic_class == 0,
        h.flow_label == 0,
        h.payload_length == pl,
        h.next_header == nh,
        h.hop_limit == hop,
        h.src.octets@ == src,
        h.dst.octets@ == dst,
{
    let d = header_bytes(src, dst, nh, pl, hop);
    assert(d[0] == 0x60u8 && d[1] == 0u8 && d[2] == 0u8 && d[3] == 0u8);
    assert(d[4] == (pl / 256) as u8 && d[5] == (pl % 256) as u8);
    assert(octets_at(d, 8) =~= src);
    assert(octets_at(d, 24) =~= dst);
}

/// An echo request that `build_echo_request` wrote parses back to the
/// same id and sequence number, with no data.
pub proof fn law_echo_roundtrip(id: u16, sq: u16, m: IcmpV6Message)
    requires
        message_of(echo_request_bytes(id, sq), m),
    ensures
        message_error(echo_request_bytes(id, sq)) is None,
        m matches IcmpV6Message::EchoRequest { id: a, seq: b, data: p } && a == id && b == sq && p@.len() == 0,
{
    lemma_echo_bytes(id, sq);
}

/// A neighbor solicitation that `build_neighbor_solicit` wrote parses back
/// to the same target address.
pub proof fn law_neighbor_solicit_roundtrip(target: Ipv6Addr, m: IcmpV6Message)
    requires
        message_of(neighbor_solicit_bytes(target.octets@), m),
    ensures
        message_error(neighbor_solicit_bytes(target.octets@)) is None,
        m matches IcmpV6Message::NeighborSolicit { target: t } && t.octets@ == target.octets@,
{
    let d = neighbor_solicit_bytes(target.octets@);
    assert(target.octets@.len() == 16);
    assert(d.len() == 24);
    assert(d[0] == ICMPV6_NEIGHBOR_SOLICIT);
    assert(octets_at(d, 8) =~= target.octets@);
}

proof fn lemma_echo_bytes(id: u16, sq: u16)
    ensures
        echo_request_bytes(id, sq).len() == 8,
        echo_request_bytes(id, sq)[0] == ICMPV6_ECHO_REQUEST,
        be16(echo_request_bytes(id, sq)[4], echo_request_bytes(id, sq)[5]) == id,
        be16(echo_request_bytes(id, sq)[6], echo_request_bytes(id, sq)[7]) == sq,
        bytes_from(echo_request_bytes(id, sq), 8) == Seq::<u8>::empty(),
{
    let d = echo_request_bytes(id, sq);
    assert(d[4] == (id / 256) as u8 && d[5] == (id % 256) as u8);
    assert(d[6] == (sq / 256) as u8 && d[7] == (sq % 256) as u8);
    assert(bytes_from(d, 8) =~= Seq::<u8>::empty());
}

proof fn lemma_neighbor_index_at(t: Seq<NeighborEntry>, addr: Seq<u8>, ro: bool, j: int, i: int)
    requires
        0 <= j <= i <= t.len(),
        forall|k: int| j <= k < i ==> !(t[k].ipv6.octets@ == addr && (!ro || t[k].state != NeighborState::Incomplete)),
        i < t.len() ==> t[i].ipv6.octets@ == addr && (!ro || t[i].state != NeighborState::Incomplete),
    ensures
        neighbor_index(t, addr, ro, j) == i,
    decreases i - j,
{
    if j < i {
        lemma_neighbor_index_at(t, addr, ro, j + 1, i);
    }
}

proof fn lemma_neighbor_index_before(t: Seq<NeighborEntry>, addr: Seq<u8>, ro: bool, j: int)
    requires
        0 <= j <= t.len(),
    ensures
        j <= neighbor_index(t, addr, ro, j) <= t.len(),
        forall|k: int| j <= k < neighbor_index(t, addr, ro, j)
            ==> !(t[k].ipv6.octets@ == addr && (!ro || t[k].state != NeighborState::Incomplete)),
        neighbor_index(t, addr, ro, j) < t.len() ==> t[neighbor_index(t, addr, ro, j)].ipv6.octets@ == addr,
    decreases t.len() - j,
{
    if j < t.len() && !(t[j].ipv6.octets@ == addr && (!ro || t[j].state != NeighborState::Incomplete)) {
        lemma_neighbor_index_before(t, addr, ro, j + 1);
    }
}

/// After `ndp_add` of an address (known, or with room in the cache), a
/// lookup of the address finds the MAC just recorded.
pub proof fn law_ndp_add_then_lookup(t: Seq<NeighborEntry>, ipv6: Ipv6Addr, mac: [u8; 6], now: u64)
    requires
        neighbor_index(t, ipv6.octets@, false, 0) < t.len() || t.len() < MAX_NEIGHBOR_ENTRIES,
    ensures
        ({
            let i = neighbor_index(t, ipv6.octets@, false, 0);
            let t2 = if i < t.len() {
                t.update(i, NeighborEntry { ipv6: t[i].ipv6, mac, state: NeighborState::Reachable, last_seen: now })
            } else {
                t.push(NeighborEntry { ipv6, mac, state: NeighborState::Reachable, last_seen: now })
            };
            let k = neighbor_index(t2, ipv6.octets@, true, 0);
            k < t2.len() && t2[k].mac == mac
        }),
{
    lemma_neighbor_index_before(t, ipv6.octets@, false, 0);
    let i = neighbor_index(t, ipv6.octets@, false, 0);
    if i < t.len() {
        let t2 = t.update(i, NeighborEntry { ipv6: t[i].ipv6, mac, state: NeighborState::Reachable, last_seen: now });
        lemma_neighbor_index_at(t2, ipv6.octets@, true, 0, i);
    } else {
        let t2 = t.push(NeighborEntry { ipv6, mac, state: NeighborState::Reachable, last_seen: now });
        lemma_neighbor_index_at(t2, ipv6.octets@, true, 0, t.len() as int);
    }
}

/// The sum of all the 16-bit big-endian words of `d` from `i` on, a last
/// odd byte padded with zero (the sum a receiver checks).
pub open spec fn all_words(d: Seq<u8>, i: int) -> nat
    decreases d.len() - i,
{
    if i < 0 || i >= d.len() {
        0
    } else if i + 1 >= d.len() {
        (d[i] * 256) as nat
    } else {
        (d[i] * 256 + d[i + 1]) as nat + all_words(d, i + 2)
    }
}

/// A message with `c` written big-endian into its checksum field (bytes 2
/// and 3).
pub open spec fn with_checksum(d: Seq<u8>, c: u16) -> Seq<u8> {
    d.update(2, (c / 256) as u8).update(3, (c % 256) as u8)
}

proof fn lemma_all_words_from_three(d: Seq<u8>, i: int)
    requires
        i >= 3,
    ensures
        all_words(d, i) == word_sum(d, i),
    decreases d.len() - i,
{
    if i < d.len() && i + 1 < d.len() {
        lemma_all_words_from_three(d, i + 2);
    }
}

proof fn lemma_word_sum_agree(d: Seq<u8>, e: Seq<u8>, i: int)
    requires
        i >= 3,
        d.len() == e.len(),
        forall|k: int| i <= k < d.len() ==> d[k] == e[k],
    ensures
        word_sum(d, i) == word_sum(e, i),
    decreases d.len() - i,
{
    if i < d.len() && i + 1 < d.len() {
        lemma_word_sum_agree(d, e, i + 2);
    }
}

proof fn lemma_fold_mod(s: nat)
    ensures
        fold_carries(s) % 65535 == s % 65535,
        s > 0 ==> fold_carries(s) > 0,
    decreases s,
{
    if s >= 65536 {
        let q = s / 65536;
        let r = s % 65536;
        let t = r + q;
        assert(s == 65536 * q + r && q >= 1 && t < s) by (nonlinear_arith)
            requires s >= 65536, q == s / 65536, r == s % 65536, t == r + q;
        lemma_fold_mod(t);
        assert(s == 65535 * q + t);
        vstd::arithmetic::div_mod::lemma_mod_multiples_vanish(q as int, t as int, 65535);
    }
}

proof fn lemma_words_with_checksum(d: Seq<u8>, c: u16)
    requires
        d.len() >= 4,
    ensures
        all_words(with_checksum(d, c), 0) == word_sum(d, 0) + c,
{
    let e = with_checksum(d, c);
    lemma_all_words_from_three(e, 4);
    lemma_word_sum_agree(d, e, 4);
    assert(e[0] == d[0] && e[1] == d[1]);
    assert(e[2] == (c / 256) as u8 && e[3] == (c % 256) as u8);
    assert((c / 256) as u8 * 256 + (c % 256) as u8 == c);
    assert(all_words(e, 2) == (e[2] * 256 + e[3]) as nat + all_words(e, 4));
    assert(all_words(e, 0) == (e[0] * 256 + e[1]) as nat + all_words(e, 2));
    assert(word_sum(d, 2) == word_sum(d, 4));
    assert(word_sum(d, 0) == (d[0] * 256 + d[1]) as nat + word_sum(d, 2));
}

/// The checksum makes the message check: with the checksum in its field,
/// the words of the whole message add up, with end-around carries, to
/// all ones (their sum is a multiple of 0xFFFF); and the field holds
/// 0xFFFF only when every other word is zero.
pub proof fn law_checksum_verifies(d: Seq<u8>)
    requires
        d.len() >= 4,
    ensures
        all_words(with_checksum(d, checksum_of(d)), 0) % 65535 == 0,
        checksum_of(d) == 65535 <==> all_words(with_checksum(d, 0), 0) == 0,
{
    let s = word_sum(d, 0);
    lemma_fold_bound(s);
    lemma_fold_mod(s);
    lemma_words_with_checksum(d, checksum_of(d));
    lemma_words_with_checksum(d, 0);
    let f = fold_carries(s);
    assert(all_words(with_checksum(d, checksum_of(d)), 0) == s + (65535 - f));
    let q = s / 65535;
    assert(s == 65535 * q + s % 65535) by (nonlinear_arith) requires q == s / 65535;
    assert(f == 65535 * (f / 65535) + f % 65535) by (nonlinear_arith);
    assert(s + (65535 - f) == 65535 * (q - f / 65535 + 1) + 0) by (nonlinear_arith)
        requires s == 65535 * q + s % 65535, f == 65535 * (f / 65535) + f % 65535, f % 65535 == s % 65535;
    vstd::arithmetic::div_mod::lemma_mod_multiples_vanish(q - f / 65535 + 1, 0, 65535);
}

/// An echo request and a neighbor solicitation as built check: all their
/// words add up to a multiple of 0xFFFF, and their checksum field is never
/// 0xFFFF (their type byte is not zero).
pub proof fn law_built_messages_check(id: u16, sq: u16, target: Seq<u8>)
    requires
        target.len() == 16,
    ensures
        all_words(echo_request_bytes(id, sq), 0) % 65535 == 0,
        echo_request_bytes(id, sq)[2] as int * 256 + echo_request_bytes(id, sq)[3] < 65535,
        all_words(neighbor_solicit_bytes(target), 0) % 65535 == 0,
        neighbor_solicit_bytes(target)[2] as int * 256 + neighbor_solicit_bytes(target)[3] < 65535,
{
    let e = seq![ICMPV6_ECHO_REQUEST, 0u8, 0u8, 0u8, (id / 256) as u8, (id % 256) as u8, (sq / 256) as u8, (sq % 256) as u8];
    law_checksum_verifies(e);
    lemma_words_with_checksum(e, 0);
    assert(all_words(with_checksum(e, 0), 0) > 0);
    let c = checksum_of(e);
    assert((c / 256) as u8 * 256 + (c % 256) as u8 == c);
    let n = seq![ICMPV6_NEIGHBOR_SOLICIT, 0u8, 0u8, 0u8, 0u8, 0u8, 0u8, 0u8] + target;
    law_checksum_verifies(n);
    lemma_words_with_checksum(n, 0);
    assert(n[0] == ICMPV6_NEIGHBOR_SOLICIT);
    assert(all_words(with_checksum(n, 0), 0) > 0);
    let c2 = checksum_of(n);
    assert((c2 / 256) as u8 * 256 + (c2 % 256) as u8 == c2);
}


/// Bit `j` (0 the highest) of a byte.
pub open spec fn bit(x: u8, j: int) -> u8 {
    (x >> ((7 - j) as u8)) & 1u8
}

/// Bit `k` of an address, counted from the top of its first byte.
pub open spec fn bit_at(s: Seq<u8>, k: int) -> u8 {
    bit(s[k / 8], k % 8)
}

proof fn lemma_mask_bits(x: u8, y: u8, r: u8)
    requires
        1 <= r <= 8,
    ensures
        ((x & (0xffu8 << (8 - r) as u8)) == (y & (0xffu8 << (8 - r) as u8)))
            <==> (forall|j: int| 0 <= j < r ==> #[trigger] bit(x, j) == #[trigger] bit(y, j)),
{
    if r == 1 {
        assert(((x & (0xffu8 << (8 - r) as u8)) == (y & (0xffu8 << (8 - r) as u8))) <==> (((x >> 7u8) & 1u8) == ((y >> 7u8) & 1u8))) by (bit_vector)
            requires r == 1;
        assert(bit(x, 0) == (x >> 7u8) & 1u8 && bit(y, 0) == (y >> 7u8) & 1u8);
        if ((x >> 7u8) & 1u8) == ((y >> 7u8) & 1u8) {
            assert forall|j: int| 0 <= j < r implies #[trigger] bit(x, j) == #[trigger] bit(y, j) by {
                if j == 0 {}
            }
        }
    } else if r == 2 {
        assert(((x & (0xffu8 << (8 - r) as u8)) == (y & (0xffu8 << (8 - r) as u8))) <==> (((x >> 7u8) & 1u8) == ((y >> 7u8) & 1u8) && ((x >> 6u8) & 1u8) == ((y >> 6u8) & 1u8))) by (bit_vector)
            requires r == 2;
        assert(bit(x, 0) == (x >> 7u8) & 1u8 && bit(y, 0) == (y >> 7u8) & 1u8);
        assert(bit(x, 1) == (x >> 6u8) & 1u8 && bit(y, 1) == (y >> 6u8) & 1u8);
        if ((x >> 7u8) & 1u8) == ((y >> 7u8) & 1u8) && ((x >> 6u8) & 1u8) == ((y >> 6u8) & 1u8) {
            assert forall|j: int| 0 <= j < r implies #[trigger] bit(x, j) == #[trigger] bit(y, j) by {
                if j == 0 {} else if j == 1 {}
            }
        }
    } else if r == 3 {
        assert(((x & (0xffu8 << (8 - r) as u8)) == (y & (0xffu8 << (8 - r) as u8))) <==> (((x >> 7u8) & 1u8) == ((y >> 7u8) & 1u8) && ((x >> 6u8) & 1u8) == ((y >> 6u8) & 1u8) && ((x >> 5u8) & 1u8) == ((y >> 5u8) & 1u8))) by (bit_vector)
            requires r == 3;
        assert(bit(x, 0) == (x >> 7u8) & 1u8 && bit(y, 0) == (y >> 7u8) & 1u8);
        assert(bit(x, 1) == (x >> 6u8) & 1u8 && bit(y, 1) == (y >> 6u8) & 1u8);
        assert(bit(x, 2) == (x >> 5u8) & 1u8 && bit(y, 2) == (y >> 5u8) & 1u8);
        if ((x >> 7u8) & 1u8) == ((y >> 7u8) & 1u8) && ((x >> 6u8) & 1u8) == ((y >> 6u8) & 1u8) && ((x >> 5u8) & 1u8) == ((y >> 5u8) & 1u8) {
            assert forall|j: int| 0 <= j < r implies #[trigger] bit(x, j) == #[trigger] bit(y, j) by {
                if j == 0 {} else if j == 1 {} else if j == 2 {}
            }
        }
    } else if r == 4 {
        assert(((x & (0xffu8 << (8 - r) as u8)) == (y & (0xffu8 << (8 - r) as u8))) <==> (((x >> 7u8) & 1u8) == ((y >> 7u8) & 1u8) && ((x >> 6u8) & 1u8) == ((y >> 6u8) & 1u8) && ((x >> 5u8) & 1u8) == ((y >> 5u8) & 1u8) && ((x >> 4u8) & 1u8) == ((y >> 4u8) & 1u8))) by (bit_vector)
            requires r == 4;
        assert(bit(x, 0) == (x >> 7u8) & 1u8 && bit(y, 0) == (y >> 7u8) & 1u8);
        assert(bit(x, 1) == (x >> 6u8) & 1u8 && bit(y, 1) == (y >> 6u8) & 1u8);
        assert(bit(x, 2) == (x >> 5u8) & 1u8 && bit(y, 2) == (y >> 5u8) & 1u8);
        assert(bit(x, 3) == (x >> 4u8) & 1u8 && bit(y, 3) == (y >> 4u8) & 1u8);
        if ((x >> 7u8) & 1u8) == ((y >> 7u8) & 1u8) && ((x >> 6u8) & 1u8) == ((y >> 6u8) & 1u8) && ((x >> 5u8) & 1u8) == ((y >> 5u8) & 1u8) && ((x >> 4u8) & 1u8) == ((y >> 4u8) & 1u8) {
            assert forall|j: int| 0 <= j < r implies #[trigger] bit(x, j) == #[trigger] bit(y, j) by {
                if j == 0 {} else if j == 1 {} else if j == 2 {} else if j == 3 {}
            }
        }
    } else if r == 5 {
        assert(((x & (0xffu8 << (8 - r) as u8)) == (y & (0xffu8 << (8 - r) as u8))) <==> (((x >> 7u8) & 1u8) == ((y >> 7u8) & 1u8) && ((x >> 6u8) & 1u8) == ((y >> 6u8) & 1u8) && ((x >> 5u8) & 1u8) == ((y >> 5u8) & 1u8) && ((x >> 4u8) & 1u8) == ((y >> 4u8) & 1u8) && ((x >> 3u8) & 1u8) == ((y >> 3u8) & 1u8))) by (bit_vector)
            requires r == 5;
        assert(bit(x, 0) == (x >> 7u8) & 1u8 && bit(y, 0) == (y >> 7u8) & 1u8);
        assert(bit(x, 1) == (x >> 6u8) & 1u8 && bit(y, 1) == (y >> 6u8) & 1u8);
        assert(bit(x, 2) == (x >> 5u8) & 1u8 && bit(y, 2) == (y >> 5u8) & 1u8);
        assert(bit(x, 3) == (x >> 4u8) & 1u8 && bit(y, 3) == (y >> 4u8) & 1u8);
        assert(bit(x, 4) == (x >> 3u8) & 1u8 && bit(y, 4) == (y >> 3u8) & 1u8);
        if ((x >> 7u8) & 1u8) == ((y >> 7u8) & 1u8) && ((x >> 6u8) & 1u8) == ((y >> 6u8) & 1u8) && ((x >> 5u8) & 1u8) == ((y >> 5u8) & 1u8) && ((x >> 4u8) & 1u8) == ((y >> 4u8) & 1u8) && ((x >> 3u8) & 1u8) == ((y >> 3u8) & 1u8) {
            assert forall|j: int| 0 <= j < r implies #[trigger] bit(x, j) == #[trigger] bit(y, j) by {
                if j == 0 {} else if j == 1 {} else if j == 2 {} else if j == 3 {} else if j == 4 {}
            }
        }
    } else if r == 6 {
        assert(((x & (0xffu8 << (8 - r) as u8)) == (y & (0xffu8 << (8 - r) as u8))) <==> (((x >> 7u8) & 1u8) == ((y >> 7u8) & 1u8) && ((x >> 6u8) & 1u8) == ((y >> 6u8) & 1u8) && ((x >> 5u8) & 1u8) == ((y >> 5u8) & 1u8) && ((x >> 4u8) & 1u8) == ((y >> 4u8) & 1u8) && ((x >> 3u8) & 1u8) == ((y >> 3u8) & 1u8) && ((x >> 2u8) & 1u8) == ((y >> 2u8) & 1u8))) by (bit_vector)
            requires r == 6;
        assert(bit(x, 0) == (x >> 7u8) & 1u8 && bit(y, 0) == (y >> 7u8) & 1u8);
        assert(bit(x, 1) == (x >> 6u8) & 1u8 && bit(y, 1) == (y >> 6u8) & 1u8);
        assert(bit(x, 2) == (x >> 5u8) & 1u8 && bit(y, 2) == (y >> 5u8) & 1u8);
        assert(bit(x, 3) == (x >> 4u8) & 1u8 && bit(y, 3) == (y >> 4u8) & 1u8);
        assert(bit(x, 4) == (x >> 3u8) & 1u8 && bit(y, 4) == (y >> 3u8) & 1u8);
        assert(bit(x, 5) == (x >> 2u8) & 1u8 && bit(y, 5) == (y >> 2u8) & 1u8);
        if ((x >> 7u8) & 1u8) == ((y >> 7u8) & 1u8) && ((x >> 6u8) & 1u8) == ((y >> 6u8) & 1u8) && ((x >> 5u8) & 1u8) == ((y >> 5u8) & 1u8) && ((x >> 4u8) & 1u8) == ((y >> 4u8) & 1u8) && ((x >> 3u8) & 1u8) == ((y >> 3u8) & 1u8) && ((x >> 2u8) & 1u8) == ((y >> 2u8) & 1u8) {
            assert forall|j: int| 0 <= j < r implies #[trigger] bit(x, j) == #[trigger] bit(y, j) by {
                if j == 0 {} else if j == 1 {} else if j == 2 {} else if j == 3 {} else if j == 4 {} else if j == 5 {}
            }
        }
    } else if r == 7 {
        assert(((x & (0xffu8 << (8 - r) as u8)) == (y & (0xffu8 << (8 - r) as u8))) <==> (((x >> 7u8) & 1u8) == ((y >> 7u8) & 1u8) && ((x >> 6u8) & 1u8) == ((y >> 6u8) & 1u8) && ((x >> 5u8) & 1u8) == ((y >> 5u8) & 1u8) && ((x >> 4u8) & 1u8) == ((y >> 4u8) & 1u8) && ((x >> 3u8) & 1u8) == ((y >> 3u8) & 1u8) && ((x >> 2u8) & 1u8) == ((y >> 2u8) & 1u8) && ((x >> 1u8) & 1u8) == ((y >> 1u8) & 1u8))) by (bit_vector)
            requires r == 7;
        assert(bit(x, 0) == (x >> 7u8) & 1u8 && bit(y, 0) == (y >> 7u8) & 1u8);
        assert(bit(x, 1) == (x >> 6u8) & 1u8 && bit(y, 1) == (y >> 6u8) & 1u8);
        assert(bit(x, 2) == (x >> 5u8) & 1u8 && bit(y, 2) == (y >> 5u8) & 1u8);
        assert(bit(x, 3) == (x >> 4u8) & 1u8 && bit(y, 3) == (y >> 4u8) & 1u8);
        assert(bit(x, 4) == (x >> 3u8) & 1u8 && bit(y, 4) == (y >> 3u8) & 1u8);
        assert(bit(x, 5) == (x >> 2u8) & 1u8 && bit(y, 5) == (y >> 2u8) & 1u8);
        assert(bit(x, 6) == (x >> 1u8) & 1u8 && bit(y, 6) == (y >> 1u8) & 1u8);
        if ((x >> 7u8) & 1u8) == ((y >> 7u8) & 1u8) && ((x >> 6u8) & 1u8) == ((y >> 6u8) & 1u8) && ((x >> 5u8) & 1u8) == ((y >> 5u8) & 1u8) && ((x >> 4u8) & 1u8) == ((y >> 4u8) & 1u8) && ((x >> 3u8) & 1u8) == ((y >> 3u8) & 1u8) && ((x >> 2u8) & 1u8) == ((y >> 2u8) & 1u8) && ((x >> 1u8) & 1u8) == ((y >> 1u8) & 1u8) {
            assert forall|j: int| 0 <= j < r implies #[trigger] bit(x, j) == #[trigger] bit(y, j) by {
                if j == 0 {} else if j == 1 {} else if j == 2 {} else if j == 3 {} else if j == 4 {} else if j == 5 {} else if j == 6 {}
            }
        }
    } else if r == 8 {
        assert(((x & (0xffu8 << (8 - r) as u8)) == (y & (0xffu8 << (8 - r) as u8))) <==> (((x >> 7u8) & 1u8) == ((y >> 7u8) & 1u8) && ((x >> 6u8) & 1u8) == ((y >> 6u8) & 1u8) && ((x >> 5u8) & 1u8) == ((y >> 5u8) & 1u8) && ((x >> 4u8) & 1u8) == ((y >> 4u8) & 1u8) && ((x >> 3u8) & 1u8) == ((y >> 3u8) & 1u8) && ((x >> 2u8) & 1u8) == ((y >> 2u8) & 1u8) && ((x >> 1u8) & 1u8) == ((y >> 1u8) & 1u8) && ((x >> 0u8) & 1u8) == ((y >> 0u8) & 1u8))) by (bit_vector)
            requires r == 8;
        assert(bit(x, 0) == (x >> 7u8) & 1u8 && bit(y, 0) == (y >> 7u8) & 1u8);
        assert(bit(x, 1) == (x >> 6u8) & 1u8 && bit(y, 1) == (y >> 6u8) & 1u8);
        assert(bit(x, 2) == (x >> 5u8) & 1u8 && bit(y, 2) == (y >> 5u8) & 1u8);
        assert(bit(x, 3) == (x >> 4u8) & 1u8 && bit(y, 3) == (y >> 4u8) & 1u8);
        assert(bit(x, 4) == (x >> 3u8) & 1u8 && bit(y, 4) == (y >> 3u8) & 1u8);
        assert(bit(x, 5) == (x >> 2u8) & 1u8 && bit(y, 5) == (y >> 2u8) & 1u8);
        assert(bit(x, 6) == (x >> 1u8) & 1u8 && bit(y, 6) == (y >> 1u8) & 1u8);
        assert(bit(x, 7) == (x >> 0u8) & 1u8 && bit(y, 7) == (y >> 0u8) & 1u8);
        if ((x >> 7u8) & 1u8) == ((y >> 7u8) & 1u8) && ((x >> 6u8) & 1u8) == ((y >> 6u8) & 1u8) && ((x >> 5u8) & 1u8) == ((y >> 5u8) & 1u8) && ((x >> 4u8) & 1u8) == ((y >> 4u8) & 1u8) && ((x >> 3u8) & 1u8) == ((y >> 3u8) & 1u8) && ((x >> 2u8) & 1u8) == ((y >> 2u8) & 1u8) && ((x >> 1u8) & 1u8) == ((y >> 1u8) & 1u8) && ((x >> 0u8) & 1u8) == ((y >> 0u8) & 1u8) {
            assert forall|j: int| 0 <= j < r implies #[trigger] bit(x, j) == #[trigger] bit(y, j) by {
                if j == 0 {} else if j == 1 {} else if j == 2 {} else if j == 3 {} else if j == 4 {} else if j == 5 {} else if j == 6 {} else if j == 7 {}
            }
        }
    }
}

/// An address lies in `prefix/len` exactly when its first `len` bits are
/// those of the prefix (for a partial byte, its top `len % 8` bits count).
pub proof fn law_prefix_match_is_leading_bits(prefix: Seq<u8>, len: u8, addr: Seq<u8>)
    requires
        prefix.len() == 16,
        addr.len() == 16,
        len <= 128,
    ensures
        prefix_match(prefix, len, addr)
            <==> (forall|k: int| 0 <= k < len ==> #[trigger] bit_at(prefix, k) == #[trigger] bit_at(addr, k)),
{
    let full = (len / 8) as int;
    let rem = len % 8;
    if prefix_match(prefix, len, addr) {
        assert forall|k: int| 0 <= k < len implies #[trigger] bit_at(prefix, k) == #[trigger] bit_at(addr, k) by {
            let i = k / 8;
            let j = k % 8;
            if i < full {
                assert(prefix[i] == addr[i]);
            } else {
                assert(i == full && j < rem && full < 16);
                lemma_mask_bits(prefix[full], addr[full], rem);
                assert(bit(prefix[full], j) == bit(addr[full], j));
            }
        }
    }
    if forall|k: int| 0 <= k < len ==> #[trigger] bit_at(prefix, k) == #[trigger] bit_at(addr, k) {
        assert forall|i: int| 0 <= i < full implies #[trigger] prefix[i] == addr[i] by {
            assert forall|j: int| 0 <= j < 8 implies #[trigger] bit(prefix[i], j) == #[trigger] bit(addr[i], j) by {
                let k = 8 * i + j;
                assert(k / 8 == i && k % 8 == j);
                assert(bit_at(prefix, k) == bit_at(addr, k));
            }
            lemma_mask_bits(prefix[i], addr[i], 8);
            let x = prefix[i];
            let y = addr[i];
            assert((x & (0xffu8 << (8 - 8u8) as u8)) == x && (y & (0xffu8 << (8 - 8u8) as u8)) == y) by (bit_vector);
        }
        if rem > 0 && full < 16 {
            assert forall|j: int| 0 <= j < rem implies #[trigger] bit(prefix[full], j) == #[trigger] bit(addr[full], j) by {
                let k = 8 * full + j;
                assert(k / 8 == full && k % 8 == j);
                assert(bit_at(prefix, k) == bit_at(addr, k));
            }
            lemma_mask_bits(prefix[full], addr[full], rem);
        }
    }
}

// ---------------------------------------------------------------------------
// The text form reads back
// ---------------------------------------------------------------------------

proof fn lemma_hex_text(n: nat)
    ensures
        hex(n).len() > 0,
        forall|j: int| 0 <= j < hex(n).len() ==> #[trigger] is_hex_digit(hex(n)[j]),
        hex_value(hex(n)) == n,
    decreases n,
{
    if n >= 16 {
        lemma_hex_text(n / 16);
        let d = (n % 16) as nat;
        let c = digit_char(d);
        assert(hex(n) == hex(n / 16).push(c));
        assert(hex(n).drop_last() =~= hex(n / 16));
        assert(hex(n).last() == c);
        if d < 10 {
            assert(c as u32 == d + 48);
        } else {
            assert(c as u32 == d + 87);
        }
        assert(is_hex_digit(c) && hex_digit_value(c) == d);
        assert(hex_value(hex(n)) == hex_value(hex(n / 16)) * 16 + hex_digit_value(c));
        assert(n == (n / 16) * 16 + n % 16);
        assert forall|j: int| 0 <= j < hex(n).len() implies #[trigger] is_hex_digit(hex(n)[j]) by {
            if j < hex(n / 16).len() {
                assert(hex(n)[j] == hex(n / 16)[j]);
            }
        }
    } else {
        let c = digit_char(n);
        if n < 10 {
            assert(c as u32 == n + 48);
        } else {
            assert(c as u32 == n + 87);
        }
        assert(hex(n) == seq![c]);
        assert(hex(n).drop_last() =~= Seq::<char>::empty());
        assert(hex(n).last() == c);
        assert(hex_digit_value(c) == n);
        assert(hex_value(hex(n)) == hex_value(Seq::<char>::empty()) * 16 + hex_digit_value(c));
    }
}

proof fn lemma_hex_len(n: nat, k: nat)
    requires
        k >= 1,
        n < pow16(k),
    ensures
        hex(n).len() <= k,
    decreases k,
{
    if n >= 16 {
        assert(k >= 2) by {
            if k == 1 {
                assert(pow16(1) == 16 * pow16(0));
            }
        }
        assert(pow16(k) == 16 * pow16((k - 1) as nat));
        assert(n / 16 < pow16((k - 1) as nat)) by (nonlinear_arith)
            requires n < 16 * pow16((k - 1) as nat);
        lemma_hex_len(n / 16, (k - 1) as nat);
        assert(hex(n) == hex(n / 16).push(digit_char((n % 16) as nat)));
    }
}

/// A segment's hex text parses back to the segment.
proof fn lemma_hex_group(v: u16)
    ensures
        parse_hex_spec(hex(v as nat)) == Some(v),
        hex(v as nat).len() > 0,
        forall|j: int| 0 <= j < hex(v as nat).len() ==> #[trigger] hex(v as nat)[j] != ':',
{
    lemma_hex_text(v as nat);
    assert(pow16(4) == 65536) by {
        assert(pow16(0) == 1);
        assert(pow16(1) == 16);
        assert(pow16(2) == 256);
        assert(pow16(3) == 4096);
    }
    lemma_hex_len(v as nat, 4);
    assert forall|j: int| 0 <= j < hex(v as nat).len() implies #[trigger] hex(v as nat)[j] != ':' by {
        assert(is_hex_digit(hex(v as nat)[j]));
    }
}

proof fn lemma_pieces_tail(s: Seq<char>, i: int, cur: Seq<char>)
    requires
        0 <= i <= s.len(),
        forall|k: int| i <= k < s.len() ==> #[trigger] s[k] != ':',
    ensures
        pieces_from(s, ':', i, cur) == seq![cur + s.subrange(i, s.len() as int)],
    decreases s.len() - i,
{
    if i < s.len() {
        lemma_pieces_tail(s, i + 1, cur.push(s[i]));
        assert(cur.push(s[i]) + s.subrange(i + 1, s.len() as int) =~= cur + s.subrange(i, s.len() as int));
    } else {
        assert(cur + s.subrange(i, s.len() as int) =~= cur);
    }
}

proof fn lemma_pieces_join(a: Seq<char>, b: Seq<char>, i: int, cur: Seq<char>)
    requires
        0 <= i <= a.len(),
        forall|k: int| 0 <= k < b.len() ==> #[trigger] b[k] != ':',
    ensures
        pieces_from(a + seq![':'] + b, ':', i, cur) == pieces_from(a, ':', i, cur).push(b),
    decreases a.len() - i,
{
    let t = a + seq![':'] + b;
    if i < a.len() {
        assert(t[i] == a[i]);
        if a[i] == ':' {
            lemma_pieces_join(a, b, i + 1, Seq::empty());
            assert(seq![cur] + pieces_from(a, ':', i + 1, Seq::empty()).push(b)
                =~= (seq![cur] + pieces_from(a, ':', i + 1, Seq::empty())).push(b));
        } else {
            lemma_pieces_join(a, b, i + 1, cur.push(a[i]));
        }
    } else {
        assert(t[i] == ':');
        assert forall|k: int| i + 1 <= k < t.len() implies #[trigger] t[k] != ':' by {
            assert(t[k] == b[k - i - 1]);
        }
        lemma_pieces_tail(t, i + 1, Seq::empty());
        assert(Seq::<char>::empty() + t.subrange(i + 1, t.len() as int) =~= b);
        assert(pieces_from(a, ':', i, cur) == seq![cur]);
        assert(seq![cur] + seq![b] =~= seq![cur].push(b));
    }
}

/// No two colons in a row.
pub open spec fn no_dcolon(t: Seq<char>) -> bool {
    forall|j: int| 0 <= j && j + 1 < t.len() ==> !(#[trigger] t[j] == ':' && t[j + 1] == ':')
}

/// The hex texts of segments.
pub open spec fn hex_texts(s: Seq<u16>) -> Seq<Seq<char>> {
    s.map_values(|v: u16| hex(v as nat))
}

proof fn lemma_join_shape(s: Seq<u16>)
    requires
        s.len() >= 1,
    ensures
        pieces(hex_join(s), ':') == hex_texts(s),
        hex_join(s).len() > 0,
        no_dcolon(hex_join(s)),
        hex_join(s)[0] != ':',
        hex_join(s)[hex_join(s).len() - 1] != ':',
    decreases s.len(),
{
    reveal_strlit(":");
    let t = hex_join(s);
    if s.len() == 1 {
        lemma_hex_group(s[0]);
        lemma_pieces_tail(t, 0, Seq::empty());
        assert(Seq::<char>::empty() + t.subrange(0, t.len() as int) =~= t);
        assert(hex_texts(s) =~= seq![hex(s[0] as nat)]);
    } else {
        let d = s.drop_last();
        lemma_join_shape(d);
        let a = hex_join(d);
        let b = hex(s.last() as nat);
        lemma_hex_group(s.last());
        assert(t == a + ":"@ + b);
        assert(":"@ == seq![':']);
        lemma_pieces_join(a, b, 0, Seq::empty());
        assert(hex_texts(s) =~= hex_texts(d).push(b));
        assert(t[0] == a[0]);
        assert(t[t.len() - 1] == b[b.len() - 1]);
        assert forall|j: int| 0 <= j && j + 1 < t.len() implies !(#[trigger] t[j] == ':' && t[j + 1] == ':') by {
            if j + 1 < a.len() {
                assert(t[j] == a[j] && t[j + 1] == a[j + 1]);
            } else if j + 1 == a.len() {
                assert(t[j] == a[a.len() - 1]);
            } else if j == a.len() {
                assert(t[j + 1] == b[0]);
            } else {
                assert(t[j] == b[j - a.len() - 1]);
            }
        }
    }
}

proof fn lemma_parse_texts(s: Seq<u16>)
    ensures
        parse_groups(hex_texts(s)) == Some(s),
    decreases s.len(),
{
    if s.len() > 0 {
        lemma_parse_texts(s.drop_last());
        assert(hex_texts(s).drop_last() =~= hex_texts(s.drop_last()));
        lemma_hex_group(s.last());
        assert(s.drop_last().push(s.last()) =~= s);
    } else {
        assert(hex_texts(s) =~= Seq::<Seq<char>>::empty());
        assert(s =~= Seq::<u16>::empty());
    }
}

proof fn lemma_dcolon_none(t: Seq<char>, j: int)
    requires
        0 <= j,
        no_dcolon(t),
    ensures
        dcolon_pos(t, j) == t.len(),
    decreases t.len() - j,
{
    if j + 1 < t.len() {
        assert(!(t[j] == ':' && t[j + 1] == ':'));
        lemma_dcolon_none(t, j + 1);
    }
}

proof fn lemma_dcolon_at(l: Seq<char>, r: Seq<char>, j: int)
    requires
        0 <= j <= l.len(),
        no_dcolon(l),
        l.len() > 0 ==> l[l.len() - 1] != ':',
    ensures
        dcolon_pos(l + seq![':', ':'] + r, j) == l.len(),
    decreases l.len() - j,
{
    let t = l + seq![':', ':'] + r;
    if j < l.len() {
        if j + 1 < l.len() {
            assert(t[j] == l[j] && t[j + 1] == l[j + 1]);
            assert(!(l[j] == ':' && l[j + 1] == ':'));
        } else {
            assert(t[j] == l[j]);
        }
        lemma_dcolon_at(l, r, j + 1);
    } else {
        assert(t[j] == ':' && t[j + 1] == ':');
    }
}

proof fn lemma_zero_scan(s: Seq<u16>, i: int, cs: int, cl: int, bs: int, bl: int)
    requires
        s.len() == 8,
        0 <= i <= 8,
        cl >= 0,
        cl > 0 ==> 0 <= cs && cs + cl == i && forall|k: int| cs <= k < i ==> #[trigger] s[k] == 0,
        (bl == 0 && bs == 8) || (bl >= 2 && 0 <= bs && bs + bl <= i && forall|k: int| bs <= k < bs + bl ==> #[trigger] s[k] == 0),
    ensures
        ({
            let (r0, r1) = zero_scan(s, i, cs, cl, bs, bl);
            (r1 == 0 && r0 == 8) || (r1 >= 2 && 0 <= r0 && r0 + r1 <= 8 && forall|k: int| r0 <= k < r0 + r1 ==> #[trigger] s[k] == 0)
        }),
    decreases 8 - i,
{
    if i < 8 {
        if s[i] == 0 {
            let ncs = if cl == 0 { i } else { cs };
            lemma_zero_scan(s, i + 1, ncs, cl + 1, bs, bl);
        } else if cl > bl && cl >= 2 {
            lemma_zero_scan(s, i + 1, cs, 0, cs, cl);
        } else {
            lemma_zero_scan(s, i + 1, cs, 0, bs, bl);
        }
    }
}

proof fn lemma_octets_segs(o: Seq<u8>)
    requires
        o.len() == 16,
    ensures
        segs_to_octets(octets_to_segs(o)) == o,
{
    let s = octets_to_segs(o);
    assert forall|k: int| 0 <= k < 16 implies #[trigger] segs_to_octets(s)[k] == o[k] by {
        let i = k / 2;
        let hi = o[2 * i] as int;
        let lo = o[2 * i + 1] as int;
        assert(s[i] == hi * 256 + lo);
        assert((hi * 256 + lo) / 256 == hi && (hi * 256 + lo) % 256 == lo) by (nonlinear_arith)
            requires 0 <= hi < 256, 0 <= lo < 256;
        if k % 2 == 0 {
            assert(k == 2 * i);
        } else {
            assert(k == 2 * i + 1);
        }
    }
    assert(segs_to_octets(s) =~= o);
}

proof fn lemma_groups_of_join(s: Seq<u16>)
    ensures
        groups_of(hex_join(s)) == hex_texts(s),
        no_dcolon(hex_join(s)),
        hex_join(s).len() > 0 ==> hex_join(s)[hex_join(s).len() - 1] != ':',
        dcolon_pos(hex_join(s), 0) == hex_join(s).len(),
{
    if s.len() == 0 {
        assert(hex_join(s) == Seq::<char>::empty());
        assert(hex_texts(s) =~= Seq::<Seq<char>>::empty());
    } else {
        lemma_join_shape(s);
    }
    lemma_dcolon_none(hex_join(s), 0);
}

proof fn lemma_gap_fill(a: Seq<u16>, b: Seq<u16>, s: Seq<u16>, r0: int, r1: int)
    requires
        s.len() == 8,
        0 <= r0,
        0 <= r1,
        r0 + r1 <= 8,
        a == s.subrange(0, r0),
        b == s.subrange(r0 + r1, 8),
        forall|j: int| r0 <= j < r0 + r1 ==> s[j] == 0,
    ensures
        a + Seq::new((8 - a.len() - b.len()) as nat, |i: int| 0u16) + b == s,
{
    let z = Seq::new((8 - a.len() - b.len()) as nat, |i: int| 0u16);
    assert forall|j: int| 0 <= j < 8 implies #[trigger] (a + z + b)[j] == s[j] by {
        if j < r0 {
        } else if j < r0 + r1 {
            assert(s[j] == 0);
        } else {
        }
    }
    assert(a + z + b =~= s);
}

#[verifier::spinoff_prover]
#[verifier::rlimit(60)]
proof fn lemma_parse_gap(s: Seq<u16>, r0: int, r1: int)
    requires
        s.len() == 8,
        r1 >= 2,
        0 <= r0,
        r0 + r1 <= 8,
        forall|k: int| r0 <= k < r0 + r1 ==> #[trigger] s[k] == 0,
    ensures
        parse_addr(hex_join(s.subrange(0, r0)) + "::"@ + hex_join(s.subrange(r0 + r1, 8))) == Some(s),
{
    reveal_strlit("::");
    let a = s.subrange(0, r0);
    let b = s.subrange(r0 + r1, 8);
    let l = hex_join(a);
    let r = hex_join(b);
    let t = l + "::"@ + r;
    lemma_groups_of_join(a);
    lemma_groups_of_join(b);
    assert("::"@ == seq![':', ':']);
    assert(t == l + seq![':', ':'] + r);
    lemma_dcolon_at(l, r, 0);
    let k = l.len() as int;
    assert(dcolon_pos(t, 0) == k);
    assert(t.len() > 0);
    assert(t.subrange(0, k) =~= l);
    assert(t.subrange(k + 2, t.len() as int) =~= r);
    assert(dcolon_pos(r, 0) == r.len());
    lemma_parse_texts(a);
    lemma_parse_texts(b);
    assert(hex_texts(a).len() + hex_texts(b).len() <= 8);
    lemma_gap_fill(a, b, s, r0, r1);
}

#[verifier::spinoff_prover]
proof fn lemma_roundtrip_gap(o: Seq<u8>)
    requires
        o.len() == 16,
        best_zero_run(octets_to_segs(o)).1 != 0,
    ensures
        parse_addr(addr_text(o)) == Some(octets_to_segs(o)),
{
    let s = octets_to_segs(o);
    lemma_zero_scan(s, 0, 0, 0, 8, 0);
    let (r0, r1) = best_zero_run(s);
    lemma_parse_gap(s, r0, r1);
}

/// An address written in its text form (with the `::` abbreviation) reads
/// back as the same address.
#[verifier::spinoff_prover]
#[verifier::rlimit(60)]
pub proof fn law_display_parse_roundtrip(o: Seq<u8>)
    requires
        o.len() == 16,
    ensures
        parse_addr(addr_text(o)) == Some(octets_to_segs(o)),
        segs_to_octets(octets_to_segs(o)) == o,
{
    lemma_octets_segs(o);
    let s = octets_to_segs(o);
    lemma_zero_scan(s, 0, 0, 0, 8, 0);
    let (r0, r1) = best_zero_run(s);
    let t = addr_text(o);
    if r1 == 0 {
        lemma_join_shape(s);
        lemma_dcolon_none(t, 0);
        assert(hex_texts(s).len() == 8);
        lemma_parse_texts(s);
    } else {
        lemma_roundtrip_gap(o);
    }
}

} // verus!
