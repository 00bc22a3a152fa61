//! A small key-value database: entries kept sorted by key (byte order of
//! the UTF-8 text), prefix scans, and a compact binary image for storage.
use vstd::prelude::*;
use vstd::string::*;
use vstd::utf8::{encode_utf8, valid_utf8, decode_utf8};
use crate::text::{string_of, has_prefix, starts_with_str};

verus! {

// ---------------------------------------------------------------------------
// Byte order
// ---------------------------------------------------------------------------

/// Lexicographic order of byte strings (a proper prefix comes first).
pub open spec fn bytes_lt(a: Seq<u8>, b: Seq<u8>) -> bool
    decreases a.len(),
{
    if a.len() == 0 {
        b.len() > 0
    } else if b.len() == 0 {
        false
    } else if a[0] != b[0] {
        a[0] < b[0]
    } else {
        bytes_lt(a.drop_first(), b.drop_first())
    }
}

/// The order of keys: that of their UTF-8 bytes, as `str` compares.
pub open spec fn key_lt(a: Seq<char>, b: Seq<char>) -> bool {
    bytes_lt(encode_utf8(a), encode_utf8(b))
}

pub proof fn lemma_bytes_lt_irrefl(a: Seq<u8>)
    ensures
        !bytes_lt(a, a),
    decreases a.len(),
{
    if a.len() > 0 {
        lemma_bytes_lt_irrefl(a.drop_first());
    }
}

pub proof fn lemma_bytes_lt_trans(a: Seq<u8>, b: Seq<u8>, c: Seq<u8>)
    requires
        bytes_lt(a, b),
        bytes_lt(b, c),
    ensures
        bytes_lt(a, c),
    decreases a.len(),
{
    if a.len() > 0 && b.len() > 0 && c.len() > 0 && a[0] == b[0] && b[0] == c[0] {
        lemma_bytes_lt_trans(a.drop_first(), b.drop_first(), c.drop_first());
    }
}

pub proof fn lemma_bytes_lt_total(a: Seq<u8>, b: Seq<u8>)
    ensures
        a == b || bytes_lt(a, b) || bytes_lt(b, a),
    decreases a.len(),
{
    if a.len() > 0 && b.len() > 0 && a[0] == b[0] {
        lemma_bytes_lt_total(a.drop_first(), b.drop_first());
        if a.drop_first() == b.drop_first() {
            assert(a =~= seq![a[0]] + a.drop_first());
            assert(b =~= seq![b[0]] + b.drop_first());
        }
    } else if a.len() == 0 && b.len() == 0 {
        assert(a =~= b);
    }
}

pub proof fn lemma_bytes_lt_asym(a: Seq<u8>, b: Seq<u8>)
    requires
        bytes_lt(a, b),
    ensures
        !bytes_lt(b, a),
        a != b,
{
    lemma_bytes_lt_irrefl(a);
    if bytes_lt(b, a) {
        lemma_bytes_lt_trans(a, b, a);
    }
}

/// Keys are ordered strictly and totally.
pub proof fn lemma_key_order(a: Seq<char>, b: Seq<char>)
    ensures
        !key_lt(a, a),
        key_lt(a, b) ==> !key_lt(b, a),
        a == b || key_lt(a, b) || key_lt(b, a),
{
    broadcast use vstd::utf8::encode_utf8_decode_utf8;
    lemma_bytes_lt_irrefl(encode_utf8(a));
    if key_lt(a, b) {
        lemma_bytes_lt_asym(encode_utf8(a), encode_utf8(b));
    }
    lemma_bytes_lt_total(encode_utf8(a), encode_utf8(b));
    if encode_utf8(a) == encode_utf8(b) {
        assert(decode_utf8(encode_utf8(a)) == a);
        assert(decode_utf8(encode_utf8(b)) == b);
    }
}

pub proof fn lemma_key_trans(a: Seq<char>, b: Seq<char>, c: Seq<char>)
    requires
        key_lt(a, b),
        key_lt(b, c),
    ensures
        key_lt(a, c),
{
    lemma_bytes_lt_trans(encode_utf8(a), encode_utf8(b), encode_utf8(c));
}

/// Compares two byte strings: negative, zero or positive.
fn compare_bytes(a: &[u8], b: &[u8]) -> (r: i8)
    ensures
        r < 0 <==> bytes_lt(a@, b@),
        r == 0 <==> a@ == b@,
        r > 0 <==> bytes_lt(b@, a@),
{
    let n = a.len();
    let m = b.len();
    let mut i: usize = 0;
    assert(a@.subrange(0, n as int) =~= a@);
    assert(b@.subrange(0, m as int) =~= b@);
    assert(a@.subrange(0, 0) =~= b@.subrange(0, 0));
    while i < n && i < m
        invariant
            n == a@.len(),
            m == b@.len(),
            i <= n,
            i <= m,
            a@.subrange(0, i as int) == b@.subrange(0, i as int),
            bytes_lt(a@, b@) == bytes_lt(a@.subrange(i as int, n as int), b@.subrange(i as int, m as int)),
            bytes_lt(b@, a@) == bytes_lt(b@.subrange(i as int, m as int), a@.subrange(i as int, n as int)),
        decreases n - i,
    {
        let ghost ra = a@.subrange(i as int, n as int);
        let ghost rb = b@.subrange(i as int, m as int);
        assert(ra[0] == a@[i as int] && rb[0] == b@[i as int]);
        if a[i] != b[i] {
            proof {
                if a@ == b@ {
                    assert(a@[i as int] == b@[i as int]);
                }
            }
            if a[i] < b[i] {
                return -1;
            } else {
                return 1;
            }
        }
        assert(ra.drop_first() =~= a@.subrange(i + 1, n as int));
        assert(rb.drop_first() =~= b@.subrange(i + 1, m as int));
        assert(a@.subrange(0, i + 1) =~= a@.subrange(0, i as int).push(a@[i as int]));
        assert(b@.subrange(0, i + 1) =~= b@.subrange(0, i as int).push(b@[i as int]));
        i = i + 1;
    }
    if n == m {
        assert(a@ =~= a@.subrange(0, i as int));
        assert(b@ =~= b@.subrange(0, i as int));
        proof {
            lemma_bytes_lt_irrefl(a@);
        }
        0
    } else {
        proof {
            if a@ == b@ {
                assert(a@.len() == b@.len());
            }
        }
        if n < m { -1 } else { 1 }
    }
}

// ---------------------------------------------------------------------------
// The store
// ---------------------------------------------------------------------------

/// A sorted key-value store.
pub struct KvDb {
    name: String,
    entries: Vec<(String, Vec<u8>)>,
}

/// Entries as plain values.
pub open spec fn entries_of(v: Seq<(String, Vec<u8>)>) -> Seq<(Seq<char>, Seq<u8>)> {
    v.map_values(|e: (String, Vec<u8>)| (e.0@, e.1@))
}

/// Keys strictly increasing.
pub open spec fn sorted(es: Seq<(Seq<char>, Seq<u8>)>) -> bool {
    forall|i: int, j: int| 0 <= i < j < es.len() ==> #[trigger] key_lt(es[i].0, es[j].0)
}

/// Index of the first entry from `j` on whose key is not below `k` (the
/// length when none).
pub open spec fn lower_bound(es: Seq<(Seq<char>, Seq<u8>)>, k: Seq<char>, j: int) -> int
    decreases es.len() - j,
{
    if j < 0 || j >= es.len() {
        es.len() as int
    } else if !key_lt(es[j].0, k) {
        j
    } else {
        lower_bound(es, k, j + 1)
    }
}

/// The value stored under `k`.
pub open spec fn lookup(es: Seq<(Seq<char>, Seq<u8>)>, k: Seq<char>) -> Option<Seq<u8>> {
    let i = lower_bound(es, k, 0);
    if i < es.len() && es[i].0 == k { Some(es[i].1) } else { None }
}

/// The entries after storing `v` under `k`.
pub open spec fn set_result(es: Seq<(Seq<char>, Seq<u8>)>, k: Seq<char>, v: Seq<u8>) -> Seq<(Seq<char>, Seq<u8>)> {
    let i = lower_bound(es, k, 0);
    if i < es.len() && es[i].0 == k { es.update(i, (k, v)) } else { es.insert(i, (k, v)) }
}

/// The entries after deleting `k`.
pub open spec fn delete_result(es: Seq<(Seq<char>, Seq<u8>)>, k: Seq<char>) -> Seq<(Seq<char>, Seq<u8>)> {
    let i = lower_bound(es, k, 0);
    if i < es.len() && es[i].0 == k { es.remove(i) } else { es }
}

pub proof fn lemma_lower_bound_range(es: Seq<(Seq<char>, Seq<u8>)>, k: Seq<char>, j: int)
    requires
        0 <= j,
    ensures
        j <= lower_bound(es, k, j) <= es.len() || (j > es.len() && lower_bound(es, k, j) == es.len()),
        forall|i: int| j <= i < lower_bound(es, k, j) ==> key_lt(#[trigger] es[i].0, k),
        lower_bound(es, k, j) < es.len() ==> !key_lt(es[lower_bound(es, k, j)].0, k),
    decreases es.len() - j,
{
    if j < es.len() && key_lt(es[j].0, k) {
        lemma_lower_bound_range(es, k, j + 1);
    }
}

/// In a sorted table the lower bound is the first key not below `k`, the
/// keys before it are below `k` and those after it above.
pub proof fn lemma_lower_bound_sorted(es: Seq<(Seq<char>, Seq<u8>)>, k: Seq<char>)
    requires
        sorted(es),
    ensures
        0 <= lower_bound(es, k, 0) <= es.len(),
        forall|i: int| 0 <= i < lower_bound(es, k, 0) ==> key_lt(#[trigger] es[i].0, k),
        forall|i: int| lower_bound(es, k, 0) <= i < es.len() ==> !key_lt(#[trigger] es[i].0, k),
        forall|i: int| lower_bound(es, k, 0) < i < es.len() ==> key_lt(k, #[trigger] es[i].0),
{
    lemma_lower_bound_range(es, k, 0);
    let lb = lower_bound(es, k, 0);
    assert forall|i: int| lb <= i < es.len() implies !key_lt(#[trigger] es[i].0, k) by {
        if i > lb && key_lt(es[i].0, k) {
            assert(key_lt(es[lb].0, es[i].0));
            lemma_key_trans(es[lb].0, es[i].0, k);
        }
    }
    assert forall|i: int| lb < i < es.len() implies key_lt(k, #[trigger] es[i].0) by {
        assert(key_lt(es[lb].0, es[i].0));
        lemma_key_order(k, es[i].0);
        lemma_key_order(es[lb].0, k);
        if es[i].0 == k {
        } else if key_lt(es[i].0, k) {
        } else {
        }
        if k == es[i].0 {
            lemma_key_order(es[lb].0, es[i].0);
        }
    }
}

/// In a sorted table, `lookup` finds exactly the entries with key `k`.
pub proof fn lemma_lookup_sorted(es: Seq<(Seq<char>, Seq<u8>)>, k: Seq<char>)
    requires
        sorted(es),
    ensures
        lookup(es, k) is Some <==> exists|i: int| 0 <= i < es.len() && #[trigger] es[i].0 == k,
        forall|i: int| 0 <= i < es.len() && #[trigger] es[i].0 == k ==> lookup(es, k) == Some(es[i].1),
{
    lemma_lower_bound_sorted(es, k);
    let lb = lower_bound(es, k, 0);
    assert forall|i: int| 0 <= i < es.len() && #[trigger] es[i].0 == k implies i == lb by {
        lemma_key_order(k, k);
        if i < lb {
        } else if i > lb {
        }
    }
}

impl KvDb {
    /// The entries, sorted by key.
    pub closed spec fn entries(&self) -> Seq<(Seq<char>, Seq<u8>)> {
        entries_of(self.entries@)
    }

    /// The keys are strictly increasing at all times.
    #[verifier::type_invariant]
    spec fn keys_increasing(&self) -> bool {
        sorted(entries_of(self.entries@))
    }

    /// The database's name.
    pub closed spec fn name_view(&self) -> Seq<char> {
        self.name@
    }

    /// Create an empty database with the given name.
    pub fn new(name: &str) -> (db: Self)
        ensures
            db.name_view() == name@,
            db.entries() == Seq::<(Seq<char>, Seq<u8>)>::empty(),
            sorted(db.entries()),
    {
        let db = KvDb { name: string_of(name), entries: Vec::new() };
        assert(db.entries() =~= Seq::<(Seq<char>, Seq<u8>)>::empty());
        db
    }

    /// The database name.
    pub fn name(&self) -> (r: &str)
        ensures
            r@ == self.name_view(),
    {
        self.name.as_str()
    }

    /// Position of `key`: `Ok` when it is stored there, else `Err` with the
    /// place it would go.
    fn pos(&self, key: &str) -> (r: Result<usize, usize>)
        ensures
            match r {
                Ok(i) => i == lower_bound(self.entries(), key@, 0) && i < self.entries().len()
                    && self.entries()[i as int].0 == key@,
                Err(i) => i == lower_bound(self.entries(), key@, 0) && !(i < self.entries().len()
                    && self.entries()[i as int].0 == key@),
            },
    {
        proof {
            use_type_invariant(self);
        }
        let ghost es = self.entries();
        proof {
            lemma_lower_bound_sorted(es, key@);
        }
        let kb = key.as_bytes();
        let mut lo: usize = 0;
        let mut hi: usize = self.entries.len();
        while lo < hi
            invariant
                es == self.entries(),
                sorted(es),
                hi <= es.len(),
                es.len() == self.entries@.len(),
                lo <= hi,
                kb@ == encode_utf8(key@),
                forall|i: int| 0 <= i < lo ==> key_lt(#[trigger] es[i].0, key@),
                forall|i: int| hi <= i < es.len() ==> !key_lt(#[trigger] es[i].0, key@),
            decreases hi - lo,
        {
            let mid = lo + (hi - lo) / 2;
            let mb = self.entries[mid].0.as_str().as_bytes();
            assert(es[mid as int].0 == self.entries@[mid as int].0@);
            let c = compare_bytes(mb, kb);
            if c < 0 {
                proof {
                    assert forall|i: int| 0 <= i < mid + 1 implies key_lt(#[trigger] es[i].0, key@) by {
                        if i < mid {
                            assert(key_lt(es[i].0, es[mid as int].0));
                            lemma_key_trans(es[i].0, es[mid as int].0, key@);
                        }
                    }
                }
                lo = mid + 1;
            } else {
                proof {
                    assert forall|i: int| mid <= i < es.len() implies !key_lt(#[trigger] es[i].0, key@) by {
                        if i > mid {
                            assert(key_lt(es[mid as int].0, es[i].0));
                            if key_lt(es[i].0, key@) {
                                lemma_key_trans(es[mid as int].0, es[i].0, key@);
                            }
                        }
                    }
                }
                hi = mid;
            }
        }
        proof {
            lemma_lower_bound_range(es, key@, 0);
            let lb = lower_bound(es, key@, 0);
            if lb < lo {
                assert(key_lt(es[lb].0, key@));
            }
            if lb > lo {
                assert(key_lt(es[lo as int].0, key@));
            }
        }
        if lo < self.entries.len() {
            let b = self.entries[lo].0.as_str().as_bytes();
            assert(es[lo as int].0 == self.entries@[lo as int].0@);
            if compare_bytes(b, kb) == 0 {
                assert(es[lo as int].0 == key@) by {
                    broadcast use vstd::utf8::encode_utf8_decode_utf8;
                    assert(decode_utf8(encode_utf8(es[lo as int].0)) == es[lo as int].0);
                    assert(decode_utf8(encode_utf8(key@)) == key@);
                }
                return Ok(lo);
            }
        }
        Err(lo)
    }

    /// Look up a value by key.
    pub fn get(&self, key: &str) -> (r: Option<&[u8]>)
        ensures
            match r {
                Some(v) => lookup(self.entries(), key@) == Some(v@),
                None => lookup(self.entries(), key@) is None,
            },
    {
        match self.pos(key) {
            Ok(i) => {
                assert(self.entries()[i as int].1 == self.entries@[i as int].1@);
                Some(self.entries[i].1.as_slice())
            },
            Err(_) => None,
        }
    }

    /// Insert or update a key-value pair, keeping the keys sorted.
    pub fn set(&mut self, key: &str, value: &[u8])
        ensures
            sorted(final(self).entries()),
            final(self).entries() == set_result(old(self).entries(), key@, value@),
            final(self).name_view() == old(self).name_view(),
    {
        proof {
            use_type_invariant(&*self);
        }
        let ghost es = self.entries();
        proof {
            lemma_lower_bound_sorted(es, key@);
        }
        let p = self.pos(key);
        let mut v: Vec<(String, Vec<u8>)> = Vec::new();
        std::mem::swap(&mut v, &mut self.entries);
        assert(entries_of(v@) == es);
        match p {
            Ok(i) => {
                let ghost before = v@;
                let (k, _) = v.remove(i);
                let val = vstd::slice::slice_to_vec(value);
                v.insert(i, (k, val));
                assert(v@ =~= before.update(i as int, (k, val)));
                assert(entries_of(v@) =~= es.update(i as int, (key@, value@)));
                proof {
                    lemma_sorted_update(es, i as int, (key@, value@));
                }
            },
            Err(i) => {
                let e = (string_of(key), vstd::slice::slice_to_vec(value));
                v.insert(i, e);
                assert(entries_of(v@) =~= es.insert(i as int, (key@, value@)));
                proof {
                    lemma_sorted_insert(es, key@, value@);
                }
            },
        }
        self.entries = v;
    }

    /// Delete a key; true when it was there.
    pub fn delete(&mut self, key: &str) -> (r: bool)
        ensures
            sorted(final(self).entries()),
            r == (lookup(old(self).entries(), key@) is Some),
            final(self).entries() == delete_result(old(self).entries(), key@),
            final(self).name_view() == old(self).name_view(),
    {
        proof {
            use_type_invariant(&*self);
        }
        let ghost es = self.entries();
        match self.pos(key) {
            Ok(i) => {
                let mut v: Vec<(String, Vec<u8>)> = Vec::new();
                std::mem::swap(&mut v, &mut self.entries);
                assert(entries_of(v@) == es);
                v.remove(i);
                assert(entries_of(v@) =~= es.remove(i as int));
                assert(sorted(entries_of(v@))) by {
                    let t = es.remove(i as int);
                    assert forall|a: int, b: int| 0 <= a < b < t.len() implies #[trigger] key_lt(t[a].0, t[b].0) by {
                        let a0 = if a < i { a } else { a + 1 };
                        let b0 = if b < i { b } else { b + 1 };
                        assert(t[a] == es[a0] && t[b] == es[b0]);
                    }
                }
                self.entries = v;
                true
            },
            Err(_) => false,
        }
    }
}

/// The entries from `j` on, while their keys begin with `p`.
pub open spec fn scan_from(es: Seq<(Seq<char>, Seq<u8>)>, p: Seq<char>, j: int) -> Seq<(Seq<char>, Seq<u8>)>
    decreases es.len() - j,
{
    if j < 0 || j >= es.len() || !has_prefix(es[j].0, p) {
        Seq::empty()
    } else {
        seq![es[j]] + scan_from(es, p, j + 1)
    }
}

/// Bytes held by the keys (UTF-8) and values of the entries.
pub open spec fn total_bytes(es: Seq<(Seq<char>, Seq<u8>)>) -> nat
    decreases es.len(),
{
    if es.len() == 0 {
        0
    } else {
        total_bytes(es.drop_last()) + encode_utf8(es.last().0).len() + es.last().1.len()
    }
}

/// Magic bytes at the start of every image: `KVDB`.
pub open spec fn magic() -> Seq<u8> {
    seq![0x4Bu8, 0x56u8, 0x44u8, 0x42u8]
}

/// Version byte of the image format.
pub const VERSION: u8 = 1;

/// `x` as two little-endian bytes.
pub open spec fn le16(x: nat) -> Seq<u8> {
    seq![(x % 256) as u8, ((x / 256) % 256) as u8]
}

/// `x` as four little-endian bytes.
pub open spec fn le32(x: nat) -> Seq<u8> {
    seq![(x % 256) as u8, ((x / 256) % 256) as u8, ((x / 65536) % 256) as u8, ((x / 16777216) % 256) as u8]
}

/// One entry of an image: key length (16 bits), value length (32 bits),
/// key bytes, value bytes; lengths are taken modulo their width.
pub open spec fn entry_image(e: (Seq<char>, Seq<u8>)) -> Seq<u8> {
    let kb = encode_utf8(e.0);
    le16(kb.len() % 65536) + le32(e.1.len() % 4294967296) + kb + e.1
}

pub open spec fn entries_image(es: Seq<(Seq<char>, Seq<u8>)>) -> Seq<u8>
    decreases es.len(),
{
    if es.len() == 0 {
        Seq::empty()
    } else {
        entries_image(es.drop_last()) + entry_image(es.last())
    }
}

/// The image of a database: magic, version, entry count (32 bits), entries.
pub open spec fn image(es: Seq<(Seq<char>, Seq<u8>)>) -> Seq<u8> {
    magic() + seq![VERSION] + le32(es.len() % 4294967296) + entries_image(es)
}

/// The little-endian 16-bit number at `off`.
pub open spec fn le16_at(d: Seq<u8>, off: int) -> nat {
    (d[off] + d[off + 1] * 256) as nat
}

/// The little-endian 32-bit number at `off`.
pub open spec fn le32_at(d: Seq<u8>, off: int) -> nat {
    (d[off] + d[off + 1] * 256 + d[off + 2] * 65536 + d[off + 3] * 16777216) as nat
}

/// Reading `count` entries from `off` on.
pub open spec fn parse_entries(d: Seq<u8>, off: int, count: nat) -> Option<Seq<(Seq<char>, Seq<u8>)>>
    decreases count,
{
    if count == 0 {
        Some(Seq::empty())
    } else if off + 6 > d.len() {
        None
    } else {
        let klen = le16_at(d, off);
        let vlen = le32_at(d, off + 2);
        let o = off + 6;
        if o + klen + vlen > d.len() || !valid_utf8(d.subrange(o, o + klen)) {
            None
        } else {
            match parse_entries(d, o + klen + vlen, (count - 1) as nat) {
                Some(rest) => Some(seq![(decode_utf8(d.subrange(o, o + klen)), d.subrange(o + klen, o + klen + vlen))] + rest),
                None => None,
            }
        }
    }
}

/// What `deserialize` reads from an image.
pub open spec fn parse_image(d: Seq<u8>) -> Option<Seq<(Seq<char>, Seq<u8>)>> {
    if d.len() < 9 || d.subrange(0, 4) != magic() || d[4] != VERSION {
        None
    } else {
        parse_entries(d, 9, le32_at(d, 5))
    }
}

/// What `deserialize` accepts: a well-formed image whose keys are strictly
/// increasing, read as its entries.
pub open spec fn load_image(d: Seq<u8>) -> Option<Seq<(Seq<char>, Seq<u8>)>> {
    match parse_image(d) {
        Some(es) => if sorted(es) { Some(es) } else { None },
        None => None,
    }
}

/// `core::str::from_utf8`: the text of the bytes when they are valid
/// UTF-8. The contract claims that std accepts exactly the byte strings
/// that `vstd::utf8::valid_utf8` describes, and that the text's bytes are
/// the input.
#[verifier::external_body]
pub(crate) fn str_from_utf8(v: &[u8]) -> (r: Option<&str>)
    ensures
        r is Some <==> valid_utf8(v@),
        r matches Some(s) ==> s.spec_bytes() == v@,
{
    core::str::from_utf8(v).ok()
}

fn push_le16(buf: &mut Vec<u8>, x: u16)
    ensures
        final(buf)@ == old(buf)@ + le16(x as nat),
{
    buf.push((x % 256) as u8);
    buf.push((x / 256) as u8);
    assert(final(buf)@ =~= old(buf)@ + le16(x as nat));
}

fn push_le32(buf: &mut Vec<u8>, x: u32)
    ensures
        final(buf)@ == old(buf)@ + le32(x as nat),
{
    buf.push((x % 256) as u8);
    buf.push(((x / 256) % 256) as u8);
    buf.push(((x / 65536) % 256) as u8);
    buf.push((x / 16777216) as u8);
    assert(final(buf)@ =~= old(buf)@ + le32(x as nat));
}

fn push_bytes(buf: &mut Vec<u8>, b: &[u8])
    ensures
        final(buf)@ == old(buf)@ + b@,
{
    let mut i: usize = 0;
    while i < b.len()
        invariant
            i <= b@.len(),
            buf@ == old(buf)@ + b@.subrange(0, i as int),
        decreases b@.len() - i,
    {
        buf.push(b[i]);
        i = i + 1;
        assert(buf@ =~= old(buf)@ + b@.subrange(0, i as int));
    }
    assert(b@.subrange(0, b@.len() as int) =~= b@);
}

fn read_le16(d: &[u8], off: usize) -> (r: usize)
    requires
        off + 2 <= d@.len(),
    ensures
        r == le16_at(d@, off as int),
{
    (d[off] as usize) + (d[off + 1] as usize) * 256
}

fn read_le32(d: &[u8], off: usize) -> (r: u64)
    requires
        off + 4 <= d@.len(),
    ensures
        r == le32_at(d@, off as int),
{
    (d[off] as u64) + (d[off + 1] as u64) * 256 + (d[off + 2] as u64) * 65536 + (d[off + 3] as u64) * 16777216
}

impl KvDb {
    /// All keys, in order.
    pub fn keys(&self) -> (r: Vec<&str>)
        ensures
            r@.map_values(|k: &str| k@) == self.entries().map_values(|e: (Seq<char>, Seq<u8>)| e.0),
    {
        let mut out: Vec<&str> = Vec::new();
        let mut i: usize = 0;
        while i < self.entries.len()
            invariant
                i <= self.entries@.len(),
                out@.map_values(|k: &str| k@) == self.entries().subrange(0, i as int).map_values(|e: (Seq<char>, Seq<u8>)| e.0),
            decreases self.entries@.len() - i,
        {
            let ghost before = out@.map_values(|k: &str| k@);
            out.push(self.entries[i].0.as_str());
            assert(out@.map_values(|k: &str| k@) =~= before.push(self.entries@[i as int].0@));
            i = i + 1;
            assert(self.entries().subrange(0, i as int).map_values(|e: (Seq<char>, Seq<u8>)| e.0)
                =~= before.push(self.entries@[i - 1].0@));
        }
        assert(self.entries().subrange(0, self.entries@.len() as int) =~= self.entries());
        out
    }

    /// The entries whose key begins with `prefix`, in order: from the first
    /// key not below `prefix`, as long as the keys begin with it.
    pub fn scan(&self, prefix: &str) -> (r: Vec<(&str, &[u8])>)
        ensures
            r@.map_values(|e: (&str, &[u8])| (e.0@, e.1@)) == scan_from(self.entries(), prefix@,
                lower_bound(self.entries(), prefix@, 0)),
    {
        proof {
            use_type_invariant(self);
        }
        let ghost es = self.entries();
        let start = match self.pos(prefix) {
            Ok(i) => i,
            Err(i) => i,
        };
        proof {
            lemma_lower_bound_sorted(es, prefix@);
        }
        let mut out: Vec<(&str, &[u8])> = Vec::new();
        let mut j: usize = start;
        while j < self.entries.len()
            invariant_except_break
                es == self.entries(),
                start <= j <= self.entries@.len(),
                scan_from(es, prefix@, start as int)
                    == out@.map_values(|e: (&str, &[u8])| (e.0@, e.1@)) + scan_from(es, prefix@, j as int),
            ensures
                scan_from(es, prefix@, start as int) == out@.map_values(|e: (&str, &[u8])| (e.0@, e.1@)),
            decreases self.entries@.len() - j,
        {
            let k = self.entries[j].0.as_str();
            assert(es[j as int].0 == k@);
            if !starts_with_str(k, prefix) {
                assert(scan_from(es, prefix@, j as int) =~= Seq::<(Seq<char>, Seq<u8>)>::empty());
                assert(out@.map_values(|e: (&str, &[u8])| (e.0@, e.1@)) + Seq::<(Seq<char>, Seq<u8>)>::empty()
                    =~= out@.map_values(|e: (&str, &[u8])| (e.0@, e.1@)));
                break;
            }
            let ghost before = out@.map_values(|e: (&str, &[u8])| (e.0@, e.1@));
            out.push((k, self.entries[j].1.as_slice()));
            assert(es[j as int].1 == self.entries@[j as int].1@);
            assert(out@.map_values(|e: (&str, &[u8])| (e.0@, e.1@)) =~= before.push(es[j as int]));
            assert(before + scan_from(es, prefix@, j as int) =~= before.push(es[j as int]) + scan_from(es, prefix@, j + 1));
            j = j + 1;
        }
        proof {
            if j >= self.entries@.len() {
                let o = out@.map_values(|e: (&str, &[u8])| (e.0@, e.1@));
                assert(o + Seq::<(Seq<char>, Seq<u8>)>::empty() =~= o);
            }
        }
        out
    }

    /// `(number of keys, bytes of keys and values)`.
    pub fn stats(&self) -> (r: (usize, usize))
        requires
            total_bytes(self.entries()) <= usize::MAX,
        ensures
            r == (self.entries().len() as usize, total_bytes(self.entries()) as usize),
    {
        let ghost es = self.entries();
        let mut total: usize = 0;
        let mut i: usize = 0;
        while i < self.entries.len()
            invariant
                es == self.entries(),
                i <= es.len(),
                es.len() == self.entries@.len(),
                total_bytes(es) <= usize::MAX,
                total == total_bytes(es.subrange(0, i as int)),
            decreases es.len() - i,
        {
            proof {
                lemma_total_prefix(es, i + 1);
                assert(es.subrange(0, i + 1).drop_last() =~= es.subrange(0, i as int));
            }
            let k = self.entries[i].0.as_str();
            assert(es[i as int].0 == k@);
            total = total + k.len() + self.entries[i].1.len();
            i = i + 1;
        }
        assert(es.subrange(0, es.len() as int) =~= es);
        (self.entries.len(), total)
    }

    /// The image of the database: `KVDB`, the version, the entry count,
    /// then each entry (lengths are cut to 16 and 32 bits).
    pub fn serialize(&self) -> (buf: Vec<u8>)
        ensures
            buf@ == image(self.entries()),
    {
        let ghost es = self.entries();
        let mut buf: Vec<u8> = Vec::new();
        buf.push(0x4B);
        buf.push(0x56);
        buf.push(0x44);
        buf.push(0x42);
        buf.push(VERSION);
        let count = (self.entries.len() as u64 % 4294967296) as u32;
        push_le32(&mut buf, count);
        let ghost head = buf@;
        assert(head =~= magic() + seq![VERSION] + le32(es.len() % 4294967296));
        let mut i: usize = 0;
        while i < self.entries.len()
            invariant
                es == self.entries(),
                es.len() == self.entries@.len(),
                i <= es.len(),
                buf@ == head + entries_image(es.subrange(0, i as int)),
            decreases es.len() - i,
        {
            let kb = self.entries[i].0.as_str().as_bytes();
            let v = &self.entries[i].1;
            assert(es[i as int] == (self.entries@[i as int].0@, v@));
            push_le16(&mut buf, (kb.len() % 65536) as u16);
            push_le32(&mut buf, (v.len() as u64 % 4294967296) as u32);
            push_bytes(&mut buf, kb);
            push_bytes(&mut buf, v.as_slice());
            assert(es.subrange(0, i + 1).drop_last() =~= es.subrange(0, i as int));
            assert(buf@ =~= head + entries_image(es.subrange(0, i + 1)));
            i = i + 1;
        }
        assert(es.subrange(0, es.len() as int) =~= es);
        buf
    }

    /// Read a database back from an image; `None` when it is malformed or
    /// its keys are not strictly increasing. The name is left empty.
    pub fn deserialize(data: &[u8]) -> (r: Option<Self>)
        ensures
            match load_image(data@) {
                Some(es) => r matches Some(db) && db.entries() == es && db.name_view() == Seq::<char>::empty(),
                None => r is None,
            },
            r matches Some(db) ==> sorted(db.entries()),
    {
        if data.len() < 9 {
            return None;
        }
        if !(data[0] == 0x4B && data[1] == 0x56 && data[2] == 0x44 && data[3] == 0x42) {
            proof {
                if data@.subrange(0, 4) == magic() {
                    assert(data@.subrange(0, 4)[0] == data@[0]);
                    assert(data@.subrange(0, 4)[1] == data@[1]);
                    assert(data@.subrange(0, 4)[2] == data@[2]);
                    assert(data@.subrange(0, 4)[3] == data@[3]);
                }
            }
            return None;
        }
        assert(data@.subrange(0, 4) =~= magic());
        if data[4] != VERSION {
            return None;
        }
        let count = read_le32(data, 5);
        let mut entries: Vec<(String, Vec<u8>)> = Vec::new();
        let mut off: usize = 9;
        let mut n: u64 = 0;
        while n < count
            invariant
                9 <= off <= data@.len(),
                n <= count,
                count == le32_at(data@, 5),
                sorted(entries_of(entries@)),
                parse_image(data@) == match parse_entries(data@, off as int, (count - n) as nat) {
                    Some(rest) => Some(entries_of(entries@) + rest),
                    None => None::<Seq<(Seq<char>, Seq<u8>)>>,
                },
            decreases count - n,
        {
            let ghost rem = (count - n) as nat;
            if data.len() - off < 6 {
                return None;
            }
            let klen = read_le16(data, off);
            let vlen = read_le32(data, off + 2) as usize;
            let o = off + 6;
            if klen > data.len() - o || vlen > data.len() - o - klen {
                return None;
            }
            let key = match str_from_utf8(vstd::slice::slice_subrange(data, o, o + klen)) {
                Some(k) => k,
                None => {
                    return None;
                },
            };
            let val = vstd::slice::slice_to_vec(vstd::slice::slice_subrange(data, o + klen, o + klen + vlen));
            proof {
                vstd::utf8::encode_utf8_decode_utf8(key@);
                vstd::utf8::encode_utf8_valid_utf8(key@);
            }
            let ghost before = entries_of(entries@);
            let elen = entries.len();
            if elen > 0 {
                let last = entries[elen - 1].0.as_str().as_bytes();
                assert(before[elen - 1].0 == entries@[elen - 1].0@);
                if compare_bytes(last, key.as_bytes()) >= 0 {
                    proof {
                        let rest = parse_entries(data@, (o + klen + vlen) as int, (rem - 1) as nat);
                        if let Some(r) = rest {
                            let full = before + (seq![(key@, val@)] + r);
                            assert(full[elen - 1] == before[elen - 1]);
                            assert(full[elen as int] == (key@, val@));
                            assert(!key_lt(full[elen - 1].0, full[elen as int].0));
                            if sorted(full) {
                                assert(key_lt(full[elen - 1].0, full[elen as int].0));
                            }
                        }
                    }
                    return None;
                }
                proof {
                    assert forall|i: int, j: int| 0 <= i < j < before.len() + 1 implies
                        #[trigger] key_lt(before.push((key@, val@))[i].0, before.push((key@, val@))[j].0) by {
                        if j == before.len() && i < before.len() - 1 {
                            assert(key_lt(before[i].0, before[elen - 1].0));
                            lemma_key_trans(before[i].0, before[elen - 1].0, key@);
                        }
                    }
                }
            }
            entries.push((string_of(key), val));
            assert(entries_of(entries@) =~= before.push((key@, val@)));
            proof {
                let rest = parse_entries(data@, (o + klen + vlen) as int, (rem - 1) as nat);
                if let Some(r) = rest {
                    assert(before + (seq![(key@, val@)] + r) =~= before.push((key@, val@)) + r);
                }
            }
            off = o + klen + vlen;
            n = n + 1;
        }
        assert(parse_entries(data@, off as int, 0) == Some(Seq::<(Seq<char>, Seq<u8>)>::empty()));
        assert(entries_of(entries@) + Seq::<(Seq<char>, Seq<u8>)>::empty() =~= entries_of(entries@));
        let db = KvDb { name: String::new(), entries };
        assert(db.entries() == entries_of(db.entries@));
        Some(db)
    }

    /// A database read from the contents of its file (`None` when there is
    /// no file or it does not parse), named `name`.
    pub fn load_from_disk(name: &str, file: Option<&[u8]>) -> (r: Option<Self>)
        ensures
            match file {
                Some(d) => match load_image(d@) {
                    Some(es) => r matches Some(db) && db.entries() == es && db.name_view() == name@,
                    None => r is None,
                },
                None => r is None,
            },
            r matches Some(db) ==> sorted(db.entries()),
    {
        match file {
            Some(d) => match KvDb::deserialize(d) {
                Some(db) => {
                    proof {
                        use_type_invariant(&db);
                    }
                    let loaded = KvDb { name: string_of(name), entries: db.entries };
                    Some(loaded)
                },
                None => None,
            },
            None => None,
        }
    }
}

proof fn lemma_total_prefix(es: Seq<(Seq<char>, Seq<u8>)>, i: int)
    requires
        0 <= i <= es.len(),
    ensures
        total_bytes(es.subrange(0, i)) <= total_bytes(es),
    decreases es.len() - i,
{
    if i < es.len() {
        lemma_total_prefix(es, i + 1);
        assert(es.subrange(0, i + 1).drop_last() =~= es.subrange(0, i));
    } else {
        assert(es.subrange(0, i) =~= es);
    }
}

/// The file name of a database on disk: `kvdb_<name>`.
pub fn disk_filename(name: &str) -> (r: String)
    ensures
        r@ == "kvdb_"@ + name@,
{
    let mut s = string_of("kvdb_");
    s.append(name);
    s
}

/// A database read from its file, or a new empty one of that name.
pub fn open_or_new(name: &str, file: Option<&[u8]>) -> (db: KvDb)
    ensures
        match file {
            Some(d) if load_image(d@) is Some => db.entries() == load_image(d@)->0,
            _ => db.entries() == Seq::<(Seq<char>, Seq<u8>)>::empty(),
        },
        sorted(db.entries()),
        db.name_view() == name@,
{
    match KvDb::load_from_disk(name, file) {
        Some(db) => db,
        None => KvDb::new(name),
    }
}

/// The system database (OS configuration), from the contents of its file.
pub fn system_db(file: Option<&[u8]>) -> (db: KvDb)
    ensures
        match file {
            Some(d) if load_image(d@) is Some => db.entries() == load_image(d@)->0,
            _ => db.entries() == Seq::<(Seq<char>, Seq<u8>)>::empty(),
        },
        sorted(db.entries()),
        db.name_view() == "system"@,
{
    open_or_new("system", file)
}

/// The users database (accounts), from the contents of its file.
pub fn users_db(file: Option<&[u8]>) -> (db: KvDb)
    ensures
        match file {
            Some(d) if load_image(d@) is Some => db.entries() == load_image(d@)->0,
            _ => db.entries() == Seq::<(Seq<char>, Seq<u8>)>::empty(),
        },
        sorted(db.entries()),
        db.name_view() == "users"@,
{
    open_or_new("users", file)
}

proof fn lemma_sorted_update(es: Seq<(Seq<char>, Seq<u8>)>, i: int, e: (Seq<char>, Seq<u8>))
    requires
        sorted(es),
        0 <= i < es.len(),
        e.0 == es[i].0,
    ensures
        sorted(es.update(i, e)),
{
    let t = es.update(i, e);
    assert forall|a: int, b: int| 0 <= a < b < t.len() implies #[trigger] key_lt(t[a].0, t[b].0) by {
        assert(t[a].0 == es[a].0 && t[b].0 == es[b].0);
    }
}

proof fn lemma_sorted_insert(es: Seq<(Seq<char>, Seq<u8>)>, k: Seq<char>, v: Seq<u8>)
    requires
        sorted(es),
        !(lower_bound(es, k, 0) < es.len() && es[lower_bound(es, k, 0)].0 == k),
    ensures
        sorted(es.insert(lower_bound(es, k, 0), (k, v))),
{
    lemma_lower_bound_sorted(es, k);
    let i = lower_bound(es, k, 0);
    if i < es.len() {
        lemma_key_order(es[i].0, k);
    }
    let t = es.insert(i, (k, v));
    assert forall|a: int, b: int| 0 <= a < b < t.len() implies #[trigger] key_lt(t[a].0, t[b].0) by {
        if a < i && b < i {
            assert(t[a] == es[a] && t[b] == es[b]);
        } else if a < i && b == i {
            assert(t[a] == es[a]);
        } else if a < i {
            assert(t[a] == es[a] && t[b] == es[b - 1]);
        } else if a == i {
            assert(t[b] == es[b - 1]);
            if b - 1 == i {
            } else {
                assert(key_lt(k, es[b - 1].0));
            }
        } else {
            assert(t[a] == es[a - 1] && t[b] == es[b - 1]);
        }
    }
}

// ---------------------------------------------------------------------------
// Laws
// ---------------------------------------------------------------------------

/// What `set` stored is what `get` reads back; every other key keeps its
/// value; the keys stay sorted.
pub proof fn law_set_then_get(es: Seq<(Seq<char>, Seq<u8>)>, k: Seq<char>, v: Seq<u8>, other: Seq<char>)
    requires
        sorted(es),
    ensures
        sorted(set_result(es, k, v)),
        lookup(set_result(es, k, v), k) == Some(v),
        other != k ==> lookup(set_result(es, k, v), other) == lookup(es, other),
{
    lemma_lower_bound_sorted(es, k);
    let i = lower_bound(es, k, 0);
    let t = set_result(es, k, v);
    if i < es.len() && es[i].0 == k {
        lemma_sorted_update(es, i, (k, v));
    } else {
        lemma_sorted_insert(es, k, v);
    }
    lemma_lookup_sorted(t, k);
    assert(t[i] == (k, v));
    if other != k {
        if i < es.len() && es[i].0 == k {
            lemma_update_keeps_others(es, i, (k, v), other);
        } else {
            lemma_insert_keeps_others(es, i, (k, v), other);
        }
    }
}

proof fn lemma_same_lookup(es: Seq<(Seq<char>, Seq<u8>)>, t: Seq<(Seq<char>, Seq<u8>)>, other: Seq<char>)
    requires
        sorted(es),
        sorted(t),
        forall|j: int| 0 <= j < es.len() && #[trigger] es[j].0 == other ==> exists|j2: int| 0 <= j2 < t.len() && t[j2] == es[j],
        forall|j2: int| 0 <= j2 < t.len() && #[trigger] t[j2].0 == other ==> exists|j: int| 0 <= j < es.len() && es[j] == t[j2],
    ensures
        lookup(t, other) == lookup(es, other),
{
    lemma_lookup_sorted(t, other);
    lemma_lookup_sorted(es, other);
    if lookup(es, other) is Some {
        let j = choose|j: int| 0 <= j < es.len() && #[trigger] es[j].0 == other;
        let j2 = choose|j2: int| 0 <= j2 < t.len() && t[j2] == es[j];
        assert(t[j2].0 == other);
    } else if lookup(t, other) is Some {
        let j2 = choose|j2: int| 0 <= j2 < t.len() && #[trigger] t[j2].0 == other;
        let j = choose|j: int| 0 <= j < es.len() && es[j] == t[j2];
        assert(es[j].0 == other);
    }
}

proof fn lemma_update_keeps_others(es: Seq<(Seq<char>, Seq<u8>)>, i: int, e: (Seq<char>, Seq<u8>), other: Seq<char>)
    requires
        sorted(es),
        0 <= i < es.len(),
        es[i].0 == e.0,
        other != e.0,
    ensures
        lookup(es.update(i, e), other) == lookup(es, other),
{
    let t = es.update(i, e);
    lemma_sorted_update(es, i, e);
    assert forall|j: int| 0 <= j < es.len() && #[trigger] es[j].0 == other implies
        exists|j2: int| 0 <= j2 < t.len() && t[j2] == es[j] by {
        assert(t[j] == es[j]);
    }
    assert forall|j2: int| 0 <= j2 < t.len() && #[trigger] t[j2].0 == other implies
        exists|j: int| 0 <= j < es.len() && es[j] == t[j2] by {
        assert(es[j2] == t[j2]);
    }
    lemma_same_lookup(es, t, other);
}

proof fn lemma_insert_keeps_others(es: Seq<(Seq<char>, Seq<u8>)>, i: int, e: (Seq<char>, Seq<u8>), other: Seq<char>)
    requires
        sorted(es),
        i == lower_bound(es, e.0, 0),
        !(i < es.len() && es[i].0 == e.0),
        other != e.0,
    ensures
        lookup(es.insert(i, e), other) == lookup(es, other),
{
    lemma_lower_bound_sorted(es, e.0);
    lemma_sorted_insert(es, e.0, e.1);
    let t = es.insert(i, e);
    assert forall|j: int| 0 <= j < es.len() && #[trigger] es[j].0 == other implies
        exists|j2: int| 0 <= j2 < t.len() && t[j2] == es[j] by {
        if j < i {
            assert(t[j] == es[j]);
        } else {
            assert(t[j + 1] == es[j]);
        }
    }
    assert forall|j2: int| 0 <= j2 < t.len() && #[trigger] t[j2].0 == other implies
        exists|j: int| 0 <= j < es.len() && es[j] == t[j2] by {
        if j2 < i {
            assert(es[j2] == t[j2]);
        } else if j2 > i {
            assert(es[j2 - 1] == t[j2]);
        }
    }
    lemma_same_lookup(es, t, other);
}

/// After `delete` the key is gone and every other key keeps its value.
pub proof fn law_delete_then_get(es: Seq<(Seq<char>, Seq<u8>)>, k: Seq<char>, other: Seq<char>)
    requires
        sorted(es),
    ensures
        lookup(delete_result(es, k), k) is None,
        other != k ==> lookup(delete_result(es, k), other) == lookup(es, other),
{
    lemma_lower_bound_sorted(es, k);
    let i = lower_bound(es, k, 0);
    let t = delete_result(es, k);
    assert(sorted(t)) by {
        if i < es.len() && es[i].0 == k {
            assert forall|a: int, b: int| 0 <= a < b < t.len() implies #[trigger] key_lt(t[a].0, t[b].0) by {
                let a0 = if a < i { a } else { a + 1 };
                let b0 = if b < i { b } else { b + 1 };
                assert(t[a] == es[a0] && t[b] == es[b0]);
            }
        }
    }
    lemma_lookup_sorted(t, k);
    lemma_lookup_sorted(es, k);
    if i < es.len() && es[i].0 == k {
        assert forall|j: int| 0 <= j < t.len() implies #[trigger] t[j].0 != k by {
            if j < i {
                assert(t[j] == es[j]);
                lemma_key_order(k, k);
            } else {
                assert(t[j] == es[j + 1]);
                lemma_key_order(k, k);
            }
        }
    }
    if other != k {
        lemma_lookup_sorted(t, other);
        lemma_lookup_sorted(es, other);
        if i < es.len() && es[i].0 == k {
            if lookup(es, other) is Some {
                let j = choose|j: int| 0 <= j < es.len() && #[trigger] es[j].0 == other;
                let j2 = if j < i { j } else { j - 1 };
                assert(t[j2] == es[j]);
            } else if lookup(t, other) is Some {
                let j2 = choose|j2: int| 0 <= j2 < t.len() && #[trigger] t[j2].0 == other;
                let j = if j2 < i { j2 } else { j2 + 1 };
                assert(t[j2] == es[j]);
            }
        }
    }
}

proof fn lemma_le16(x: nat)
    requires
        x < 65536,
    ensures
        le16_at(le16(x), 0) == x,
{
    assert(le16(x)[0] == (x % 256) as u8 && le16(x)[1] == ((x / 256) % 256) as u8);
    assert((x % 256) + ((x / 256) % 256) * 256 == x) by (nonlinear_arith)
        requires
            x < 65536,
    ;
}

proof fn lemma_le32(x: nat)
    requires
        x < 4294967296,
    ensures
        le32_at(le32(x), 0) == x,
{
    let b = le32(x);
    assert(b[0] == (x % 256) as u8 && b[1] == ((x / 256) % 256) as u8);
    assert(b[2] == ((x / 65536) % 256) as u8 && b[3] == ((x / 16777216) % 256) as u8);
    assert((x % 256) + ((x / 256) % 256) * 256 + ((x / 65536) % 256) * 65536 + ((x / 16777216) % 256) * 16777216 == x)
        by (nonlinear_arith)
        requires
            x < 4294967296,
    ;
}

proof fn lemma_entries_image_front(es: Seq<(Seq<char>, Seq<u8>)>)
    requires
        es.len() > 0,
    ensures
        entries_image(es) == entry_image(es[0]) + entries_image(es.drop_first()),
    decreases es.len(),
{
    if es.len() == 1 {
        assert(es.drop_last() =~= Seq::<(Seq<char>, Seq<u8>)>::empty());
        assert(es.drop_first() =~= Seq::<(Seq<char>, Seq<u8>)>::empty());
        assert(entries_image(es) =~= entry_image(es[0]) + entries_image(es.drop_first()));
    } else {
        lemma_entries_image_front(es.drop_last());
        assert(es.drop_last().drop_first() =~= es.drop_first().drop_last());
        assert(es.drop_first().last() == es.last());
        assert(entries_image(es) =~= entry_image(es[0]) + entries_image(es.drop_first()));
    }
}

/// Whether every entry fits the image's length fields.
pub open spec fn fits_image(es: Seq<(Seq<char>, Seq<u8>)>) -> bool {
    &&& es.len() < 4294967296
    &&& forall|i: int| 0 <= i < es.len() ==> #[trigger] encode_utf8(es[i].0).len() < 65536 && es[i].1.len() < 4294967296
}

proof fn lemma_first_entry(d: Seq<u8>, off: int, e: (Seq<char>, Seq<u8>))
    requires
        0 <= off,
        off + entry_image(e).len() <= d.len(),
        forall|t: int| 0 <= t < entry_image(e).len() ==> d[off + t] == #[trigger] entry_image(e)[t],
        encode_utf8(e.0).len() < 65536,
        e.1.len() < 4294967296,
    ensures
        le16_at(d, off) == encode_utf8(e.0).len(),
        le32_at(d, off + 2) == e.1.len(),
        d.subrange(off + 6, off + 6 + encode_utf8(e.0).len()) == encode_utf8(e.0),
        d.subrange(off + 6 + encode_utf8(e.0).len(), off + 6 + encode_utf8(e.0).len() + e.1.len()) == e.1,
{
    let kb = encode_utf8(e.0);
    let ei = entry_image(e);
    assert(ei == le16(kb.len()) + le32(e.1.len()) + kb + e.1);
    lemma_le16(kb.len());
    lemma_le32(e.1.len());
    assert(le16_at(d, off) == le16_at(le16(kb.len()), 0)) by {
        assert(d[off] == ei[0] && d[off + 1] == ei[1]);
    }
    assert(le32_at(d, off + 2) == le32_at(le32(e.1.len()), 0)) by {
        assert(d[off + 2] == ei[2] && d[off + 3] == ei[3] && d[off + 4] == ei[4] && d[off + 5] == ei[5]);
    }
    let o = off + 6;
    assert(d.subrange(o, o + kb.len()) =~= kb) by {
        assert forall|t: int| 0 <= t < kb.len() implies d.subrange(o, o + kb.len())[t] == kb[t] by {
            assert(ei[6 + t] == kb[t]);
        }
    }
    assert(d.subrange(o + kb.len(), o + kb.len() + e.1.len()) =~= e.1) by {
        assert forall|t: int| 0 <= t < e.1.len() implies d.subrange(o + kb.len(), o + kb.len() + e.1.len())[t] == e.1[t] by {
            assert(ei[6 + kb.len() + t] == e.1[t]);
        }
    }
}

proof fn lemma_image_split(d: Seq<u8>, off: int, es: Seq<(Seq<char>, Seq<u8>)>)
    requires
        0 <= off,
        es.len() > 0,
        off + entries_image(es).len() <= d.len(),
        d.subrange(off, off + entries_image(es).len()) == entries_image(es),
    ensures
        entry_image(es[0]).len() == 6 + encode_utf8(es[0].0).len() + es[0].1.len(),
        off + entry_image(es[0]).len() <= d.len(),
        forall|t: int| 0 <= t < entry_image(es[0]).len() ==> d[off + t] == #[trigger] entry_image(es[0])[t],
        ({
            let off2 = off + entry_image(es[0]).len();
            &&& off2 + entries_image(es.drop_first()).len() <= d.len()
            &&& d.subrange(off2, off2 + entries_image(es.drop_first()).len()) == entries_image(es.drop_first())
        }),
{
    lemma_entries_image_front(es);
    let e = es[0];
    let ei = entry_image(e);
    let ri = entries_image(es.drop_first());
    let img = entries_image(es);
    assert(img == ei + ri);
    assert forall|t: int| 0 <= t < ei.len() implies d[off + t] == #[trigger] ei[t] by {
        assert(d.subrange(off, off + img.len())[t] == img[t]);
    }
    let off2 = off + ei.len();
    assert(d.subrange(off2, off2 + ri.len()) =~= ri) by {
        assert forall|t: int| 0 <= t < ri.len() implies d.subrange(off2, off2 + ri.len())[t] == ri[t] by {
            assert(d.subrange(off, off + img.len())[ei.len() + t] == img[ei.len() + t]);
        }
    }
}

#[verifier::spinoff_prover]
proof fn lemma_parse_entries(d: Seq<u8>, off: int, es: Seq<(Seq<char>, Seq<u8>)>)
    requires
        0 <= off,
        off + entries_image(es).len() <= d.len(),
        d.subrange(off, off + entries_image(es).len()) == entries_image(es),
        forall|i: int| 0 <= i < es.len() ==> #[trigger] encode_utf8(es[i].0).len() < 65536 && es[i].1.len() < 4294967296,
    ensures
        parse_entries(d, off, es.len()) == Some(es),
    decreases es.len(),
{
    if es.len() == 0 {
        assert(es =~= Seq::<(Seq<char>, Seq<u8>)>::empty());
    } else {
        let e = es[0];
        let rest = es.drop_first();
        assert(encode_utf8(e.0).len() < 65536 && e.1.len() < 4294967296);
        lemma_image_split(d, off, es);
        lemma_first_entry(d, off, e);
        let off2 = off + entry_image(e).len();
        assert forall|i: int| 0 <= i < rest.len() implies #[trigger] encode_utf8(rest[i].0).len() < 65536 && rest[i].1.len() < 4294967296 by {
            assert(rest[i] == es[i + 1]);
        }
        lemma_parse_entries(d, off2, rest);
        vstd::utf8::encode_utf8_valid_utf8(e.0);
        vstd::utf8::encode_utf8_decode_utf8(e.0);
        assert(seq![(e.0, e.1)] + rest =~= es);
    }
}

/// Reading back an image gives the database's entries (and a database
/// with strictly increasing keys is loaded as it was), for every database
/// whose keys are shorter than 64 KiB, values shorter than 4 GiB, and
/// entry count below 2^32.
pub proof fn law_image_roundtrip(es: Seq<(Seq<char>, Seq<u8>)>)
    requires
        fits_image(es),
    ensures
        parse_image(image(es)) == Some(es),
        sorted(es) ==> load_image(image(es)) == Some(es),
{
    lemma_image_parse(es);
}

#[verifier::spinoff_prover]
#[verifier::rlimit(40)]
proof fn lemma_image_parse(es: Seq<(Seq<char>, Seq<u8>)>)
    requires
        fits_image(es),
    ensures
        parse_image(image(es)) == Some(es),
{
    let d = image(es);
    let ei = entries_image(es);
    lemma_le32(es.len());
    lemma_header(es.len(), ei);
    assert(d == magic() + seq![VERSION] + le32(es.len()) + ei);
    lemma_parse_entries(d, 9, es);
}

proof fn lemma_header(n: nat, ei: Seq<u8>)
    requires
        n < 4294967296,
        le32_at(le32(n), 0) == n,
    ensures
        ({
            let d = magic() + seq![VERSION] + le32(n) + ei;
            &&& d.len() >= 9
            &&& d.subrange(0, 4) == magic()
            &&& d[4] == VERSION
            &&& le32_at(d, 5) == n
            &&& d.subrange(9, 9 + ei.len() as int) == ei
        }),
{
    let head = magic() + seq![VERSION] + le32(n);
    let d = head + ei;
    assert(head.len() == 9);
    assert(d.subrange(0, 4) =~= magic());
    assert(d[5] == le32(n)[0] && d[6] == le32(n)[1] && d[7] == le32(n)[2] && d[8] == le32(n)[3]);
    assert(d.subrange(9, 9 + ei.len() as int) =~= ei);
}

proof fn lemma_le_digits(n: nat)
    requires
        n < 4294967296,
    ensures
        le32(n)[0] as int + le32(n)[1] as int * 256 + le32(n)[2] as int * 65536 + le32(n)[3] as int * 16777216 == n,
        le32(n)[0] == n % 256,
        n < 65536 ==> le16(n)[0] as int + le16(n)[1] as int * 256 == n && le16(n)[0] == n % 256,
{
    assert(n % 256 + ((n / 256) % 256) * 256 + ((n / 65536) % 256) * 65536 + ((n / 16777216) % 256) * 16777216 == n)
        by (nonlinear_arith) requires n < 4294967296;
    if n < 65536 {
        assert(n % 256 + ((n / 256) % 256) * 256 == n) by (nonlinear_arith) requires n < 65536;
    }
}

/// The image begins `KVDB`, then the version byte, then the entry count
/// least significant byte first; each entry begins with its key length in
/// two bytes and its value length in four, least significant first.
#[verifier::spinoff_prover]
pub proof fn law_image_layout(es: Seq<(Seq<char>, Seq<u8>)>, e: (Seq<char>, Seq<u8>))
    requires
        es.len() < 4294967296,
        encode_utf8(e.0).len() < 65536,
        e.1.len() < 4294967296,
    ensures
        image(es)[0] == 0x4B && image(es)[1] == 0x56 && image(es)[2] == 0x44 && image(es)[3] == 0x42,
        image(es)[4] == VERSION,
        image(es)[5] as int + image(es)[6] as int * 256 + image(es)[7] as int * 65536 + image(es)[8] as int * 16777216
            == es.len(),
        image(es)[5] == es.len() % 256,
        entry_image(e)[0] == encode_utf8(e.0).len() % 256,
        entry_image(e)[0] as int + entry_image(e)[1] as int * 256 == encode_utf8(e.0).len(),
        entry_image(e)[2] as int + entry_image(e)[3] as int * 256 + entry_image(e)[4] as int * 65536
            + entry_image(e)[5] as int * 16777216 == e.1.len(),
{
    let n = es.len();
    let k = encode_utf8(e.0).len();
    let v = e.1.len();
    lemma_le_digits(n);
    lemma_le_digits(k);
    lemma_le_digits(v);
    let c = le32(n % 4294967296);
    assert(n % 4294967296 == n);
    let h = magic() + seq![VERSION] + c;
    let d = image(es);
    assert(d == h + entries_image(es));
    assert forall|j: int| 0 <= j < 9 implies #[trigger] d[j] == h[j] by {}
    assert(h[5] == c[0] && h[6] == c[1] && h[7] == c[2] && h[8] == c[3]);
    let kb = le16(k % 65536);
    let vb = le32(v % 4294967296);
    assert(k % 65536 == k && v % 4294967296 == v);
    let ei = entry_image(e);
    assert(ei == kb + vb + encode_utf8(e.0) + e.1);
    assert(ei[0] == kb[0] && ei[1] == kb[1] && ei[2] == vb[0] && ei[3] == vb[1] && ei[4] == vb[2] && ei[5] == vb[3]);
}

} // verus!
