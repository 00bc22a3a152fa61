//! A document store searched by bag-of-words embeddings and cosine
//! similarity in integer arithmetic.
use vstd::prelude::*;
use vstd::string::*;
use crate::text::{string_of, push_dec, push_sdec, dec, sdec, words, split_whitespace};

verus! {

/// Number of dimensions of an embedding.
pub const EMBED_DIM: usize = 128;

/// A stored document.
pub struct Document {
    pub id: u64,
    pub title: String,
    pub content: String,
    pub tags: Vec<String>,
    pub embedding: Vec<i32>,
}

/// A document as plain values.
pub struct DocModel {
    pub id: u64,
    pub title: Seq<char>,
    pub content: Seq<char>,
    pub tags: Seq<Seq<char>>,
    pub embedding: Seq<i32>,
}

impl View for Document {
    type V = DocModel;

    open spec fn view(&self) -> DocModel {
        DocModel {
            id: self.id,
            title: self.title@,
            content: self.content@,
            tags: self.tags@.map_values(|t: String| t@),
            embedding: self.embedding@,
        }
    }
}

/// A search hit: a copy of the document and its similarity (scaled by
/// 10 000).
pub struct SearchResult {
    pub document: Document,
    pub score: i64,
}

// ---------------------------------------------------------------------------
// Hashing and embeddings
// ---------------------------------------------------------------------------

/// ASCII upper-case letters folded to lower case.
pub open spec fn fold_case(b: u8) -> u8 {
    if 65 <= b <= 90 { (b + 32) as u8 } else { b }
}

/// DJB2 over case-folded bytes, with 32-bit wrap-around.
pub open spec fn djb2(bytes: Seq<u8>) -> u32
    decreases bytes.len(),
{
    if bytes.len() == 0 {
        5381
    } else {
        ((djb2(bytes.drop_last()) * 33 + fold_case(bytes.last())) % 4294967296) as u32
    }
}

/// The DJB2 hash of a word's UTF-8 bytes, ASCII case folded.
pub fn hash_word(word: &str) -> (r: usize)
    ensures
        r == djb2(word.spec_bytes()) as usize,
{
    let bytes = word.as_bytes();
    let mut hash: u32 = 5381;
    let mut i: usize = 0;
    while i < bytes.len()
        invariant
            i <= bytes@.len(),
            bytes@ == word.spec_bytes(),
            hash == djb2(bytes@.subrange(0, i as int)),
        decreases bytes@.len() - i,
    {
        let byte = bytes[i];
        let b: u8 = if byte >= 65 && byte <= 90 { byte + 32 } else { byte };
        let ghost pre = bytes@.subrange(0, i + 1);
        assert(pre.drop_last() =~= bytes@.subrange(0, i as int));
        let m = hash.wrapping_mul(33);
        proof {
            vstd::arithmetic::div_mod::lemma_add_mod_noop(hash * 33, b as int, 4294967296);
            assert((b as int) % 4294967296 == b as int);
            assert(m == (hash * 33) % 4294967296);
        }
        hash = m.wrapping_add(b as u32);
        i = i + 1;
    }
    assert(bytes@.subrange(0, bytes@.len() as int) =~= bytes@);
    hash as usize
}

/// `x + 1`, saturating at `i32::MAX`.
pub open spec fn sat_inc(x: i32) -> i32 {
    if x == i32::MAX { x } else { (x + 1) as i32 }
}

/// The embedding of a list of words: each word adds one (saturating) to
/// the dimension its hash falls in.
pub open spec fn embed_words(ws: Seq<Seq<char>>) -> Seq<i32>
    decreases ws.len(),
{
    if ws.len() == 0 {
        Seq::new(EMBED_DIM as nat, |i: int| 0i32)
    } else {
        let e = embed_words(ws.drop_last());
        let d = (djb2(vstd::utf8::encode_utf8(ws.last())) as usize % EMBED_DIM) as int;
        e.update(d, sat_inc(e[d]))
    }
}

proof fn lemma_embed_len(ws: Seq<Seq<char>>)
    ensures
        embed_words(ws).len() == EMBED_DIM,
    decreases ws.len(),
{
    if ws.len() > 0 {
        lemma_embed_len(ws.drop_last());
    }
}

/// The bag-of-words embedding of a text's whitespace-separated words.
pub fn embed_text(text: &str) -> (r: Vec<i32>)
    ensures
        r@ == embed_words(words(text@)),
{
    let mut v: Vec<i32> = vec![0i32; EMBED_DIM];
    assert(v@ =~= Seq::new(EMBED_DIM as nat, |i: int| 0i32));
    let ws = split_whitespace(text);
    let ghost wv = ws@.map_values(|w: String| w@);
    let n = ws.len();
    let mut i: usize = 0;
    while i < n
        invariant
            n == ws@.len(),
            wv == ws@.map_values(|w: String| w@),
            wv == words(text@),
            i <= n,
            v@ == embed_words(wv.subrange(0, i as int)),
            v@.len() == EMBED_DIM,
        decreases n - i,
    {
        let ghost pre = wv.subrange(0, i + 1);
        assert(pre.drop_last() =~= wv.subrange(0, i as int));
        assert(pre.last() == ws@[i as int]@);
        let dim = hash_word(ws[i].as_str()) % EMBED_DIM;
        let cur = v[dim];
        let nv = if cur == i32::MAX { cur } else { cur + 1 };
        v.set(dim, nv);
        i = i + 1;
        proof {
            lemma_embed_len(wv.subrange(0, i - 1));
        }
    }
    assert(wv.subrange(0, n as int) =~= wv);
    v
}

// ---------------------------------------------------------------------------
// Similarity
// ---------------------------------------------------------------------------

/// Whether `r` is the integer square root of `n`.
pub open spec fn is_isqrt(n: int, r: int) -> bool {
    0 <= r && r * r <= n < (r + 1) * (r + 1)
}

proof fn lemma_isqrt_step(n: int, s: int, x: int)
    requires
        n >= 1,
        is_isqrt(n, s),
        x >= 1,
    ensures
        (x + n / x) / 2 >= s,
{
    let q = n / x;
    let r = n % x;
    vstd::arithmetic::div_mod::lemma_fundamental_div_mod(n, x);
    assert(0 <= r < x) by {
        vstd::arithmetic::div_mod::lemma_mod_bound(n, x);
    }
    if x + q <= 2 * s - 1 {
        assert(n < s * s) by (nonlinear_arith)
            requires
                n == x * q + r,
                0 <= r < x,
                x + q <= 2 * s - 1,
                x >= 1,
                s >= 0,
        ;
    }
}

proof fn lemma_isqrt_exit(n: int, s: int, x: int)
    requires
        n >= 1,
        is_isqrt(n, s),
        x >= s + 1,
    ensures
        (x + n / x) / 2 < x,
{
    let q = n / x;
    let r = n % x;
    vstd::arithmetic::div_mod::lemma_fundamental_div_mod(n, x);
    assert(0 <= r < x) by {
        vstd::arithmetic::div_mod::lemma_mod_bound(n, x);
    }
    assert(q <= x - 1) by (nonlinear_arith)
        requires
            n == x * q + r,
            0 <= r < x,
            x >= s + 1,
            n < (s + 1) * (s + 1),
            s >= 0,
    ;
}

proof fn lemma_isqrt_exists(n: int) -> (s: int)
    requires
        n >= 0,
    ensures
        is_isqrt(n, s),
    decreases n,
{
    if n == 0 {
        assert(is_isqrt(0, 0)) by (nonlinear_arith);
        0
    } else {
        let t = lemma_isqrt_exists(n - 1);
        if (t + 1) * (t + 1) <= n {
            assert(is_isqrt(n, t + 1)) by (nonlinear_arith)
                requires
                    n - 1 < (t + 1) * (t + 1),
                    (t + 1) * (t + 1) <= n,
                    t >= 0,
            ;
            t + 1
        } else {
            assert(is_isqrt(n, t)) by (nonlinear_arith)
                requires
                    t * t <= n - 1,
                    n < (t + 1) * (t + 1),
                    t >= 0,
            ;
            t
        }
    }
}

proof fn lemma_isqrt_unique(n: int, a: int, b: int)
    requires
        is_isqrt(n, a),
        is_isqrt(n, b),
    ensures
        a == b,
{
    if a < b {
        assert((a + 1) * (a + 1) <= b * b) by (nonlinear_arith)
            requires
                0 <= a < b,
        ;
    } else if b < a {
        assert((b + 1) * (b + 1) <= a * a) by (nonlinear_arith)
            requires
                0 <= b < a,
        ;
    }
}

/// The integer square root (0 for `n <= 0`).
pub open spec fn floor_sqrt(n: int) -> int {
    if n <= 0 { 0 } else { choose|r: int| is_isqrt(n, r) }
}

/// Integer square root by Newton's method.
fn isqrt(n: i64) -> (r: i64)
    requires
        n < i64::MAX,
    ensures
        r == floor_sqrt(n as int),
        n > 0 ==> r >= 1,
{
    if n <= 0 {
        return 0;
    }
    let ghost s = lemma_isqrt_exists(n as int);
    proof {
        let c = choose|r: int| is_isqrt(n as int, r);
        lemma_isqrt_unique(n as int, s, c);
    }
    if n == 1 {
        assert(is_isqrt(1, 1));
        proof {
            lemma_isqrt_unique(1, s, 1);
        }
        return 1;
    }
    assert(s >= 1 && s <= n) by (nonlinear_arith)
        requires
            is_isqrt(n as int, s),
            n >= 2,
    ;
    let mut x: i64 = n;
    let mut y: i64 = (x + 1) / 2;
    proof {
        assert(n / n == 1) by {
            vstd::arithmetic::div_mod::lemma_div_by_self(n as int);
        }
        lemma_isqrt_step(n as int, s, n as int);
    }
    while y < x
        invariant
            n >= 2,
            n < i64::MAX,
            is_isqrt(n as int, s),
            1 <= s <= x,
            s <= y,
            1 <= x <= n,
            y == (x + n / x) / 2,
            y <= (n + 1) / 2,
        decreases x,
    {
        x = y;
        let q = n / x;
        assert(x + q <= n + 1) by (nonlinear_arith)
            requires
                1 <= x <= (n + 1) / 2,
                q == n / x,
                n >= 2,
        ;
        assert(q <= n) by (nonlinear_arith)
            requires
                1 <= x,
                q == n / x,
                n >= 2,
        ;
        y = (x + q) / 2;
        proof {
            lemma_isqrt_step(n as int, s, x as int);
        }
    }
    assert(x == s) by {
        if x > s {
            lemma_isqrt_exit(n as int, s, x as int);
        }
    }
    x
}

/// `a[0..k] . b[0..k]`.
pub open spec fn dot_upto(a: Seq<i32>, b: Seq<i32>, k: int) -> int
    decreases k,
{
    if k <= 0 { 0 } else { dot_upto(a, b, k - 1) + a[k - 1] * b[k - 1] }
}

/// The number of dimensions two vectors share.
pub open spec fn common_len(a: Seq<i32>, b: Seq<i32>) -> int {
    if a.len() < b.len() { a.len() as int } else { b.len() as int }
}

/// Whether the sums `cosine_similarity` forms stay within 64 bits (and
/// below the largest 64-bit value, where the square root would overflow).
pub open spec fn cosine_fits(a: Seq<i32>, b: Seq<i32>) -> bool {
    let n = common_len(a, b);
    &&& forall|k: int| 0 <= k <= n ==> i64::MIN <= #[trigger] dot_upto(a, b, k) <= i64::MAX
    &&& dot_upto(a, a, n) < i64::MAX
    &&& dot_upto(b, b, n) < i64::MAX
    &&& i64::MIN <= dot_upto(a, b, n) * 10000 <= i64::MAX
}

/// Integer division rounding toward zero.
pub open spec fn div_trunc(a: int, d: int) -> int {
    if a >= 0 { a / d } else { -((-a) / d) }
}

/// The cosine similarity scaled by 10 000: 0 when a vector is empty or
/// zero, else `dot * 10000 / (isqrt(|a|^2) * isqrt(|b|^2))` rounded
/// toward zero.
pub open spec fn cosine(a: Seq<i32>, b: Seq<i32>) -> int {
    let n = common_len(a, b);
    let ma = dot_upto(a, a, n);
    let mb = dot_upto(b, b, n);
    if n == 0 || ma == 0 || mb == 0 {
        0
    } else {
        div_trunc(dot_upto(a, b, n) * 10000, floor_sqrt(ma) * floor_sqrt(mb))
    }
}

proof fn lemma_squares_mono(a: Seq<i32>, k: int, n: int)
    requires
        0 <= k <= n,
    ensures
        0 <= dot_upto(a, a, k) <= dot_upto(a, a, n),
    decreases n,
{
    if k < n {
        lemma_squares_mono(a, k, n - 1);
        assert(a[n - 1] * a[n - 1] >= 0) by (nonlinear_arith);
    } else if k > 0 {
        lemma_squares_mono(a, k - 1, k - 1);
        assert(a[k - 1] * a[k - 1] >= 0) by (nonlinear_arith);
    }
}

/// The cosine similarity of two vectors, scaled by 10 000.
pub fn cosine_similarity(a: &[i32], b: &[i32]) -> (r: i64)
    requires
        cosine_fits(a@, b@),
    ensures
        r == cosine(a@, b@),
{
    let len = if a.len() < b.len() { a.len() } else { b.len() };
    if len == 0 {
        return 0;
    }
    let mut dot: i64 = 0;
    let mut mag_a: i64 = 0;
    let mut mag_b: i64 = 0;
    let mut i: usize = 0;
    while i < len
        invariant
            len == common_len(a@, b@),
            i <= len,
            cosine_fits(a@, b@),
            dot == dot_upto(a@, b@, i as int),
            mag_a == dot_upto(a@, a@, i as int),
            mag_b == dot_upto(b@, b@, i as int),
        decreases len - i,
    {
        let ai = a[i] as i64;
        let bi = b[i] as i64;
        proof {
            lemma_squares_mono(a@, i + 1, len as int);
            lemma_squares_mono(b@, i + 1, len as int);
            assert(i64::MIN <= dot_upto(a@, b@, i + 1) <= i64::MAX);
            assert(ai * bi >= i64::MIN && ai * bi <= i64::MAX) by (nonlinear_arith)
                requires
                    i32::MIN <= ai <= i32::MAX,
                    i32::MIN <= bi <= i32::MAX,
            ;
            assert(ai * ai <= i64::MAX && bi * bi <= i64::MAX) by (nonlinear_arith)
                requires
                    i32::MIN <= ai <= i32::MAX,
                    i32::MIN <= bi <= i32::MAX,
            ;
        }
        dot = dot + ai * bi;
        mag_a = mag_a + ai * ai;
        mag_b = mag_b + bi * bi;
        i = i + 1;
    }
    if mag_a == 0 || mag_b == 0 {
        return 0;
    }
    proof {
        lemma_squares_mono(a@, len as int, len as int);
        lemma_squares_mono(b@, len as int, len as int);
    }
    let sa = isqrt(mag_a);
    let sb = isqrt(mag_b);
    proof {
        assert(sa * sa <= mag_a) by {
            let c = choose|r: int| is_isqrt(mag_a as int, r);
            let t = lemma_isqrt_exists(mag_a as int);
            lemma_isqrt_unique(mag_a as int, t, c);
        }
        assert(sb * sb <= mag_b) by {
            let c = choose|r: int| is_isqrt(mag_b as int, r);
            let t = lemma_isqrt_exists(mag_b as int);
            lemma_isqrt_unique(mag_b as int, t, c);
        }
        assert(sa * sb <= i64::MAX) by (nonlinear_arith)
            requires
                1 <= sa,
                1 <= sb,
                sa * sa <= mag_a,
                sb * sb <= mag_b,
                mag_a < i64::MAX,
                mag_b < i64::MAX,
        ;
    }
    assert(sa * sb >= 1) by (nonlinear_arith)
        requires
            1 <= sa,
            1 <= sb,
    ;
    let denom = sa * sb;
    let num = dot * 10000;
    if num >= 0 {
        num / denom
    } else {
        assert(num != i64::MIN);
        0 - ((0 - num) / denom)
    }
}

// ---------------------------------------------------------------------------
// The store
// ---------------------------------------------------------------------------

/// The documents and the id the next one gets.
pub struct KnowledgeBase {
    pub documents: Vec<Document>,
    pub next_id: u64,
}

/// The documents other than those with the given id.
pub open spec fn without_id(ds: Seq<DocModel>, id: u64) -> Seq<DocModel>
    decreases ds.len(),
{
    if ds.len() == 0 {
        ds
    } else {
        let rest = without_id(ds.drop_last(), id);
        if ds.last().id == id { rest } else { rest.push(ds.last()) }
    }
}

proof fn lemma_without_id_len(ds: Seq<DocModel>, id: u64)
    ensures
        without_id(ds, id).len() <= ds.len(),
    decreases ds.len(),
{
    if ds.len() > 0 {
        lemma_without_id_len(ds.drop_last(), id);
    }
}

/// Documents as plain values.
pub open spec fn docs_view(v: Seq<Document>) -> Seq<DocModel> {
    v.map_values(|d: Document| d@)
}

fn copy_strings(v: &Vec<String>) -> (r: Vec<String>)
    ensures
        r@.map_values(|t: String| t@) == v@.map_values(|t: String| t@),
{
    let mut out: Vec<String> = Vec::new();
    let mut i: usize = 0;
    while i < v.len()
        invariant
            i <= v@.len(),
            out@.map_values(|t: String| t@) == v@.subrange(0, i as int).map_values(|t: String| t@),
        decreases v@.len() - i,
    {
        let ghost before = out@.map_values(|t: String| t@);
        out.push(v[i].clone());
        assert(out@.map_values(|t: String| t@) =~= before.push(v@[i as int]@));
        i = i + 1;
        assert(v@.subrange(0, i as int).map_values(|t: String| t@) =~= before.push(v@[i - 1]@));
    }
    assert(v@.subrange(0, v@.len() as int) =~= v@);
    out
}

fn copy_document(d: &Document) -> (r: Document)
    ensures
        r@ == d@,
{
    Document {
        id: d.id,
        title: d.title.clone(),
        content: d.content.clone(),
        tags: copy_strings(&d.tags),
        embedding: vstd::slice::slice_to_vec(d.embedding.as_slice()),
    }
}

impl KnowledgeBase {
    pub open spec fn docs(&self) -> Seq<DocModel> {
        docs_view(self.documents@)
    }

    /// An empty store whose first document gets id 1.
    pub fn new() -> (kb: Self)
        ensures
            kb.docs().len() == 0,
            kb.next_id == 1,
    {
        KnowledgeBase { documents: Vec::new(), next_id: 1 }
    }

    /// Store a document, embedding its title and content; returns its id.
    /// Ids count up from 1, wrapping around after `u64::MAX`.
    pub fn add_document(&mut self, title: &str, content: &str, tags: Vec<String>) -> (id: u64)
        ensures
            id == old(self).next_id,
            final(self).next_id == crate::libc::wrap_inc(old(self).next_id),
            final(self).docs() == old(self).docs().push(DocModel {
                id,
                title: title@,
                content: content@,
                tags: tags@.map_values(|t: String| t@),
                embedding: embed_words(words(title@ + " "@ + content@)),
            }),
    {
        let id = self.next_id;
        self.next_id = crate::libc::inc_wrapping(id);
        let mut combined = string_of(title);
        combined.append(" ");
        combined.append(content);
        let embedding = embed_text(combined.as_str());
        let doc = Document { id, title: string_of(title), content: string_of(content), tags, embedding };
        let ghost d0 = self.docs();
        self.documents.push(doc);
        assert(self.docs() =~= d0.push(doc@));
        id
    }

    /// Delete every document with the given id; true when one was there.
    pub fn delete_document(&mut self, id: u64) -> (r: bool)
        ensures
            final(self).next_id == old(self).next_id,
            final(self).docs() == without_id(old(self).docs(), id),
            r == (final(self).docs().len() < old(self).docs().len()),
    {
        let before = self.documents.len();
        let ghost d0 = self.docs();
        let mut kept: Vec<Document> = Vec::new();
        while self.documents.len() > 0
            invariant
                d0 == old(self).docs(),
                self.next_id == old(self).next_id,
                without_id(d0, id) == without_id(self.docs(), id) + docs_view(kept@),
            decreases self.documents@.len(),
        {
            let ghost cur = self.docs();
            let ghost acc = docs_view(kept@);
            let d = self.documents.pop().unwrap();
            assert(cur.drop_last() =~= self.docs());
            assert(cur.last() == d@);
            if d.id != id {
                assert(without_id(cur, id) == without_id(self.docs(), id).push(d@));
                kept.insert(0, d);
                assert(docs_view(kept@) =~= seq![d@] + acc);
                assert(without_id(self.docs(), id).push(d@) + acc
                    =~= without_id(self.docs(), id) + (seq![d@] + acc));
            } else {
                assert(without_id(cur, id) == without_id(self.docs(), id));
            }
        }
        assert(without_id(self.docs(), id) =~= Seq::<DocModel>::empty());
        self.documents = kept;
        assert(without_id(d0, id) =~= self.docs());
        proof {
            lemma_without_id_len(d0, id);
        }
        self.documents.len() < before
    }

    /// The stored documents, in the order they were added.
    pub fn list_documents(&self) -> (r: Vec<&Document>)
        ensures
            r@.map_values(|d: &Document| d@) == self.docs(),
    {
        let mut out: Vec<&Document> = Vec::new();
        let mut i: usize = 0;
        while i < self.documents.len()
            invariant
                i <= self.documents@.len(),
                out@.map_values(|d: &Document| d@) == self.docs().subrange(0, i as int),
            decreases self.documents@.len() - i,
        {
            let ghost before = out@.map_values(|d: &Document| d@);
            out.push(&self.documents[i]);
            assert(out@.map_values(|d: &Document| d@) =~= before.push(self.documents@[i as int]@));
            i = i + 1;
            assert(self.docs().subrange(0, i as int) =~= before.push(self.docs()[i - 1]));
        }
        assert(self.docs().subrange(0, self.documents@.len() as int) =~= self.docs());
        out
    }

    /// How many documents are stored.
    pub fn len(&self) -> (r: usize)
        ensures
            r == self.docs().len(),
    {
        self.documents.len()
    }

    /// Whether no document is stored.
    pub fn is_empty(&self) -> (r: bool)
        ensures
            r == (self.docs().len() == 0),
    {
        self.documents.len() == 0
    }
}

/// Search results as plain values.
pub open spec fn results_view(v: Seq<SearchResult>) -> Seq<(DocModel, i64)> {
    v.map_values(|r: SearchResult| (r.document@, r.score))
}

/// Index of the first result from `j` on scoring below `score` (the length
/// when none).
pub open spec fn first_below(s: Seq<(DocModel, i64)>, score: i64, j: int) -> int
    decreases s.len() - j,
{
    if j < 0 || j >= s.len() {
        s.len() as int
    } else if s[j].1 < score {
        j
    } else {
        first_below(s, score, j + 1)
    }
}

/// The results sorted by descending score, equal scores kept in their
/// original order (a stable sort).
pub open spec fn sort_desc(s: Seq<(DocModel, i64)>) -> Seq<(DocModel, i64)>
    decreases s.len(),
{
    if s.len() == 0 {
        s
    } else {
        let r = sort_desc(s.drop_last());
        r.insert(first_below(r, s.last().1, 0), s.last())
    }
}

proof fn lemma_first_below(s: Seq<(DocModel, i64)>, score: i64, j: int)
    requires
        0 <= j <= s.len(),
    ensures
        j <= first_below(s, score, j) <= s.len(),
    decreases s.len() - j,
{
    if j < s.len() && s[j].1 >= score {
        lemma_first_below(s, score, j + 1);
    }
}

proof fn lemma_sort_len(s: Seq<(DocModel, i64)>)
    ensures
        sort_desc(s).len() == s.len(),
    decreases s.len(),
{
    if s.len() > 0 {
        lemma_sort_len(s.drop_last());
        lemma_first_below(sort_desc(s.drop_last()), s.last().1, 0);
    }
}

/// The documents with their similarity to the query embedding `q`.
pub open spec fn scored(docs: Seq<DocModel>, q: Seq<i32>) -> Seq<(DocModel, i64)> {
    docs.map_values(|d: DocModel| (d, cosine(q, d.embedding) as i64))
}

/// Whether every document's similarity to `q` can be computed.
pub open spec fn all_fit(docs: Seq<DocModel>, q: Seq<i32>) -> bool {
    forall|i: int| 0 <= i < docs.len() ==> #[trigger] cosine_fits(q, docs[i].embedding)
}

/// The `k` best results of `s` (all of them when fewer).
pub open spec fn best(s: Seq<(DocModel, i64)>, k: usize) -> Seq<(DocModel, i64)> {
    if k < s.len() { s.subrange(0, k as int) } else { s }
}

fn find_slot(v: &Vec<SearchResult>, score: i64) -> (r: usize)
    ensures
        r == first_below(results_view(v@), score, 0),
        r <= v@.len(),
{
    let ghost s = results_view(v@);
    let mut j: usize = 0;
    while j < v.len()
        invariant
            s == results_view(v@),
            j <= v@.len(),
            first_below(s, score, 0) == first_below(s, score, j as int),
        decreases v@.len() - j,
    {
        assert(s[j as int].1 == v@[j as int].score);
        if v[j].score < score {
            return j;
        }
        j = j + 1;
    }
    j
}

impl KnowledgeBase {
    /// The `top_k` documents most similar to `query`, best first (equal
    /// scores in the order the documents were added).
    pub fn search(&self, query: &str, top_k: usize) -> (r: Vec<SearchResult>)
        requires
            all_fit(self.docs(), embed_words(words(query@))),
        ensures
            results_view(r@) == best(sort_desc(scored(self.docs(), embed_words(words(query@)))), top_k),
    {
        let qe = embed_text(query);
        let ghost sc = scored(self.docs(), qe@);
        let mut results: Vec<SearchResult> = Vec::new();
        let n = self.documents.len();
        let mut i: usize = 0;
        while i < n
            invariant
                n == self.documents@.len(),
                sc == scored(self.docs(), qe@),
                all_fit(self.docs(), qe@),
                i <= n,
                results_view(results@) == sort_desc(sc.subrange(0, i as int)),
            decreases n - i,
        {
            let ghost pre = sc.subrange(0, i + 1);
            assert(pre.drop_last() =~= sc.subrange(0, i as int));
            let d = &self.documents[i];
            assert(self.docs()[i as int] == d@);
            assert(cosine_fits(qe@, self.docs()[i as int].embedding));
            let score = cosine_similarity(qe.as_slice(), d.embedding.as_slice());
            assert(pre.last() == (d@, score));
            let pos = find_slot(&results, score);
            let ghost before = results_view(results@);
            results.insert(pos, SearchResult { document: copy_document(d), score });
            assert(results_view(results@) =~= before.insert(pos as int, (d@, score)));
            i = i + 1;
        }
        assert(sc.subrange(0, n as int) =~= sc);
        proof {
            lemma_sort_len(sc);
        }
        let ghost all = results_view(results@);
        results.truncate(top_k);
        assert(results_view(results@) =~= best(all, top_k));
        results
    }
}

// ---------------------------------------------------------------------------
// Report
// ---------------------------------------------------------------------------

/// Tags separated by `, `, or `none`.
pub open spec fn tags_text(t: Seq<Seq<char>>) -> Seq<char> {
    if t.len() == 0 { "none"@ } else { join_comma(t) }
}

/// Texts separated by `, `.
pub open spec fn join_comma(t: Seq<Seq<char>>) -> Seq<char>
    decreases t.len(),
{
    if t.len() == 0 {
        Seq::empty()
    } else if t.len() == 1 {
        t[0]
    } else {
        join_comma(t.drop_last()) + ", "@ + t.last()
    }
}

/// The first 80 bytes of a longer content followed by `...`, or the
/// content itself.
pub open spec fn preview(c: Seq<char>) -> Seq<char> {
    let b = vstd::utf8::encode_utf8(c);
    if b.len() > 80 { vstd::utf8::decode_utf8(b.subrange(0, 80)) + "..."@ } else { c }
}

/// The number, id, title and score of a report entry (`i` counts from 0).
pub open spec fn entry_head(i: int, d: DocModel, score: i64) -> Seq<char> {
    "\n  "@ + dec((i + 1) as nat) + ". [id="@ + dec(d.id as nat) + "] \""@ + d.title + "\" (score: "@ + sdec(score as int)
}

/// The tags and preview of a report entry.
pub open spec fn entry_tail(d: DocModel) -> Seq<char> {
    ", tags: "@ + tags_text(d.tags) + ")\n     "@ + preview(d.content) + "\n"@
}

/// One entry of the search report (`i` counts from 0).
pub open spec fn result_entry(i: int, d: DocModel, score: i64) -> Seq<char> {
    entry_head(i, d, score) + entry_tail(d)
}

/// The entries of the search report.
pub open spec fn result_entries(s: Seq<(DocModel, i64)>) -> Seq<char>
    decreases s.len(),
{
    if s.len() == 0 {
        Seq::empty()
    } else {
        result_entries(s.drop_last()) + result_entry(s.len() - 1, s.last().0, s.last().1)
    }
}

/// The search report.
pub open spec fn search_report(s: Seq<(DocModel, i64)>) -> Seq<char> {
    if s.len() == 0 {
        "No matching documents found."@
    } else {
        "Found "@ + dec(s.len()) + " result(s):\n"@ + result_entries(s)
    }
}

/// Whether a content longer than 80 bytes has a character boundary there.
pub open spec fn preview_cuts(c: Seq<char>) -> bool {
    vstd::utf8::encode_utf8(c).len() > 80 ==> vstd::utf8::is_char_boundary(vstd::utf8::encode_utf8(c), 80)
}

fn push_tags(out: &mut String, tags: &Vec<String>)
    ensures
        final(out)@ == old(out)@ + tags_text(tags@.map_values(|t: String| t@)),
{
    let ghost tv = tags@.map_values(|t: String| t@);
    if tags.len() == 0 {
        out.append("none");
        return;
    }
    let n = tags.len();
    let mut i: usize = 0;
    while i < n
        invariant
            n == tags@.len(),
            n > 0,
            tv == tags@.map_values(|t: String| t@),
            i <= n,
            out@ == old(out)@ + join_comma(tv.subrange(0, i as int)),
        decreases n - i,
    {
        let ghost pre = tv.subrange(0, i + 1);
        assert(pre.drop_last() =~= tv.subrange(0, i as int));
        if i > 0 {
            out.append(", ");
        }
        out.append(tags[i].as_str());
        i = i + 1;
        assert(out@ =~= old(out)@ + join_comma(pre));
    }
    assert(tv.subrange(0, n as int) =~= tv);
}

fn push_preview(out: &mut String, content: &String)
    requires
        preview_cuts(content@),
    ensures
        final(out)@ == old(out)@ + preview(content@),
{
    let s = content.as_str();
    let bytes = s.as_bytes();
    if bytes.len() > 80 {
        let (head, _) = s.split_at(80);
        proof {
            vstd::utf8::encode_utf8_decode_utf8(head@);
            assert(head.spec_bytes() == vstd::utf8::encode_utf8(head@));
            assert(vstd::utf8::encode_utf8(content@).subrange(0, 80) == head.spec_bytes());
        }
        out.append(head);
        out.append("...");
    } else {
        out.append(s);
    }
}

fn push_entry_head(out: &mut String, i: usize, r: &SearchResult)
    requires
        i < usize::MAX,
    ensures
        final(out)@ == old(out)@ + entry_head(i as int, r.document@, r.score),
{
    let d = &r.document;
    out.append("\n  ");
    push_dec(out, (i + 1) as u64);
    out.append(". [id=");
    push_dec(out, d.id);
    out.append("] \"");
    out.append(d.title.as_str());
    out.append("\" (score: ");
    push_sdec(out, r.score);
    assert(final(out)@ =~= old(out)@ + entry_head(i as int, r.document@, r.score));
}

fn push_entry_tail(out: &mut String, r: &SearchResult)
    requires
        preview_cuts(r.document.content@),
    ensures
        final(out)@ == old(out)@ + entry_tail(r.document@),
{
    let d = &r.document;
    out.append(", tags: ");
    push_tags(out, &d.tags);
    out.append(")\n     ");
    push_preview(out, &d.content);
    out.append("\n");
    assert(final(out)@ =~= old(out)@ + entry_tail(r.document@));
}

fn push_result_entry(out: &mut String, i: usize, r: &SearchResult)
    requires
        i < usize::MAX,
        preview_cuts(r.document.content@),
    ensures
        final(out)@ == old(out)@ + result_entry(i as int, r.document@, r.score),
{
    push_entry_head(out, i, r);
    push_entry_tail(out, r);
    assert(final(out)@ =~= old(out)@ + result_entry(i as int, r.document@, r.score));
}

/// The search results as a report.
pub fn format_search_results(results: &[SearchResult]) -> (out: String)
    requires
        forall|i: int| 0 <= i < results@.len() ==> preview_cuts(#[trigger] results@[i].document.content@),
    ensures
        out@ == search_report(results@.map_values(|r: SearchResult| (r.document@, r.score))),
{
    let ghost s = results@.map_values(|r: SearchResult| (r.document@, r.score));
    let n = results.len();
    if n == 0 {
        return string_of("No matching documents found.");
    }
    let mut out = string_of("Found ");
    push_dec(&mut out, n as u64);
    out.append(" result(s):\n");
    let ghost head = out@;
    let mut i: usize = 0;
    while i < n
        invariant
            n == results@.len(),
            s == results@.map_values(|r: SearchResult| (r.document@, r.score)),
            forall|k: int| 0 <= k < results@.len() ==> preview_cuts(#[trigger] results@[k].document.content@),
            i <= n,
            out@ == head + result_entries(s.subrange(0, i as int)),
        decreases n - i,
    {
        let ghost pre = s.subrange(0, i + 1);
        assert(pre.drop_last() =~= s.subrange(0, i as int));
        assert(preview_cuts(results@[i as int].document.content@));
        push_result_entry(&mut out, i, &results[i]);
        i = i + 1;
        assert(out@ =~= head + result_entries(pre));
    }
    assert(s.subrange(0, n as int) =~= s);
    out
}

// ---------------------------------------------------------------------------
// Laws
// ---------------------------------------------------------------------------

proof fn lemma_insert_sorted(r: Seq<(DocModel, i64)>, x: (DocModel, i64))
    requires
        forall|i: int, j: int| 0 <= i < j < r.len() ==> r[i].1 >= r[j].1,
    ensures
        ({
            let s = r.insert(first_below(r, x.1, 0), x);
            forall|i: int, j: int| 0 <= i < j < s.len() ==> s[i].1 >= s[j].1
        }),
{
    let p = first_below(r, x.1, 0);
    lemma_first_below(r, x.1, 0);
    lemma_first_below_facts(r, x.1, 0);
    let s = r.insert(p, x);
    assert forall|i: int, j: int| 0 <= i < j < s.len() implies s[i].1 >= s[j].1 by {
        if j < p {
            assert(s[i] == r[i] && s[j] == r[j]);
        } else if j == p {
            assert(s[i] == r[i]);
        } else if i < p {
            assert(s[i] == r[i] && s[j] == r[j - 1]);
        } else if i == p {
            assert(s[j] == r[j - 1]);
        } else {
            assert(s[i] == r[i - 1] && s[j] == r[j - 1]);
        }
    }
}

proof fn lemma_first_below_facts(r: Seq<(DocModel, i64)>, score: i64, j: int)
    requires
        0 <= j <= r.len(),
        forall|a: int, b: int| 0 <= a < b < r.len() ==> r[a].1 >= r[b].1,
    ensures
        forall|k: int| j <= k < first_below(r, score, j) ==> r[k].1 >= score,
        first_below(r, score, j) < r.len() ==> r[first_below(r, score, j)].1 < score,
    decreases r.len() - j,
{
    if j < r.len() && r[j].1 >= score {
        lemma_first_below_facts(r, score, j + 1);
    }
}

/// Search results come best first: the sorted scores never increase.
pub proof fn law_sorted_descending(s: Seq<(DocModel, i64)>)
    ensures
        forall|i: int, j: int| 0 <= i < j < sort_desc(s).len() ==> sort_desc(s)[i].1 >= sort_desc(s)[j].1,
    decreases s.len(),
{
    if s.len() > 0 {
        law_sorted_descending(s.drop_last());
        lemma_insert_sorted(sort_desc(s.drop_last()), s.last());
    }
}

/// Orthogonal vectors (zero dot product) have similarity 0.
pub proof fn law_orthogonal_zero(a: Seq<i32>, b: Seq<i32>)
    requires
        dot_upto(a, b, common_len(a, b)) == 0,
    ensures
        cosine(a, b) == 0,
{
    let n = common_len(a, b);
    let ma = dot_upto(a, a, n);
    let mb = dot_upto(b, b, n);
    if n > 0 && ma != 0 && mb != 0 {
        lemma_squares_mono(a, n, n);
        lemma_squares_mono(b, n, n);
        lemma_floor_sqrt_pos(ma);
        lemma_floor_sqrt_pos(mb);
        assert(floor_sqrt(ma) * floor_sqrt(mb) >= 1) by (nonlinear_arith)
            requires
                floor_sqrt(ma) >= 1,
                floor_sqrt(mb) >= 1,
        ;
    }
}

proof fn lemma_floor_sqrt_pos(m: int)
    requires
        m >= 1,
    ensures
        floor_sqrt(m) >= 1,
        is_isqrt(m, floor_sqrt(m)),
{
    let t = lemma_isqrt_exists(m);
    let c = choose|x: int| is_isqrt(m, x);
    lemma_isqrt_unique(m, t, c);
    if c == 0 {
        assert(m < 1) by (nonlinear_arith)
            requires
                is_isqrt(m, c),
                c == 0,
        ;
    }
}

/// A vector whose squared length is a perfect square has similarity
/// exactly 10 000 with itself.
pub proof fn law_identical_full(a: Seq<i32>, r: int)
    requires
        r >= 1,
        dot_upto(a, a, a.len() as int) == r * r,
    ensures
        cosine(a, a) == 10000,
{
    let m = r * r;
    assert(is_isqrt(m, r)) by (nonlinear_arith)
        requires
            r >= 1,
            m == r * r,
    ;
    assert(m >= 1) by (nonlinear_arith)
        requires
            r >= 1,
            m == r * r,
    ;
    let c = choose|x: int| is_isqrt(m, x);
    lemma_isqrt_unique(m, r, c);
    assert(floor_sqrt(m) == r);
    assert(m * 10000 / (r * r) == 10000) by (nonlinear_arith)
        requires
            m == r * r,
            r >= 1,
    ;
}

/// After a delete no document with that id is left.
pub proof fn law_delete_removes(ds: Seq<DocModel>, id: u64)
    ensures
        forall|i: int| 0 <= i < without_id(ds, id).len() ==> #[trigger] without_id(ds, id)[i].id != id,
    decreases ds.len(),
{
    if ds.len() > 0 {
        law_delete_removes(ds.drop_last(), id);
        let rest = without_id(ds.drop_last(), id);
        if ds.last().id != id {
            assert forall|i: int| 0 <= i < rest.push(ds.last()).len() implies #[trigger] rest.push(ds.last())[i].id != id by {
                if i < rest.len() {
                    assert(rest.push(ds.last())[i] == rest[i]);
                }
            }
        }
    }
}

} // verus!
