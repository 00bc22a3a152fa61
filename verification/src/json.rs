//! JSON values: parsing, compact and pretty serialisation, and lookups in
//! objects. Fractional numbers are kept as integers scaled by 1 000 000.
use vstd::prelude::*;
use vstd::string::*;
use vstd::utf8::{valid_utf8, decode_utf8};
use crate::text::{string_of, str_eq, push_char, push_spaces, spaces, digit_char, dec, sdec, push_dec, push_sdec,
    parse_hex_uint, parse_hex_u64_max};
use crate::kvdb::str_from_utf8;

verus! {

/// A JSON value as plain values.
pub enum Json {
    Null,
    Bool(bool),
    Number(i64),
    /// A fractional number times 1 000 000.
    Float(i64),
    Str(Seq<char>),
    Array(Seq<Json>),
    /// Key-value pairs in order.
    Object(Seq<(Seq<char>, Json)>),
}

/// A JSON value.
pub enum JsonValue {
    /// `null`.
    Null,
    /// `true` or `false`.
    Bool(bool),
    /// An integer.
    Number(i64),
    /// A fractional number stored as an `i64` scaled by 1 000 000.
    Float(i64),
    /// A string.
    String(String),
    /// An array.
    Array(Vec<JsonValue>),
    /// An object as an ordered list of key-value pairs.
    Object(Vec<(String, JsonValue)>),
}

/// The scale of `Float` values.
pub const FLOAT_SCALE: i64 = 1_000_000;

impl JsonValue {
    pub open spec fn model(&self) -> Json
        decreases self,
    {
        match self {
            JsonValue::Null => Json::Null,
            JsonValue::Bool(b) => Json::Bool(*b),
            JsonValue::Number(n) => Json::Number(*n),
            JsonValue::Float(n) => Json::Float(*n),
            JsonValue::String(s) => Json::Str(s@),
            JsonValue::Array(v) => Json::Array(items_model(v@)),
            JsonValue::Object(v) => Json::Object(pairs_model(v@)),
        }
    }
}

/// The elements of an array as plain values.
pub open spec fn items_model(es: Seq<JsonValue>) -> Seq<Json>
    decreases es,
{
    Seq::new(es.len(), |i: int| if 0 <= i < es.len() { es[i].model() } else { Json::Null })
}

/// The members of an object as plain values.
pub open spec fn pairs_model(ps: Seq<(String, JsonValue)>) -> Seq<(Seq<char>, Json)>
    decreases ps,
{
    Seq::new(ps.len(), |i: int| if 0 <= i < ps.len() { (ps[i].0@, ps[i].1.model()) } else { (Seq::empty(), Json::Null) })
}

// ---------------------------------------------------------------------------
// Serialisation
// ---------------------------------------------------------------------------

/// The indentation before a line at `depth` when pretty-printing with
/// `ind` spaces per level; nothing when compact.
pub open spec fn indent_text(ind: Option<usize>, depth: nat) -> Seq<char> {
    match ind {
        Some(n) => spaces(depth * (n as nat)),
        None => Seq::empty(),
    }
}

/// A line break when pretty-printing.
pub open spec fn nl_text(ind: Option<usize>) -> Seq<char> {
    if ind is Some { "\n"@ } else { Seq::empty() }
}

/// How a character is written inside a JSON string.
pub open spec fn esc_char(c: char) -> Seq<char> {
    if c == '"' {
        "\\\""@
    } else if c == '\\' {
        "\\\\"@
    } else if c == '\n' {
        "\\n"@
    } else if c == '\r' {
        "\\r"@
    } else if c == '\t' {
        "\\t"@
    } else if c == '\x08' {
        "\\b"@
    } else if c == '\x0c' {
        "\\f"@
    } else if (c as u32) < 0x20 {
        "\\u00"@ + seq![digit_char((c as u32 / 16) as nat), digit_char((c as u32 % 16) as nat)]
    } else {
        seq![c]
    }
}

pub open spec fn esc_chars(s: Seq<char>) -> Seq<char>
    decreases s.len(),
{
    if s.len() == 0 { Seq::empty() } else { esc_chars(s.drop_last()) + esc_char(s.last()) }
}

/// A string literal: quoted, with escapes.
pub open spec fn quoted(s: Seq<char>) -> Seq<char> {
    "\""@ + esc_chars(s) + "\""@
}

/// The last `k` decimal digits of `n`, zero-padded.
pub open spec fn dec_fixed(n: nat, k: nat) -> Seq<char>
    decreases k,
{
    if k == 0 { Seq::empty() } else { dec_fixed(n / 10, (k - 1) as nat).push(digit_char(n % 10)) }
}

/// `s` without its trailing zeros.
pub open spec fn trim_zeros(s: Seq<char>) -> Seq<char>
    decreases s.len(),
{
    if s.len() > 0 && s.last() == '0' { trim_zeros(s.drop_last()) } else { s }
}

/// The fraction digits of a `Float`: six digits, trailing zeros dropped,
/// `0` when none is left.
pub open spec fn frac_text(f: nat) -> Seq<char> {
    let t = trim_zeros(dec_fixed(f, 6));
    if t.len() == 0 { "0"@ } else { t }
}

/// The text of a `Float`.
pub open spec fn float_text(x: i64) -> Seq<char> {
    let a = if x < 0 { -x } else { x as int };
    (if x < 0 { "-"@ } else { Seq::empty() }) + dec((a / 1_000_000) as nat) + "."@ + frac_text((a % 1_000_000) as nat)
}

/// The text of a value at nesting `depth`, compact (`ind` is `None`) or
/// pretty with `ind` spaces per level.
pub open spec fn text_of(j: Json, ind: Option<usize>, depth: nat) -> Seq<char>
    decreases j, 0int,
{
    match j {
        Json::Null => "null"@,
        Json::Bool(b) => if b { "true"@ } else { "false"@ },
        Json::Number(n) => sdec(n as int),
        Json::Float(x) => float_text(x),
        Json::Str(s) => quoted(s),
        Json::Array(es) => if es.len() == 0 {
            "[]"@
        } else {
            "["@ + nl_text(ind) + items_text(es, ind, depth, es.len() as int) + indent_text(ind, depth) + "]"@
        },
        Json::Object(ps) => if ps.len() == 0 {
            "{}"@
        } else {
            "{"@ + nl_text(ind) + pairs_text(ps, ind, depth, ps.len() as int) + indent_text(ind, depth) + "}"@
        },
    }
}

/// The first `k` elements of an array at `depth`, each on its own line
/// when pretty.
pub open spec fn items_text(es: Seq<Json>, ind: Option<usize>, depth: nat, k: int) -> Seq<char>
    decreases es, k,
{
    if k <= 0 || k > es.len() {
        Seq::empty()
    } else {
        items_text(es, ind, depth, k - 1) + indent_text(ind, depth + 1) + text_of(es[k - 1], ind, depth + 1)
            + (if k < es.len() { ","@ } else { Seq::empty() }) + nl_text(ind)
    }
}

/// The first `k` members of an object at `depth`.
pub open spec fn pairs_text(ps: Seq<(Seq<char>, Json)>, ind: Option<usize>, depth: nat, k: int) -> Seq<char>
    decreases ps, k,
{
    if k <= 0 || k > ps.len() {
        Seq::empty()
    } else {
        pairs_text(ps, ind, depth, k - 1) + indent_text(ind, depth + 1) + quoted(ps[k - 1].0) + ":"@
            + (if ind is Some { " "@ } else { Seq::empty() }) + text_of(ps[k - 1].1, ind, depth + 1)
            + (if k < ps.len() { ","@ } else { Seq::empty() }) + nl_text(ind)
    }
}

/// Whether a value can be written at `depth`: no `Float` is `i64::MIN`
/// (its magnitude does not fit), and the nesting levels and their
/// indentation fit in `usize`.
pub open spec fn fits(j: Json, ind: Option<usize>, depth: nat) -> bool
    decreases j, 0int,
{
    match j {
        Json::Float(x) => x != i64::MIN,
        Json::Array(es) => es.len() == 0 || ({
            &&& depth + 1 <= usize::MAX
            &&& (ind matches Some(n) ==> (depth + 1) * n <= usize::MAX)
            &&& items_fit(es, ind, depth + 1, es.len() as int)
        }),
        Json::Object(ps) => ps.len() == 0 || ({
            &&& depth + 1 <= usize::MAX
            &&& (ind matches Some(n) ==> (depth + 1) * n <= usize::MAX)
            &&& pairs_fit(ps, ind, depth + 1, ps.len() as int)
        }),
        _ => true,
    }
}

pub open spec fn items_fit(es: Seq<Json>, ind: Option<usize>, depth: nat, k: int) -> bool
    decreases es, k,
{
    if k <= 0 || k > es.len() { true } else { items_fit(es, ind, depth, k - 1) && fits(es[k - 1], ind, depth) }
}

pub open spec fn pairs_fit(ps: Seq<(Seq<char>, Json)>, ind: Option<usize>, depth: nat, k: int) -> bool
    decreases ps, k,
{
    if k <= 0 || k > ps.len() { true } else { pairs_fit(ps, ind, depth, k - 1) && fits(ps[k - 1].1, ind, depth) }
}

pub proof fn lemma_items_fit(es: Seq<Json>, ind: Option<usize>, depth: nat, k: int, i: int)
    requires
        items_fit(es, ind, depth, k),
        0 <= i < k <= es.len(),
    ensures
        fits(es[i], ind, depth),
    decreases k,
{
    if i < k - 1 {
        lemma_items_fit(es, ind, depth, k - 1, i);
    }
}

pub proof fn lemma_pairs_fit(ps: Seq<(Seq<char>, Json)>, ind: Option<usize>, depth: nat, k: int, i: int)
    requires
        pairs_fit(ps, ind, depth, k),
        0 <= i < k <= ps.len(),
    ensures
        fits(ps[i].1, ind, depth),
    decreases k,
{
    if i < k - 1 {
        lemma_pairs_fit(ps, ind, depth, k - 1, i);
    }
}

fn write_indent(out: &mut String, ind: Option<usize>, depth: usize)
    requires
        ind matches Some(n) ==> depth * n <= usize::MAX,
    ensures
        final(out)@ == old(out)@ + indent_text(ind, depth as nat),
{
    if let Some(n) = ind {
        push_spaces(out, depth * n);
    }
}

fn write_nl(out: &mut String, ind: Option<usize>)
    ensures
        final(out)@ == old(out)@ + nl_text(ind),
{
    if ind.is_some() {
        out.append("\n");
    }
}

fn hex_digit_char(d: u32) -> (c: char)
    requires
        d < 16,
    ensures
        c == digit_char(d as nat),
{
    if d < 10 { ((d as u8) + 48u8) as char } else { ((d as u8) + 87u8) as char }
}

fn write_esc_char(out: &mut String, c: char)
    ensures
        final(out)@ == old(out)@ + esc_char(c),
{
    if c == '"' {
        out.append("\\\"");
    } else if c == '\\' {
        out.append("\\\\");
    } else if c == '\n' {
        out.append("\\n");
    } else if c == '\r' {
        out.append("\\r");
    } else if c == '\t' {
        out.append("\\t");
    } else if c == '\x08' {
        out.append("\\b");
    } else if c == '\x0c' {
        out.append("\\f");
    } else if (c as u32) < 0x20 {
        let n = c as u32;
        out.append("\\u00");
        push_char(out, hex_digit_char(n / 16));
        push_char(out, hex_digit_char(n % 16));
    } else {
        push_char(out, c);
    }
}

/// Write a JSON string with its escapes.
fn write_escaped(out: &mut String, s: &str)
    ensures
        final(out)@ == old(out)@ + quoted(s@),
{
    out.append("\"");
    let ghost h0 = out@;
    let n = s.unicode_len();
    let mut i: usize = 0;
    while i < n
        invariant
            n == s@.len(),
            i <= n,
            out@ == h0 + esc_chars(s@.subrange(0, i as int)),
        decreases n - i,
    {
        let ghost pre = s@.subrange(0, i + 1);
        assert(pre.drop_last() =~= s@.subrange(0, i as int));
        write_esc_char(out, s.get_char(i));
        i = i + 1;
    }
    assert(s@.subrange(0, n as int) =~= s@);
    out.append("\"");
}

proof fn lemma_dec_fixed_len(n: nat, k: nat)
    ensures
        dec_fixed(n, k).len() == k,
    decreases k,
{
    if k > 0 {
        lemma_dec_fixed_len(n / 10, (k - 1) as nat);
    }
}

fn six_digits(f: u64) -> (r: Vec<char>)
    ensures
        r@ == dec_fixed(f as nat, 6),
        r@.len() == 6,
{
    proof {
        lemma_dec_fixed_len(f as nat, 6);
    }
    let mut digits: Vec<char> = Vec::new();
    let mut v: u64 = f;
    let mut j: usize = 0;
    while j < 6
        invariant
            j <= 6,
            dec_fixed(f as nat, 6) == dec_fixed(v as nat, (6 - j) as nat) + digits@.reverse(),
        decreases 6 - j,
    {
        let d: u64 = v % 10;
        let c: char = ((d as u8) + 48u8) as char;
        assert(c == digit_char(d as nat));
        let ghost old_digits = digits@;
        assert(dec_fixed(v as nat, (6 - j) as nat) == dec_fixed((v / 10) as nat, (6 - j - 1) as nat).push(c));
        digits.push(c);
        assert(digits@.reverse() =~= seq![c] + old_digits.reverse());
        v = v / 10;
        j = j + 1;
    }
    assert(dec_fixed(v as nat, 0) =~= Seq::<char>::empty());
    let mut r: Vec<char> = Vec::new();
    let mut t: usize = digits.len();
    while t > 0
        invariant
            t <= digits@.len(),
            r@ =~= digits@.subrange(t as int, digits@.len() as int).reverse(),
        decreases t,
    {
        t = t - 1;
        r.push(digits[t]);
        assert(digits@.subrange(t as int, digits@.len() as int).reverse()
            =~= digits@.subrange(t + 1, digits@.len() as int).reverse().push(digits@[t as int]));
    }
    assert(digits@.subrange(0, digits@.len() as int) =~= digits@);
    r
}

proof fn lemma_trim_zeros(s: Seq<char>, e: int)
    requires
        0 <= e <= s.len(),
        forall|i: int| e <= i < s.len() ==> s[i] == '0',
        e == 0 || s[e - 1] != '0',
    ensures
        trim_zeros(s) == s.subrange(0, e),
    decreases s.len(),
{
    if s.len() > e {
        assert(s.last() == '0');
        let d = s.drop_last();
        assert forall|i: int| e <= i < d.len() implies d[i] == '0' by {
            assert(d[i] == s[i]);
        }
        if e > 0 {
            assert(d[e - 1] == s[e - 1]);
        }
        lemma_trim_zeros(d, e);
        assert(d.subrange(0, e) =~= s.subrange(0, e));
    } else {
        assert(s.subrange(0, e) =~= s);
    }
}

fn write_float(out: &mut String, x: i64)
    requires
        x != i64::MIN,
    ensures
        final(out)@ == old(out)@ + float_text(x),
{
    let neg = x < 0;
    let a: i64 = if neg { -x } else { x };
    if neg {
        out.append("-");
    }
    push_dec(out, (a / FLOAT_SCALE) as u64);
    out.append(".");
    let f = (a % FLOAT_SCALE) as u64;
    let d = six_digits(f);
    let mut e: usize = 6;
    while e > 0 && d[e - 1] == '0'
        invariant
            e <= 6,
            d@.len() == 6,
            forall|i: int| e <= i < 6 ==> d@[i] == '0',
        decreases e,
    {
        e = e - 1;
    }
    proof {
        lemma_trim_zeros(d@, e as int);
    }
    if e == 0 {
        out.append("0");
    } else {
        let ghost h = out@;
        let mut i: usize = 0;
        while i < e
            invariant
                i <= e,
                e <= d@.len(),
                out@ == h + d@.subrange(0, i as int),
            decreases e - i,
        {
            push_char(out, d[i]);
            assert(d@.subrange(0, i + 1) =~= d@.subrange(0, i as int).push(d@[i as int]));
            i = i + 1;
        }
    }
}

fn write_items(out: &mut String, es: &Vec<JsonValue>, ind: Option<usize>, depth: usize)
    requires
        es@.len() > 0,
        fits(Json::Array(items_model(es@)), ind, depth as nat),
    ensures
        final(out)@ == old(out)@ + items_text(items_model(es@), ind, depth as nat, es@.len() as int),
    decreases es@, 0int,
{
    let ghost m = items_model(es@);
    let ghost h0 = out@;
    let mut i: usize = 0;
    while i < es.len()
        invariant
            i <= es@.len(),
            m.len() == es@.len(),
            m == items_model(es@),
            depth + 1 <= usize::MAX,
            ind matches Some(n) ==> (depth + 1) * n <= usize::MAX,
            items_fit(m, ind, depth as nat + 1, m.len() as int),
            out@ == h0 + items_text(m, ind, depth as nat, i as int),
        decreases es@.len() - i,
    {
        proof {
            lemma_items_fit(m, ind, depth as nat + 1, m.len() as int, i as int);
        }
        assert(m[i as int] == es@[i as int].model());
        write_indent(out, ind, depth + 1);
        write_value(&es[i], out, ind, depth + 1);
        if i + 1 < es.len() {
            out.append(",");
        }
        write_nl(out, ind);
        i = i + 1;
    }
}

fn write_pair(out: &mut String, p: &(String, JsonValue), ind: Option<usize>, depth: usize, more: bool)
    requires
        depth + 1 <= usize::MAX,
        ind matches Some(n) ==> (depth + 1) * n <= usize::MAX,
        fits(p.1.model(), ind, depth as nat + 1),
    ensures
        final(out)@ == old(out)@ + indent_text(ind, depth as nat + 1) + quoted(p.0@) + ":"@
            + (if ind is Some { " "@ } else { Seq::empty() }) + text_of(p.1.model(), ind, depth as nat + 1)
            + (if more { ","@ } else { Seq::empty() }) + nl_text(ind),
    decreases p.1, 1int,
{
    write_indent(out, ind, depth + 1);
    write_escaped(out, p.0.as_str());
    out.append(":");
    if ind.is_some() {
        out.append(" ");
    }
    write_value(&p.1, out, ind, depth + 1);
    if more {
        out.append(",");
    }
    write_nl(out, ind);
}

#[verifier::spinoff_prover]
#[verifier::rlimit(40)]
fn write_pairs(out: &mut String, ps: &Vec<(String, JsonValue)>, ind: Option<usize>, depth: usize)
    requires
        ps@.len() > 0,
        fits(Json::Object(pairs_model(ps@)), ind, depth as nat),
    ensures
        final(out)@ == old(out)@ + pairs_text(pairs_model(ps@), ind, depth as nat, ps@.len() as int),
    decreases ps@, 0int,
{
    let ghost m = pairs_model(ps@);
    let ghost h0 = out@;
    assert forall|k: int| 0 <= k < m.len() implies #[trigger] m[k] == (ps@[k].0@, ps@[k].1.model()) by {}
    let mut i: usize = 0;
    while i < ps.len()
        invariant
            i <= ps@.len(),
            m.len() == ps@.len(),
            forall|k: int| 0 <= k < m.len() ==> #[trigger] m[k] == (ps@[k].0@, ps@[k].1.model()),
            depth + 1 <= usize::MAX,
            ind matches Some(n) ==> (depth + 1) * n <= usize::MAX,
            pairs_fit(m, ind, depth as nat + 1, m.len() as int),
            out@ == h0 + pairs_text(m, ind, depth as nat, i as int),
        decreases ps@.len() - i,
    {
        proof {
            lemma_pairs_fit(m, ind, depth as nat + 1, m.len() as int, i as int);
        }
        assert(m[i as int] == (ps@[i as int].0@, ps@[i as int].1.model()));
        write_pair(out, &ps[i], ind, depth, i + 1 < ps.len());
        i = i + 1;
    }
}

/// Append the text of `value` at nesting `depth` (see `text_of`).
fn write_value(value: &JsonValue, out: &mut String, ind: Option<usize>, depth: usize)
    requires
        fits(value.model(), ind, depth as nat),
        ind matches Some(n) ==> depth * n <= usize::MAX,
    ensures
        final(out)@ == old(out)@ + text_of(value.model(), ind, depth as nat),
    decreases value, 0int,
{
    match value {
        JsonValue::Null => out.append("null"),
        JsonValue::Bool(b) => if *b { out.append("true") } else { out.append("false") },
        JsonValue::Number(n) => push_sdec(out, *n),
        JsonValue::Float(x) => write_float(out, *x),
        JsonValue::String(s) => write_escaped(out, s.as_str()),
        JsonValue::Array(es) => {
            out.append("[");
            if es.len() == 0 {
                out.append("]");
                proof {
                    reveal_strlit("[");
                    reveal_strlit("]");
                    reveal_strlit("[]");
                    assert(out@ =~= old(out)@ + "[]"@);
                }
                return;
            }
            write_nl(out, ind);
            write_items(out, es, ind, depth);
            write_indent(out, ind, depth);
            out.append("]");
        },
        JsonValue::Object(ps) => {
            out.append("{");
            if ps.len() == 0 {
                out.append("}");
                proof {
                    reveal_strlit("{");
                    reveal_strlit("}");
                    reveal_strlit("{}");
                    assert(out@ =~= old(out)@ + "{}"@);
                }
                return;
            }
            write_nl(out, ind);
            write_pairs(out, ps, ind, depth);
            write_indent(out, ind, depth);
            out.append("}");
        },
    }
}

/// The compact text of a value.
pub fn stringify(value: &JsonValue) -> (r: String)
    requires
        fits(value.model(), None, 0),
    ensures
        r@ == text_of(value.model(), None, 0),
{
    let mut out = String::new();
    write_value(value, &mut out, None, 0);
    out
}

/// The pretty text of a value, each nesting level indented by `indent`
/// spaces.
pub fn stringify_pretty(value: &JsonValue, indent: usize) -> (r: String)
    requires
        fits(value.model(), Some(indent), 0),
    ensures
        r@ == text_of(value.model(), Some(indent), 0),
{
    let mut out = String::new();
    write_value(value, &mut out, Some(indent), 0);
    out
}

// ---------------------------------------------------------------------------
// Lookups
// ---------------------------------------------------------------------------

/// Index of the first member from the `j`-th on whose key is `key` (the
/// length when none).
pub open spec fn key_index(ps: Seq<(Seq<char>, Json)>, key: Seq<char>, j: int) -> int
    decreases ps.len() - j,
{
    if j < 0 || j >= ps.len() {
        ps.len() as int
    } else if ps[j].0 == key {
        j
    } else {
        key_index(ps, key, j + 1)
    }
}

/// The value of the first member named `key` of an object; `None` for a
/// missing key or a value that is not an object.
pub open spec fn get_spec(j: Json, key: Seq<char>) -> Option<Json> {
    match j {
        Json::Object(ps) => {
            let i = key_index(ps, key, 0);
            if 0 <= i < ps.len() { Some(ps[i].1) } else { None }
        },
        _ => None,
    }
}

proof fn lemma_key_index(ps: Seq<(Seq<char>, Json)>, key: Seq<char>, j: int)
    requires
        0 <= j <= ps.len(),
    ensures
        j <= key_index(ps, key, j) <= ps.len(),
        key_index(ps, key, j) < ps.len() ==> ps[key_index(ps, key, j)].0 == key,
    decreases ps.len() - j,
{
    if j < ps.len() && ps[j].0 != key {
        lemma_key_index(ps, key, j + 1);
    }
}

/// Look up a key in an object (the first member with that key).
pub fn get<'a>(obj: &'a JsonValue, key: &str) -> (r: Option<&'a JsonValue>)
    ensures
        match r {
            Some(v) => get_spec(obj.model(), key@) == Some(v.model()),
            None => get_spec(obj.model(), key@) is None,
        },
{
    match obj {
        JsonValue::Object(pairs) => {
            let ghost m = pairs_model(pairs@);
            let mut i: usize = 0;
            while i < pairs.len()
                invariant
                    i <= pairs@.len(),
                    m == pairs_model(pairs@),
                    obj.model() == Json::Object(m),
                    key_index(m, key@, 0) == key_index(m, key@, i as int),
                decreases pairs@.len() - i,
            {
                assert(m[i as int] == (pairs@[i as int].0@, pairs@[i as int].1.model()));
                if str_eq(pairs[i].0.as_str(), key) {
                    return Some(&pairs[i].1);
                }
                i = i + 1;
            }
            None
        },
        _ => None,
    }
}

/// The string value under `key` in an object.
pub fn get_str<'a>(obj: &'a JsonValue, key: &str) -> (r: Option<&'a str>)
    ensures
        match r {
            Some(s) => get_spec(obj.model(), key@) == Some(Json::Str(s@)),
            None => !(get_spec(obj.model(), key@) matches Some(Json::Str(_))),
        },
{
    match get(obj, key) {
        Some(JsonValue::String(s)) => Some(s.as_str()),
        _ => None,
    }
}

/// The integer value under `key` in an object.
pub fn get_i64(obj: &JsonValue, key: &str) -> (r: Option<i64>)
    ensures
        match r {
            Some(n) => get_spec(obj.model(), key@) == Some(Json::Number(n)),
            None => !(get_spec(obj.model(), key@) matches Some(Json::Number(_))),
        },
{
    match get(obj, key) {
        Some(JsonValue::Number(n)) => Some(*n),
        _ => None,
    }
}

/// The boolean value under `key` in an object.
pub fn get_bool(obj: &JsonValue, key: &str) -> (r: Option<bool>)
    ensures
        match r {
            Some(b) => get_spec(obj.model(), key@) == Some(Json::Bool(b)),
            None => !(get_spec(obj.model(), key@) matches Some(Json::Bool(_))),
        },
{
    match get(obj, key) {
        Some(JsonValue::Bool(b)) => Some(*b),
        _ => None,
    }
}

// ---------------------------------------------------------------------------
// Parsing
// ---------------------------------------------------------------------------

/// `char::from_u32`: the character with code `v`, `None` for a surrogate
/// or a value past `0x10FFFF` (as std documents).
#[verifier::external_body]
fn char_from_u32(v: u32) -> (r: Option<char>)
    ensures
        r is Some <==> (v < 0xD800 || (0xE000 <= v <= 0x10FFFF)),
        r matches Some(c) ==> c as u32 == v,
{
    char::from_u32(v)
}

/// What parsing from a position gives: a value and the position after
/// it, an error, or an arithmetic overflow (a fraction of more digits
/// than 64 bits hold), on which the parser panics.
pub enum Parsed {
    Done(Json, int),
    Fail(&'static str),
    Overflow,
}

pub open spec fn is_ws_byte(c: u8) -> bool {
    c == 32 || c == 9 || c == 10 || c == 13
}

/// The first position from `p` on that is not JSON whitespace.
pub open spec fn ws_end(b: Seq<u8>, p: int) -> int
    decreases b.len() - p,
{
    if 0 <= p < b.len() && is_ws_byte(b[p]) { ws_end(b, p + 1) } else { p }
}

pub open spec fn is_digit_byte(c: u8) -> bool {
    48 <= c <= 57
}

/// The end of the run of ASCII digits from `p`.
pub open spec fn digits_end(b: Seq<u8>, p: int) -> int
    decreases b.len() - p,
{
    if 0 <= p < b.len() && is_digit_byte(b[p]) { digits_end(b, p + 1) } else { p }
}

/// The value of the digits `b[i..e]`.
pub open spec fn digits_val(b: Seq<u8>, i: int, e: int) -> nat
    decreases e - i,
{
    if e <= i { 0 } else { digits_val(b, i, e - 1) * 10 + (b[e - 1] - 48) as nat }
}

pub open spec fn pow10(n: nat) -> nat
    decreases n,
{
    if n == 0 { 1 } else { pow10((n - 1) as nat) * 10 }
}

/// `v` divided by 10, `k` times.
pub open spec fn div10_times(v: nat, k: nat) -> nat
    decreases k,
{
    if k == 0 { v } else { div10_times(v, (k - 1) as nat) / 10 }
}

/// The end of an optional exponent (`e` or `E`, a sign, digits) at `p`,
/// which is skipped.
pub open spec fn exp_end(b: Seq<u8>, p: int) -> int {
    if 0 <= p < b.len() && (b[p] == 101 || b[p] == 69) {
        let q = if p + 1 < b.len() && (b[p + 1] == 43 || b[p + 1] == 45) { p + 2 } else { p + 1 };
        digits_end(b, q)
    } else {
        p
    }
}

/// A number at `p`: an optional `-`, digits, then either a fraction (a
/// `Float` scaled by 1 000 000, fraction digits past the sixth dropped) or
/// nothing (a `Number`); an exponent is skipped.
pub open spec fn number_at(b: Seq<u8>, p: int) -> Parsed {
    let neg = 0 <= p < b.len() && b[p] == 45;
    let i = if neg { p + 1 } else { p };
    if !(0 <= i < b.len() && is_digit_byte(b[i])) {
        Parsed::Fail("expected digit")
    } else {
        let e = digits_end(b, i);
        let iv = digits_val(b, i, e);
        if iv > i64::MAX {
            Parsed::Fail("number overflow")
        } else if e < b.len() && b[e] == 46 {
            let f0 = e + 1;
            let fe = digits_end(b, f0);
            let fd = fe - f0;
            let fv = digits_val(b, f0, fe);
            if fd > u32::MAX || fv > i64::MAX {
                Parsed::Overflow
            } else if iv * 1_000_000 > i64::MAX {
                Parsed::Fail("number overflow")
            } else {
                let fs = if fd < 6 { fv * pow10((6 - fd) as nat) } else { div10_times(fv, (fd - 6) as nat) };
                if iv * 1_000_000 + fs > i64::MAX {
                    Parsed::Fail("number overflow")
                } else {
                    let scaled: int = (iv * 1_000_000 + fs) as int;
                    Parsed::Done(Json::Float((if neg { -scaled } else { scaled }) as i64), exp_end(b, fe))
                }
            }
        } else {
            Parsed::Done(Json::Number((if neg { -iv } else { iv as int }) as i64), exp_end(b, e))
        }
    }
}

/// The rest of a string body from `i`, `acc` read so far: escapes are
/// decoded, a `\u` escape takes four bytes read as UTF-8 text holding a
/// hexadecimal 16-bit code, and any other byte stands for the character
/// of that code.
pub open spec fn str_body(b: Seq<u8>, i: int, acc: Seq<char>) -> Result<(Seq<char>, int), &'static str>
    decreases b.len() - i,
{
    if i < 0 || i >= b.len() {
        Err("unterminated string")
    } else if b[i] == 34 {
        Ok((acc, i + 1))
    } else if b[i] == 92 {
        let k = i + 1;
        if k >= b.len() {
            Err("unexpected end of escape")
        } else {
            let e = b[k];
            if e == 34 {
                str_body(b, k + 1, acc.push('"'))
            } else if e == 92 {
                str_body(b, k + 1, acc.push('\\'))
            } else if e == 47 {
                str_body(b, k + 1, acc.push('/'))
            } else if e == 98 {
                str_body(b, k + 1, acc.push('\x08'))
            } else if e == 102 {
                str_body(b, k + 1, acc.push('\x0c'))
            } else if e == 110 {
                str_body(b, k + 1, acc.push('\n'))
            } else if e == 114 {
                str_body(b, k + 1, acc.push('\r'))
            } else if e == 116 {
                str_body(b, k + 1, acc.push('\t'))
            } else if e == 117 {
                if b.len() - k <= 4 {
                    Err("incomplete unicode escape")
                } else {
                    let h = b.subrange(k + 1, k + 5);
                    if !valid_utf8(h) {
                        Err("invalid unicode escape")
                    } else {
                        match parse_hex_uint(decode_utf8(h), u16::MAX as nat) {
                            None => Err("invalid unicode hex"),
                            Some(cp) => if cp < 0xD800 || cp >= 0xE000 {
                                str_body(b, k + 5, acc.push(cp as char))
                            } else {
                                Err("invalid code point")
                            },
                        }
                    }
                }
            } else {
                Err("invalid escape character")
            }
        }
    } else {
        str_body(b, i + 1, acc.push(b[i] as char))
    }
}

pub proof fn lemma_str_body(b: Seq<u8>, i: int, acc: Seq<char>)
    ensures
        str_body(b, i, acc) matches Ok((_, e)) ==> i < e <= b.len(),
    decreases b.len() - i,
{
    if 0 <= i < b.len() && b[i] != 34 {
        if b[i] == 92 {
            let k = i + 1;
            if k < b.len() {
                let e = b[k];
                if e == 117 {
                    if k + 4 < b.len() {
                        let h = b.subrange(k + 1, k + 5);
                        if valid_utf8(h) {
                            match parse_hex_uint(decode_utf8(h), u16::MAX as nat) {
                                Some(cp) => {
                                    lemma_str_body(b, k + 5, acc.push(cp as char));
                                },
                                None => {},
                            }
                        }
                    }
                } else if e == 34 || e == 92 || e == 47 || e == 98 || e == 102 || e == 110 || e == 114 || e == 116 {
                    lemma_str_body(b, k + 1, acc.push(
                        if e == 34 { '"' } else if e == 92 { '\\' } else if e == 47 { '/' } else if e == 98 { '\x08' }
                        else if e == 102 { '\x0c' } else if e == 110 { '\n' } else if e == 114 { '\r' } else { '\t' }));
                }
            }
        } else {
            lemma_str_body(b, i + 1, acc.push(b[i] as char));
        }
    }
}

/// A string at `p`: its text and the position after the closing quote.
pub open spec fn string_at(b: Seq<u8>, p: int) -> Result<(Seq<char>, int), &'static str> {
    if 0 <= p < b.len() && b[p] == 34 { str_body(b, p + 1, Seq::empty()) } else { Err("unexpected character") }
}

pub proof fn lemma_ws_end(b: Seq<u8>, p: int)
    ensures
        p <= ws_end(b, p),
        ws_end(b, p) <= b.len() || ws_end(b, p) == p,
        forall|k: int| p <= k < ws_end(b, p) ==> is_ws_byte(#[trigger] b[k]),
        0 <= ws_end(b, p) < b.len() ==> !is_ws_byte(b[ws_end(b, p)]),
    decreases b.len() - p,
{
    if 0 <= p < b.len() && is_ws_byte(b[p]) {
        lemma_ws_end(b, p + 1);
    }
}

pub open spec fn literal_at(b: Seq<u8>, p: int, lit: Seq<u8>) -> bool {
    0 <= p && p + lit.len() <= b.len() && b.subrange(p, p + lit.len()) == lit
}

/// The bytes left from `p` on.
pub open spec fn rem(b: Seq<u8>, p: int) -> nat {
    if p < b.len() { (b.len() - p) as nat } else { 0 }
}

/// A value at `p` (see `array_at`, `object_at`, `string_at`, `number_at`).
pub open spec fn value_at(b: Seq<u8>, p: int) -> Parsed
    decreases rem(b, p), 2int,
{
    if p < 0 || p >= b.len() {
        Parsed::Fail("unexpected end of input")
    } else {
        let c = b[p];
        if c == 34 {
            match string_at(b, p) {
                Ok((s, e)) => Parsed::Done(Json::Str(s), e),
                Err(m) => Parsed::Fail(m),
            }
        } else if c == 123 {
            object_at(b, p)
        } else if c == 91 {
            array_at(b, p)
        } else if c == 116 || c == 102 {
            if literal_at(b, p, seq![116u8, 114, 117, 101]) {
                Parsed::Done(Json::Bool(true), p + 4)
            } else if literal_at(b, p, seq![102u8, 97, 108, 115, 101]) {
                Parsed::Done(Json::Bool(false), p + 5)
            } else {
                Parsed::Fail("expected boolean")
            }
        } else if c == 110 {
            if literal_at(b, p, seq![110u8, 117, 108, 108]) {
                Parsed::Done(Json::Null, p + 4)
            } else {
                Parsed::Fail("expected 'null'")
            }
        } else if c == 45 || is_digit_byte(c) {
            number_at(b, p)
        } else {
            Parsed::Fail("unexpected character")
        }
    }
}

/// An array at `p` (`b[p]` is `[`).
pub open spec fn array_at(b: Seq<u8>, p: int) -> Parsed
    decreases rem(b, p), 1int,
{
    let i = ws_end(b, p + 1);
    if !(0 <= p < b.len() && b[p] == 91) {
        Parsed::Fail("unexpected character")
    } else if 0 <= i < b.len() && b[i] == 93 {
        Parsed::Done(Json::Array(Seq::empty()), i + 1)
    } else {
        proof {
            lemma_ws_end(b, p + 1);
        }
        items_from(b, i, Seq::empty())
    }
}

/// The elements of an array from `i` on, `acc` read so far: a value, then
/// `,` and more, or `]`.
pub open spec fn items_from(b: Seq<u8>, i: int, acc: Seq<Json>) -> Parsed
    decreases rem(b, i) + 1, 0int,
{
    let q = ws_end(b, i);
    proof {
        lemma_ws_end(b, i);
    }
    {
        match value_at(b, q) {
            Parsed::Done(v, next) => if next <= q {
                Parsed::Fail("unexpected character")
            } else {
                let j = ws_end(b, next);
                if next <= j < b.len() && b[j] == 44 {
                    items_from(b, j + 1, acc.push(v))
                } else if next <= j < b.len() && b[j] == 93 {
                    Parsed::Done(Json::Array(acc.push(v)), j + 1)
                } else {
                    Parsed::Fail("unexpected character")
                }
            },
            other => other,
        }
    }
}

/// An object at `p` (`b[p]` is `{`).
pub open spec fn object_at(b: Seq<u8>, p: int) -> Parsed
    decreases rem(b, p), 1int,
{
    let i = ws_end(b, p + 1);
    if !(0 <= p < b.len() && b[p] == 123) {
        Parsed::Fail("unexpected character")
    } else if 0 <= i < b.len() && b[i] == 125 {
        Parsed::Done(Json::Object(Seq::empty()), i + 1)
    } else {
        proof {
            lemma_ws_end(b, p + 1);
        }
        members_from(b, i, Seq::empty())
    }
}

/// The members of an object from `i` on: a string key, `:`, a value, then
/// `,` and more, or `}`.
pub open spec fn members_from(b: Seq<u8>, i: int, acc: Seq<(Seq<char>, Json)>) -> Parsed
    decreases rem(b, i) + 1, 0int,
{
    let k0 = ws_end(b, i);
    match string_at(b, k0) {
        Err(m) => Parsed::Fail(m),
        Ok((key, next)) => {
            let c = ws_end(b, next);
            if !(0 <= c < b.len() && b[c] == 58) {
                Parsed::Fail("unexpected character")
            } else {
                let vq = ws_end(b, c + 1);
                proof {
                    lemma_ws_end(b, i);
                    lemma_str_body(b, k0 + 1, Seq::empty());
                    lemma_ws_end(b, next);
                    lemma_ws_end(b, c + 1);
                }
                {
                    match value_at(b, vq) {
                        Parsed::Done(v, n2) => if n2 <= vq {
                            Parsed::Fail("unexpected character")
                        } else {
                            let j = ws_end(b, n2);
                            if n2 <= j < b.len() && b[j] == 44 {
                                members_from(b, j + 1, acc.push((key, v)))
                            } else if n2 <= j < b.len() && b[j] == 125 {
                                Parsed::Done(Json::Object(acc.push((key, v))), j + 1)
                            } else {
                                Parsed::Fail("unexpected character")
                            }
                        },
                        other => other,
                    }
                }
            }
        },
    }
}

/// What parsing the text with UTF-8 bytes `b` gives: a value with nothing
/// but whitespace after it, an error, or an overflow.
pub open spec fn parse_bytes(b: Seq<u8>) -> Parsed {
    match value_at(b, ws_end(b, 0)) {
        Parsed::Done(v, pos) => if ws_end(b, pos) != b.len() { Parsed::Fail("trailing characters") } else {
            Parsed::Done(v, pos)
        },
        other => other,
    }
}

proof fn lemma_digits_end(b: Seq<u8>, p: int)
    requires
        0 <= p <= b.len(),
    ensures
        p <= digits_end(b, p) <= b.len(),
        forall|k: int| p <= k < digits_end(b, p) ==> is_digit_byte(#[trigger] b[k]),
        digits_end(b, p) < b.len() ==> !is_digit_byte(b[digits_end(b, p)]),
    decreases b.len() - p,
{
    if p < b.len() && is_digit_byte(b[p]) {
        lemma_digits_end(b, p + 1);
    }
}

proof fn lemma_digits_val_mono(b: Seq<u8>, i: int, k: int, e: int)
    requires
        i <= k <= e,
        forall|x: int| i <= x < e ==> is_digit_byte(#[trigger] b[x]),
    ensures
        digits_val(b, i, k) <= digits_val(b, i, e),
    decreases e - k,
{
    if k < e {
        lemma_digits_val_mono(b, i, k, e - 1);
        assert(is_digit_byte(b[e - 1]));
    }
}

proof fn lemma_digits_val_bound(b: Seq<u8>, i: int, e: int)
    requires
        i <= e,
        forall|x: int| i <= x < e ==> is_digit_byte(#[trigger] b[x]),
    ensures
        digits_val(b, i, e) < pow10((e - i) as nat),
    decreases e - i,
{
    if i < e {
        lemma_digits_val_bound(b, i, e - 1);
        assert(is_digit_byte(b[e - 1]));
        assert(pow10((e - i) as nat) == pow10((e - 1 - i) as nat) * 10);
    }
}

fn skip_ws(b: &[u8], p: usize) -> (r: usize)
    requires
        p <= b@.len(),
    ensures
        r == ws_end(b@, p as int),
        p <= r <= b@.len(),
{
    proof {
        lemma_ws_end(b@, p as int);
    }
    let mut i = p;
    while i < b.len() && (b[i] == 32 || b[i] == 9 || b[i] == 10 || b[i] == 13)
        invariant
            p <= i <= b@.len(),
            ws_end(b@, p as int) == ws_end(b@, i as int),
        decreases b@.len() - i,
    {
        i = i + 1;
    }
    i
}

fn digits_to(b: &[u8], p: usize) -> (r: usize)
    requires
        p <= b@.len(),
    ensures
        r == digits_end(b@, p as int),
        p <= r <= b@.len(),
{
    proof {
        lemma_digits_end(b@, p as int);
    }
    let mut i = p;
    while i < b.len() && 48 <= b[i] && b[i] <= 57
        invariant
            p <= i <= b@.len(),
            digits_end(b@, p as int) == digits_end(b@, i as int),
        decreases b@.len() - i,
    {
        i = i + 1;
    }
    i
}

fn skip_exp(b: &[u8], p: usize) -> (r: usize)
    requires
        p <= b@.len(),
    ensures
        r == exp_end(b@, p as int),
        p <= r <= b@.len(),
{
    if p < b.len() && (b[p] == 101 || b[p] == 69) {
        let q = if p + 1 < b.len() && (b[p + 1] == 43 || b[p + 1] == 45) { p + 2 } else { p + 1 };
        digits_to(b, q)
    } else {
        p
    }
}

/// The fraction digits `b[f0..fe]` as the scaled part of a `Float`.
fn frac_scaled(b: &[u8], f0: usize, fe: usize) -> (r: i64)
    requires
        f0 <= fe <= b@.len(),
        forall|x: int| f0 <= x < fe ==> is_digit_byte(#[trigger] b@[x]),
        fe - f0 <= u32::MAX,
        digits_val(b@, f0 as int, fe as int) <= i64::MAX,
    ensures
        r as nat == if fe - f0 < 6 {
            digits_val(b@, f0 as int, fe as int) * pow10((6 - (fe - f0)) as nat)
        } else {
            div10_times(digits_val(b@, f0 as int, fe as int), (fe - f0 - 6) as nat)
        },
        r >= 0,
        r < 1_000_000 || fe - f0 >= 6,
{
    let mut frac: i64 = 0;
    let mut fd: u32 = 0;
    let mut i = f0;
    while i < fe
        invariant
            f0 <= i <= fe,
            fe <= b@.len(),
            forall|x: int| f0 <= x < fe ==> is_digit_byte(#[trigger] b@[x]),
            fe - f0 <= u32::MAX,
            digits_val(b@, f0 as int, fe as int) <= i64::MAX,
            frac as int == digits_val(b@, f0 as int, i as int),
            fd as int == i - f0,
        decreases fe - i,
    {
        proof {
            lemma_digits_val_mono(b@, f0 as int, i + 1, fe as int);
            assert(is_digit_byte(b@[i as int]));
        }
        frac = frac * 10 + (b[i] - 48) as i64;
        fd = fd + 1;
        i = i + 1;
    }
    let ghost fv = digits_val(b@, f0 as int, fe as int);
    let mut fs = frac;
    assert(fs as nat == fv);
    if fd < 6 {
        proof {
            lemma_digits_val_bound(b@, f0 as int, fe as int);
            assert(pow10(0) == 1);
            assert(fv * pow10(0) == fv);
        }
        let mut j: u32 = fd;
        while j < 6
            invariant
                fd <= j <= 6,
                fd < 6,
                fs >= 0,
                fs as nat == fv * pow10((j - fd) as nat),
                (fs as int) < pow10(j as nat),
            decreases 6 - j,
        {
            assert(pow10((j + 1) as nat) == pow10(j as nat) * 10);
            assert(pow10((j + 1 - fd) as nat) == pow10((j - fd) as nat) * 10);
            assert(fv * (pow10((j - fd) as nat) * 10) == (fv * pow10((j - fd) as nat)) * 10) by (nonlinear_arith);
            proof {
                lemma_pow10_6();
            }
            assert(pow10(j as nat) * 10 <= pow10(6) * 1) by {
                lemma_pow10_6();
                assert(pow10(j as nat) * 10 == pow10((j + 1) as nat));
                lemma_pow10_mono((j + 1) as nat, 6);
            }
            fs = fs * 10;
            j = j + 1;
        }
        proof {
            lemma_pow10_6();
        }
    } else {
        let mut j: u32 = 6;
        while j < fd
            invariant
                6 <= j <= fd,
                fs >= 0,
                fs as nat == div10_times(fv, (j - 6) as nat),
            decreases fd - j,
        {
            fs = fs / 10;
            j = j + 1;
        }
    }
    fs
}

proof fn lemma_pow10_6()
    ensures
        pow10(6) == 1_000_000,
{
    reveal_with_fuel(pow10, 7);
}

proof fn lemma_pow10_mono(a: nat, c: nat)
    requires
        a <= c,
    ensures
        pow10(a) <= pow10(c),
    decreases c - a,
{
    if a < c {
        lemma_pow10_mono(a, (c - 1) as nat);
    }
}

fn parse_number(b: &[u8], p: usize) -> (r: Result<(JsonValue, usize), &'static str>)
    requires
        p < b@.len(),
        !(number_at(b@, p as int) is Overflow),
    ensures
        match r {
            Ok((v, e)) => number_at(b@, p as int) == Parsed::Done(v.model(), e as int) && p < e <= b@.len(),
            Err(m) => number_at(b@, p as int) == Parsed::Fail(m),
        },
{
    let neg = b[p] == 45;
    let i: usize = if neg { p + 1 } else { p };
    if i >= b.len() || !(48 <= b[i] && b[i] <= 57) {
        return Err("expected digit");
    }
    let e = digits_to(b, i);
    proof {
        lemma_digits_end(b@, i as int);
        lemma_digits_end(b@, i + 1);
        assert(digits_end(b@, i as int) == digits_end(b@, i + 1));
    }
    let mut iv: i64 = 0;
    let mut k = i;
    while k < e
        invariant
            p < b@.len(),
            neg == (b@[p as int] == 45),
            i as int == if neg { p + 1 } else { p as int },
            i < b@.len(),
            is_digit_byte(b@[i as int]),
            e as int == digits_end(b@, i as int),
            i <= k <= e,
            e <= b@.len(),
            forall|x: int| i <= x < e ==> is_digit_byte(#[trigger] b@[x]),
            iv as int == digits_val(b@, i as int, k as int),
        decreases e - k,
    {
        assert(is_digit_byte(b@[k as int]));
        let d = (b[k] - 48) as i64;
        if iv > (i64::MAX - d) / 10 {
            proof {
                assert(iv * 10 + d > i64::MAX) by (nonlinear_arith)
                    requires
                        iv > (i64::MAX - d) / 10,
                        0 <= d <= 9,
                ;
                lemma_digits_val_mono(b@, i as int, k + 1, e as int);
                assert(digits_val(b@, i as int, k + 1) == iv * 10 + d);
            }
            return Err("number overflow");
        }
        proof {
            assert(iv * 10 + d <= i64::MAX) by (nonlinear_arith)
                requires
                    iv <= (i64::MAX - d) / 10,
                    0 <= d <= 9,
            ;
        }
        iv = iv * 10 + d;
        k = k + 1;
    }
    if e < b.len() && b[e] == 46 {
        let f0 = e + 1;
        let fe = digits_to(b, f0);
        proof {
            lemma_digits_end(b@, f0 as int);
        }
        let fs = frac_scaled(b, f0, fe);
        if iv > i64::MAX / 1_000_000 {
            assert(iv * 1_000_000 > i64::MAX) by (nonlinear_arith)
                requires
                    iv > i64::MAX / 1_000_000,
            ;
            return Err("number overflow");
        }
        let scaled = iv * 1_000_000;
        if fs > i64::MAX - scaled {
            return Err("number overflow");
        }
        let sum = scaled + fs;
        let val = if neg { -sum } else { sum };
        Ok((JsonValue::Float(val), skip_exp(b, fe)))
    } else {
        let val = if neg { -iv } else { iv };
        Ok((JsonValue::Number(val), skip_exp(b, e)))
    }
}

/// Parse a string body, returning the text and the position after the
/// closing quote.
fn parse_string_raw(b: &[u8], p: usize) -> (r: Result<(String, usize), &'static str>)
    requires
        p <= b@.len(),
    ensures
        match r {
            Ok((s, e)) => string_at(b@, p as int) == Ok::<(Seq<char>, int), &'static str>((s@, e as int)) && p < e
                <= b@.len(),
            Err(m) => string_at(b@, p as int) == Err::<(Seq<char>, int), &'static str>(m),
        },
{
    if !(p < b.len() && b[p] == 34) {
        return Err("unexpected character");
    }
    let mut s = String::new();
    let mut i = p + 1;
    while i < b.len()
        invariant
            p < i <= b@.len(),
            string_at(b@, p as int) == str_body(b@, i as int, s@),
        decreases b@.len() - i,
    {
        let c = b[i];
        if c == 34 {
            return Ok((s, i + 1));
        } else if c == 92 {
            let k = i + 1;
            if k >= b.len() {
                return Err("unexpected end of escape");
            }
            let e = b[k];
            if e == 34 {
                push_char(&mut s, '"');
            } else if e == 92 {
                push_char(&mut s, '\\');
            } else if e == 47 {
                push_char(&mut s, '/');
            } else if e == 98 {
                push_char(&mut s, '\x08');
            } else if e == 102 {
                push_char(&mut s, '\x0c');
            } else if e == 110 {
                push_char(&mut s, '\n');
            } else if e == 114 {
                push_char(&mut s, '\r');
            } else if e == 116 {
                push_char(&mut s, '\t');
            } else if e == 117 {
                if b.len() - k <= 4 {
                    return Err("incomplete unicode escape");
                }
                let h = vstd::slice::slice_subrange(b, k + 1, k + 5);
                let hex = match str_from_utf8(h) {
                    Some(t) => t,
                    None => {
                        return Err("invalid unicode escape");
                    },
                };
                proof {
                    vstd::utf8::encode_utf8_decode_utf8(hex@);
                    assert(h@ == b@.subrange(k + 1, k + 5));
                }
                let cp = match parse_hex_u64_max(hex, 0xFFFF) {
                    Some(v) => v,
                    None => {
                        return Err("invalid unicode hex");
                    },
                };
                let ch = match char_from_u32(cp as u32) {
                    Some(ch) => ch,
                    None => {
                        return Err("invalid code point");
                    },
                };
                proof {
                    vstd::utf8::char_u32_cast(ch, cp as u32);
                }
                push_char(&mut s, ch);
                i = k + 5;
                continue;
            } else {
                return Err("invalid escape character");
            }
            i = k + 1;
        } else {
            push_char(&mut s, c as char);
            i = i + 1;
        }
    }
    Err("unterminated string")
}

fn literal_here(b: &[u8], p: usize, lit: &[u8]) -> (r: bool)
    ensures
        r == literal_at(b@, p as int, lit@),
{
    if p > b.len() || lit.len() > b.len() - p {
        return false;
    }
    let n = b.len();
    let mut k: usize = 0;
    while k < lit.len()
        invariant
            n == b@.len(),
            k <= lit@.len(),
            p <= b@.len(),
            p + lit@.len() <= b@.len(),
            forall|x: int| 0 <= x < k ==> b@[p + x] == lit@[x],
        decreases lit@.len() - k,
    {
        if b[p + k] != lit[k] {
            assert(b@.subrange(p as int, p + lit@.len())[k as int] != lit@[k as int]);
            return false;
        }
        k = k + 1;
    }
    assert(b@.subrange(p as int, p + lit@.len()) =~= lit@);
    true
}

/// Parse a value at `p` (see `value_at`).
fn parse_value(b: &[u8], p: usize) -> (r: Result<(JsonValue, usize), &'static str>)
    requires
        p <= b@.len(),
        !(value_at(b@, p as int) is Overflow),
    ensures
        match r {
            Ok((v, e)) => value_at(b@, p as int) == Parsed::Done(v.model(), e as int) && p < e <= b@.len(),
            Err(m) => value_at(b@, p as int) == Parsed::Fail(m),
        },
    decreases rem(b@, p as int), 2int,
{
    if p >= b.len() {
        return Err("unexpected end of input");
    }
    let c = b[p];
    if c == 34 {
        match parse_string_raw(b, p) {
            Ok((s, e)) => Ok((JsonValue::String(s), e)),
            Err(m) => Err(m),
        }
    } else if c == 123 {
        parse_object(b, p)
    } else if c == 91 {
        parse_array(b, p)
    } else if c == 116 || c == 102 {
        let t: [u8; 4] = [116, 114, 117, 101];
        let f: [u8; 5] = [102, 97, 108, 115, 101];
        assert(t@ == seq![116u8, 114, 117, 101]);
        assert(f@ == seq![102u8, 97, 108, 115, 101]);
        if literal_here(b, p, &t) {
            Ok((JsonValue::Bool(true), p + 4))
        } else if literal_here(b, p, &f) {
            Ok((JsonValue::Bool(false), p + 5))
        } else {
            Err("expected boolean")
        }
    } else if c == 110 {
        let n: [u8; 4] = [110, 117, 108, 108];
        assert(n@ == seq![110u8, 117, 108, 108]);
        if literal_here(b, p, &n) {
            Ok((JsonValue::Null, p + 4))
        } else {
            Err("expected 'null'")
        }
    } else if c == 45 || (48 <= c && c <= 57) {
        parse_number(b, p)
    } else {
        Err("unexpected character")
    }
}

/// Parse an array at `p` (see `array_at`).
fn parse_array(b: &[u8], p: usize) -> (r: Result<(JsonValue, usize), &'static str>)
    requires
        p <= b@.len(),
        !(array_at(b@, p as int) is Overflow),
    ensures
        match r {
            Ok((v, e)) => array_at(b@, p as int) == Parsed::Done(v.model(), e as int) && p < e <= b@.len(),
            Err(m) => array_at(b@, p as int) == Parsed::Fail(m),
        },
    decreases rem(b@, p as int), 1int,
{
    if !(p < b.len() && b[p] == 91) {
        return Err("unexpected character");
    }
    let mut i = skip_ws(b, p + 1);
    if i < b.len() && b[i] == 93 {
        let v: Vec<JsonValue> = Vec::new();
        assert(items_model(v@) =~= Seq::<Json>::empty());
        return Ok((JsonValue::Array(v), i + 1));
    }
    let mut elems: Vec<JsonValue> = Vec::new();
    assert(items_model(elems@) =~= Seq::<Json>::empty());
    loop
        invariant
            p < i <= b@.len(),
            p < b@.len(),
            array_at(b@, p as int) == items_from(b@, i as int, items_model(elems@)),
            !(array_at(b@, p as int) is Overflow),
        decreases rem(b@, i as int),
    {
        let q = skip_ws(b, i);
        let ghost acc = items_model(elems@);
        match parse_value(b, q) {
            Err(m) => {
                return Err(m);
            },
            Ok((val, next)) => {
                let ghost vm = val.model();
                elems.push(val);
                assert(items_model(elems@) =~= acc.push(vm));
                let j = skip_ws(b, next);
                if j < b.len() && b[j] == 44 {
                    i = j + 1;
                } else if j < b.len() && b[j] == 93 {
                    return Ok((JsonValue::Array(elems), j + 1));
                } else {
                    return Err("unexpected character");
                }
            },
        }
    }
}

/// Parse an object at `p` (see `object_at`).
fn parse_object(b: &[u8], p: usize) -> (r: Result<(JsonValue, usize), &'static str>)
    requires
        p <= b@.len(),
        !(object_at(b@, p as int) is Overflow),
    ensures
        match r {
            Ok((v, e)) => object_at(b@, p as int) == Parsed::Done(v.model(), e as int) && p < e <= b@.len(),
            Err(m) => object_at(b@, p as int) == Parsed::Fail(m),
        },
    decreases rem(b@, p as int), 1int,
{
    if !(p < b.len() && b[p] == 123) {
        return Err("unexpected character");
    }
    let mut i = skip_ws(b, p + 1);
    if i < b.len() && b[i] == 125 {
        let v: Vec<(String, JsonValue)> = Vec::new();
        assert(pairs_model(v@) =~= Seq::<(Seq<char>, Json)>::empty());
        return Ok((JsonValue::Object(v), i + 1));
    }
    let mut pairs: Vec<(String, JsonValue)> = Vec::new();
    assert(pairs_model(pairs@) =~= Seq::<(Seq<char>, Json)>::empty());
    loop
        invariant
            p < i <= b@.len(),
            p < b@.len(),
            object_at(b@, p as int) == members_from(b@, i as int, pairs_model(pairs@)),
            !(object_at(b@, p as int) is Overflow),
        decreases rem(b@, i as int),
    {
        let k0 = skip_ws(b, i);
        let ghost acc = pairs_model(pairs@);
        let (key, next) = match parse_string_raw(b, k0) {
            Ok(x) => x,
            Err(m) => {
                return Err(m);
            },
        };
        let c = skip_ws(b, next);
        if !(c < b.len() && b[c] == 58) {
            return Err("unexpected character");
        }
        let vq = skip_ws(b, c + 1);
        match parse_value(b, vq) {
            Err(m) => {
                return Err(m);
            },
            Ok((val, n2)) => {
                let ghost km = key@;
                let ghost vm = val.model();
                pairs.push((key, val));
                assert(pairs_model(pairs@) =~= acc.push((km, vm)));
                let j = skip_ws(b, n2);
                if j < b.len() && b[j] == 44 {
                    i = j + 1;
                } else if j < b.len() && b[j] == 125 {
                    return Ok((JsonValue::Object(pairs), j + 1));
                } else {
                    return Err("unexpected character");
                }
            },
        }
    }
}

/// Whether parsing `input` would overflow: a number whose fraction has
/// more digits than 64 bits hold (the parser panics on it).
pub open spec fn parse_overflows(input: Seq<char>) -> bool {
    parse_bytes(vstd::utf8::encode_utf8(input)) is Overflow
}

/// What parsing `input` gives (see `value_at`): the value, or the first
/// error met.
pub open spec fn parse_spec(input: Seq<char>) -> Result<Json, &'static str> {
    match parse_bytes(vstd::utf8::encode_utf8(input)) {
        Parsed::Done(v, _) => Ok(v),
        Parsed::Fail(m) => Err(m),
        Parsed::Overflow => Err("number overflow"),
    }
}

/// Parse a JSON text: one value, with only whitespace around it.
pub fn parse(input: &str) -> (r: Result<JsonValue, &'static str>)
    requires
        !parse_overflows(input@),
    ensures
        match r {
            Ok(v) => parse_spec(input@) == Ok::<Json, &'static str>(v.model()),
            Err(m) => parse_spec(input@) == Err::<Json, &'static str>(m),
        },
{
    let b = input.as_bytes();
    let q = skip_ws(b, 0);
    let (value, pos) = match parse_value(b, q) {
        Ok(x) => x,
        Err(m) => {
            return Err(m);
        },
    };
    if skip_ws(b, pos) != b.len() {
        return Err("trailing characters");
    }
    Ok(value)
}

} // verus!
