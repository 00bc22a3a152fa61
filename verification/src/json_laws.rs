//! What parsing gives back of a written JSON value: the compact text of a
//! value parses to that value.
use vstd::prelude::*;
use crate::json::{Json, Parsed, is_ws_byte, is_digit_byte, digits_end, digits_val, value_at, number_at, exp_end,
    pow10, div10_times, dec_fixed, trim_zeros, frac_text, float_text, esc_char, esc_chars, quoted, str_body, string_at,
    text_of, items_text, pairs_text, fits, items_fit, pairs_fit, lemma_items_fit, lemma_pairs_fit, indent_text, nl_text,
    ws_end, array_at, object_at, items_from, members_from, parse_bytes, parse_spec, parse_overflows};
use crate::text::{hex_digit, hex_value, all_hex, parse_hex_uint};
use vstd::utf8::{is_ascii_chars, encode_utf8, valid_utf8, decode_utf8};
use crate::text::{dec, sdec, digit_char, all_digits, digits_value, lemma_dec_digits};

verus! {

/// The bytes of a text of ASCII characters.
pub open spec fn asc(t: Seq<char>) -> Seq<u8> {
    Seq::new(t.len(), |k: int| t[k] as u8)
}

/// Whether the text `t` lies in `b` from `p` on.
pub open spec fn lies_at(b: Seq<u8>, p: int, t: Seq<char>) -> bool {
    0 <= p && p + t.len() <= b.len() && b.subrange(p, p + t.len()) == asc(t)
}

/// Whether the byte at `k` may follow a value: the end, a separator, a
/// closing bracket or whitespace.
pub open spec fn ends_value(b: Seq<u8>, k: int) -> bool {
    k >= b.len() || b[k] == 44 || b[k] == 93 || b[k] == 125 || is_ws_byte(b[k])
}

proof fn lemma_lies_at_index(b: Seq<u8>, p: int, t: Seq<char>, k: int)
    requires
        lies_at(b, p, t),
        0 <= k < t.len(),
    ensures
        b[p + k] == t[k] as u8,
{
    assert(b.subrange(p, p + t.len())[k] == asc(t)[k]);
}

proof fn lemma_lies_at_split(b: Seq<u8>, p: int, t1: Seq<char>, t2: Seq<char>)
    requires
        lies_at(b, p, t1 + t2),
    ensures
        lies_at(b, p, t1),
        lies_at(b, p + t1.len(), t2),
{
    let t = t1 + t2;
    assert forall|k: int| 0 <= k < t1.len() implies b.subrange(p, p + t1.len())[k] == asc(t1)[k] by {
        lemma_lies_at_index(b, p, t, k);
        assert(t[k] == t1[k]);
    }
    assert(b.subrange(p, p + t1.len()) =~= asc(t1));
    assert forall|k: int| 0 <= k < t2.len() implies b.subrange(p + t1.len(), p + t1.len() + t2.len())[k]
        == asc(t2)[k] by {
        lemma_lies_at_index(b, p, t, t1.len() + k);
        assert(t[t1.len() + k] == t2[k]);
    }
    assert(b.subrange(p + t1.len(), p + t1.len() + t2.len()) =~= asc(t2));
}

proof fn lemma_digit_run(b: Seq<u8>, i: int, d: Seq<char>, k: int)
    requires
        lies_at(b, i, d),
        all_digits(d),
        0 <= k <= d.len(),
    ensures
        digits_val(b, i, i + k) == digits_value(d.subrange(0, k)),
        forall|x: int| i <= x < i + k ==> is_digit_byte(#[trigger] b[x]),
    decreases k,
{
    if k > 0 {
        lemma_digit_run(b, i, d, k - 1);
        lemma_lies_at_index(b, i, d, k - 1);
        let c = d[k - 1];
        assert('0' <= c <= '9');
        assert((c as u8) as int == c as u32);
        let s = d.subrange(0, k);
        assert(s.drop_last() =~= d.subrange(0, k - 1));
        assert(s.last() == c);
    } else {
        assert(d.subrange(0, 0) =~= Seq::<char>::empty());
    }
}

proof fn lemma_digits_end_at(b: Seq<u8>, i: int, d: Seq<char>, k: int)
    requires
        lies_at(b, i, d),
        all_digits(d),
        0 <= k <= d.len(),
        i + d.len() >= b.len() || !is_digit_byte(b[i + d.len()]),
    ensures
        digits_end(b, i + k) == i + d.len(),
    decreases d.len() - k,
{
    if k < d.len() {
        lemma_lies_at_index(b, i, d, k);
        assert('0' <= d[k] <= '9');
        lemma_digits_end_at(b, i, d, k + 1);
    }
}

/// A run of digits in `b`: where it ends and its value.
proof fn lemma_digits(b: Seq<u8>, i: int, d: Seq<char>)
    requires
        lies_at(b, i, d),
        all_digits(d),
        i + d.len() >= b.len() || !is_digit_byte(b[i + d.len()]),
    ensures
        digits_end(b, i) == i + d.len(),
        digits_val(b, i, i + d.len()) == digits_value(d),
        forall|x: int| i <= x < i + d.len() ==> is_digit_byte(#[trigger] b[x]),
{
    lemma_digit_run(b, i, d, d.len() as int);
    assert(d.subrange(0, d.len() as int) =~= d);
    lemma_digits_end_at(b, i, d, 0);
}

/// The written text of a `Number` reads back as that number.
proof fn lemma_number(b: Seq<u8>, p: int, n: i64)
    requires
        n != i64::MIN,
        lies_at(b, p, sdec(n as int)),
        ends_value(b, p + sdec(n as int).len()),
    ensures
        value_at(b, p) == Parsed::Done(Json::Number(n), p + sdec(n as int).len()),
{
    let m: nat = if n < 0 { (-n) as nat } else { n as nat };
    lemma_dec_digits(m);
    let d = dec(m);
    let i = if n < 0 { p + 1 } else { p };
    if n < 0 {
        assert(sdec(n as int) == seq!['-'] + d);
        lemma_lies_at_split(b, p, seq!['-'], d);
        lemma_lies_at_index(b, p, seq!['-'], 0);
    } else {
        assert(sdec(n as int) == d);
        lemma_lies_at_index(b, p, d, 0);
        assert('0' <= d[0] <= '9');
    }
    lemma_digits(b, i, d);
    lemma_lies_at_index(b, i, d, 0);
    assert('0' <= d[0] <= '9');
}

proof fn lemma_dec_fixed(n: nat, k: nat)
    requires
        n < pow10(k),
    ensures
        dec_fixed(n, k).len() == k,
        all_digits(dec_fixed(n, k)),
        digits_value(dec_fixed(n, k)) == n,
    decreases k,
{
    if k > 0 {
        assert(pow10(k) == pow10((k - 1) as nat) * 10);
        lemma_dec_fixed(n / 10, (k - 1) as nat);
        let d = (n % 10) as nat;
        let c = digit_char(d);
        assert(c as u32 == d + 48);
        let s = dec_fixed(n, k);
        assert(s == dec_fixed(n / 10, (k - 1) as nat).push(c));
        assert(s.drop_last() =~= dec_fixed(n / 10, (k - 1) as nat));
        assert forall|j: int| 0 <= j < s.len() implies '0' <= #[trigger] s[j] <= '9' by {
            if j < s.len() - 1 {
                assert(s[j] == dec_fixed(n / 10, (k - 1) as nat)[j]);
            }
        }
    } else {
        assert(n == 0);
    }
}

proof fn lemma_trim_zeros_value(s: Seq<char>)
    requires
        all_digits(s),
    ensures
        trim_zeros(s).len() <= s.len(),
        trim_zeros(s) == s.subrange(0, trim_zeros(s).len() as int),
        digits_value(trim_zeros(s)) * pow10((s.len() - trim_zeros(s).len()) as nat) == digits_value(s),
    decreases s.len(),
{
    if s.len() > 0 && s.last() == '0' {
        let d = s.drop_last();
        assert forall|j: int| 0 <= j < d.len() implies '0' <= #[trigger] d[j] <= '9' by {
            assert(d[j] == s[j]);
        }
        lemma_trim_zeros_value(d);
        let t = trim_zeros(d);
        assert(trim_zeros(s) == t);
        assert(t =~= s.subrange(0, t.len() as int)) by {
            assert(t == d.subrange(0, t.len() as int));
        }
        let e: nat = (d.len() - t.len()) as nat;
        let e1: nat = (s.len() - t.len()) as nat;
        assert(e1 == e + 1);
        assert(pow10(e1) == pow10(e) * 10);
        let vt = digits_value(t);
        let vd = digits_value(d);
        assert(digits_value(s) == vd * 10);
        assert(vt * pow10(e) == vd);
        assert(vt * (pow10(e) * 10) == (vt * pow10(e)) * 10) by (nonlinear_arith);
        assert(vt * pow10(e1) == digits_value(s));
    } else {
        assert(trim_zeros(s) == s);
        assert(s.subrange(0, s.len() as int) =~= s);
        assert((s.len() - s.len()) as nat == 0);
        assert(pow10(0) == 1);
        assert(digits_value(s) * pow10(0) == digits_value(s));
    }
}

/// The fraction digits of a `Float` read back as its remainder.
proof fn lemma_frac_text(r: nat)
    requires
        r < 1_000_000,
    ensures
        1 <= frac_text(r).len() <= 6,
        all_digits(frac_text(r)),
        digits_value(frac_text(r)) < 1_000_000,
        (if frac_text(r).len() < 6 {
            digits_value(frac_text(r)) * pow10((6 - frac_text(r).len()) as nat)
        } else {
            div10_times(digits_value(frac_text(r)), 0)
        }) == r,
{
    reveal_with_fuel(pow10, 7);
    lemma_dec_fixed(r, 6);
    let s = dec_fixed(r, 6);
    lemma_trim_zeros_value(s);
    let t = trim_zeros(s);
    assert forall|j: int| 0 <= j < t.len() implies '0' <= #[trigger] t[j] <= '9' by {
        assert(t[j] == s[j]);
    }
    if t.len() == 0 {
        assert(digits_value(t) == 0);
        assert(r == 0) by (nonlinear_arith)
            requires
                digits_value(t) * pow10(6) == r,
                digits_value(t) == 0,
        ;
        reveal_strlit("0");
        let z = frac_text(r);
        assert(trim_zeros(dec_fixed(r, 6)) == t);
        assert(frac_text(r) == (if t.len() == 0 { "0"@ } else { t }));
        assert(z == "0"@);
        assert(z.len() == 1);
        assert(z[0] == '0');
        assert(z.last() == '0');
        assert(z.drop_last() =~= Seq::<char>::empty());
        assert(digits_value(z.drop_last()) == 0);
        assert(('0' as u32) - 48 == 0);
        assert(digits_value(z) == 0);
        assert(digits_value(z) * pow10(5) == 0) by (nonlinear_arith)
            requires
                digits_value(z) == 0,
        ;
    } else {
        assert(frac_text(r) == t);
        let v = digits_value(t);
        assert(s.len() == 6);
        assert(v * pow10((6 - t.len()) as nat) == r);
        if t.len() == 6 {
            assert(pow10(0) == 1);
            assert(v * pow10(0) == v) by (nonlinear_arith)
                requires
                    pow10(0) == 1,
            ;
            assert(div10_times(v, 0) == v);
        }
        lemma_digits_value_le(t);
    }
}

proof fn lemma_digits_value_le(t: Seq<char>)
    requires
        all_digits(t),
        t.len() <= 6,
    ensures
        digits_value(t) < pow10(t.len()),
        digits_value(t) < 1_000_000,
    decreases t.len(),
{
    if t.len() > 0 {
        let d = t.drop_last();
        assert forall|j: int| 0 <= j < d.len() implies '0' <= #[trigger] d[j] <= '9' by {
            assert(d[j] == t[j]);
        }
        lemma_digits_value_le(d);
        assert('0' <= t[t.len() - 1] <= '9');
        assert(pow10(t.len()) == pow10(d.len()) * 10);
    }
    reveal_with_fuel(pow10, 7);
    lemma_pow10_le(t.len(), 6);
}

proof fn lemma_pow10_le(a: nat, c: nat)
    requires
        a <= c,
    ensures
        pow10(a) <= pow10(c),
    decreases c - a,
{
    if a < c {
        lemma_pow10_le(a, (c - 1) as nat);
    }
}

/// The written text of a `Float` reads back as that number.
proof fn lemma_float(b: Seq<u8>, p: int, x: i64)
    requires
        x != i64::MIN,
        lies_at(b, p, float_text(x)),
        ends_value(b, p + float_text(x).len()),
    ensures
        value_at(b, p) == Parsed::Done(Json::Float(x), p + float_text(x).len()),
{
    let a: int = if x < 0 { -x } else { x as int };
    let q = (a / 1_000_000) as nat;
    let r = (a % 1_000_000) as nat;
    lemma_dec_digits(q);
    lemma_frac_text(r);
    let d = dec(q);
    let f = frac_text(r);
    let sign: Seq<char> = if x < 0 { seq!['-'] } else { Seq::empty() };
    reveal_strlit(".");
    reveal_strlit("-");
    assert(float_text(x) =~= sign + d + seq!['.'] + f);
    assert(sign + d + seq!['.'] + f == sign + (d + (seq!['.'] + f)));
    lemma_lies_at_split(b, p, sign, d + (seq!['.'] + f));
    let i = p + sign.len();
    lemma_lies_at_split(b, i, d, seq!['.'] + f);
    let e = i + d.len();
    lemma_lies_at_split(b, e, seq!['.'], f);
    lemma_lies_at_index(b, e, seq!['.'], 0);
    lemma_digits(b, i, d);
    lemma_digits(b, e + 1, f);
    lemma_lies_at_index(b, i, d, 0);
    assert('0' <= d[0] <= '9');
    if x < 0 {
        lemma_lies_at_index(b, p, sign, 0);
    }
    assert(a == q * 1_000_000 + r);
}

proof fn lemma_esc_chars_concat(a: Seq<char>, c: Seq<char>)
    ensures
        esc_chars(a + c) == esc_chars(a) + esc_chars(c),
    decreases c.len(),
{
    if c.len() == 0 {
        assert(a + c =~= a);
        assert(esc_chars(a) + esc_chars(c) =~= esc_chars(a));
    } else {
        lemma_esc_chars_concat(a, c.drop_last());
        assert((a + c).drop_last() =~= a + c.drop_last());
        assert((a + c).last() == c.last());
    }
}

proof fn lemma_esc_chars_cons(s: Seq<char>)
    requires
        s.len() > 0,
    ensures
        esc_chars(s) == esc_char(s[0]) + esc_chars(s.drop_first()),
{
    assert(s =~= seq![s[0]] + s.drop_first());
    lemma_esc_chars_concat(seq![s[0]], s.drop_first());
    assert(seq![s[0]].drop_last() =~= Seq::<char>::empty());
    assert(seq![s[0]].last() == s[0]);
    assert(esc_chars(Seq::<char>::empty()) =~= Seq::<char>::empty());
    assert(esc_chars(seq![s[0]]) =~= esc_chars(Seq::<char>::empty()) + esc_char(s[0]));
    assert(esc_chars(seq![s[0]]) =~= esc_char(s[0]));
}

/// ASCII text as bytes is its UTF-8 encoding.
proof fn lemma_asc_utf8(t: Seq<char>)
    requires
        is_ascii_chars(t),
    ensures
        encode_utf8(t) == asc(t),
        valid_utf8(asc(t)),
        decode_utf8(asc(t)) == t,
{
    vstd::utf8::is_ascii_chars_encode_utf8(t);
    assert(encode_utf8(t) =~= asc(t));
    vstd::utf8::encode_utf8_valid_utf8(t);
    vstd::utf8::encode_utf8_decode_utf8(t);
}

proof fn lemma_hex_digit_char(d: nat)
    requires
        d < 16,
    ensures
        hex_digit(digit_char(d)) == Some(d),
{
}

/// The text of the escape `\u00XY` of a control character reads back as
/// its code.
proof fn lemma_u_escape(c: char)
    requires
        (c as u32) < 0x20,
    ensures
        ({
            let t = seq!['0', '0', digit_char((c as u32 / 16) as nat), digit_char((c as u32 % 16) as nat)];
            &&& is_ascii_chars(t)
            &&& parse_hex_uint(t, u16::MAX as nat) == Some((c as u32) as nat)
        }),
{
    let u = c as u32;
    let d1 = (u / 16) as nat;
    let d2 = (u % 16) as nat;
    let t = seq!['0', '0', digit_char(d1), digit_char(d2)];
    lemma_hex_digit_char(0);
    lemma_hex_digit_char(d1);
    lemma_hex_digit_char(d2);
    assert(digit_char(0) == '0');
    assert(t[0] == '0' && t[1] == '0');
    assert(all_hex(t));
    assert(t.drop_last() =~= seq!['0', '0', digit_char(d1)]);
    assert(t.drop_last().drop_last() =~= seq!['0', '0']);
    assert(seq!['0', '0'].drop_last() =~= seq!['0']);
    assert(seq!['0'].drop_last() =~= Seq::<char>::empty());
    assert(('0' as u32) == 48);
    assert(hex_digit('0') == Some(0nat));
    assert(hex_value(Seq::<char>::empty()) == 0);
    assert(seq!['0'].last() == '0');
    assert(hex_value(seq!['0']) == 0);
    assert(hex_value(seq!['0', '0']) == 0);
    assert(hex_value(seq!['0', '0', digit_char(d1)]) == d1);
    assert(hex_value(t) == d1 * 16 + d2);
    assert(d1 * 16 + d2 == u);
    assert(digit_char(d1) as u32 == d1 + 48);
    assert(digit_char(d2) as u32 <= 102);
    assert(is_ascii_chars(t));
}

/// The escaped text of a string, then its closing quote, reads back as
/// the string.
proof fn lemma_str_body_text(b: Seq<u8>, i: int, acc: Seq<char>, s: Seq<char>)
    requires
        is_ascii_chars(s),
        lies_at(b, i, esc_chars(s) + seq!['"']),
    ensures
        str_body(b, i, acc) == Ok::<(Seq<char>, int), &'static str>((acc + s, i + esc_chars(s).len() + 1)),
    decreases s.len(),
{
    if s.len() == 0 {
        assert(esc_chars(s) =~= Seq::<char>::empty());
        lemma_lies_at_index(b, i, esc_chars(s) + seq!['"'], 0);
        assert(acc + s =~= acc);
    } else {
        let c = s[0];
        let rest = s.drop_first();
        lemma_esc_chars_cons(s);
        let ec = esc_char(c);
        assert(esc_chars(s) + seq!['"'] =~= ec + (esc_chars(rest) + seq!['"']));
        lemma_lies_at_split(b, i, ec, esc_chars(rest) + seq!['"']);
        assert forall|k: int| 0 <= k < rest.len() implies '\0' <= #[trigger] rest[k] <= '\u{7f}' by {
            assert(rest[k] == s[k + 1]);
        }
        assert('\0' <= c <= '\u{7f}');
        lemma_str_body_text(b, i + ec.len(), acc.push(c), rest);
        assert(acc.push(c) + rest =~= acc + s);
        assert(i + ec.len() + esc_chars(rest).len() + 1 == i + esc_chars(s).len() + 1);
        let end = i + ec.len() + esc_chars(rest).len() + 1;
        assert(end <= b.len());
        reveal_strlit("\\\"");
        reveal_strlit("\\\\");
        reveal_strlit("\\n");
        reveal_strlit("\\r");
        reveal_strlit("\\t");
        reveal_strlit("\\b");
        reveal_strlit("\\f");
        reveal_strlit("\\u00");
        if c == '"' || c == '\\' || c == '\n' || c == '\r' || c == '\t' || c == '\x08' || c == '\x0c' {
            assert(ec.len() == 2);
            lemma_lies_at_index(b, i, ec, 0);
            lemma_lies_at_index(b, i, ec, 1);
            assert(b[i] == 92);
        } else if (c as u32) < 0x20 {
            lemma_u_escape(c);
            let u = c as u32;
            let t = seq!['0', '0', digit_char((u / 16) as nat), digit_char((u % 16) as nat)];
            assert(ec == seq!['\\', 'u'] + t);
            lemma_lies_at_split(b, i, seq!['\\', 'u'], t);
            lemma_lies_at_index(b, i, seq!['\\', 'u'], 0);
            lemma_lies_at_index(b, i, seq!['\\', 'u'], 1);
            lemma_asc_utf8(t);
            assert(b.subrange(i + 2, i + 6) == asc(t));
            vstd::utf8::char_u32_cast(c, u);
        } else {
            assert(ec == seq![c]);
            lemma_lies_at_index(b, i, ec, 0);
            assert(b[i] == c as u8);
            vstd::utf8::char_u32_cast(c, c as u32);
            assert(((c as u8) as char) == c);
        }
    }
}

/// A written string reads back as that string.
proof fn lemma_string(b: Seq<u8>, p: int, s: Seq<char>)
    requires
        is_ascii_chars(s),
        lies_at(b, p, quoted(s)),
    ensures
        string_at(b, p) == Ok::<(Seq<char>, int), &'static str>((s, p + quoted(s).len())),
{
    reveal_strlit("\"");
    assert(quoted(s) == seq!['"'] + (esc_chars(s) + seq!['"']));
    lemma_lies_at_split(b, p, seq!['"'], esc_chars(s) + seq!['"']);
    lemma_lies_at_index(b, p, seq!['"'], 0);
    lemma_str_body_text(b, p + 1, Seq::empty(), s);
    assert(Seq::<char>::empty() + s =~= s);
}

// ---------------------------------------------------------------------------
// Which values read back, and the text is ASCII
// ---------------------------------------------------------------------------

/// Whether a value reads back from its text: its strings and keys are
/// ASCII (the parser reads each byte of a string as one character), and
/// no `Number` is `i64::MIN` (its magnitude does not fit while reading).
pub open spec fn ascii_json(j: Json) -> bool
    decreases j, 0int,
{
    match j {
        Json::Number(n) => n != i64::MIN,
        Json::Str(s) => is_ascii_chars(s),
        Json::Array(es) => items_ascii(es, es.len() as int),
        Json::Object(ps) => pairs_ascii(ps, ps.len() as int),
        _ => true,
    }
}

pub open spec fn items_ascii(es: Seq<Json>, k: int) -> bool
    decreases es, k,
{
    if k <= 0 || k > es.len() { true } else { items_ascii(es, k - 1) && ascii_json(es[k - 1]) }
}

pub open spec fn pairs_ascii(ps: Seq<(Seq<char>, Json)>, k: int) -> bool
    decreases ps, k,
{
    if k <= 0 || k > ps.len() {
        true
    } else {
        pairs_ascii(ps, k - 1) && is_ascii_chars(ps[k - 1].0) && ascii_json(ps[k - 1].1)
    }
}

proof fn lemma_items_ascii(es: Seq<Json>, k: int, i: int)
    requires
        items_ascii(es, k),
        0 <= i < k <= es.len(),
    ensures
        ascii_json(es[i]),
    decreases k,
{
    if i < k - 1 {
        lemma_items_ascii(es, k - 1, i);
    }
}

proof fn lemma_pairs_ascii(ps: Seq<(Seq<char>, Json)>, k: int, i: int)
    requires
        pairs_ascii(ps, k),
        0 <= i < k <= ps.len(),
    ensures
        is_ascii_chars(ps[i].0),
        ascii_json(ps[i].1),
    decreases k,
{
    if i < k - 1 {
        lemma_pairs_ascii(ps, k - 1, i);
    }
}

proof fn lemma_ascii_cat(a: Seq<char>, c: Seq<char>)
    requires
        is_ascii_chars(a),
        is_ascii_chars(c),
    ensures
        is_ascii_chars(a + c),
{
    assert forall|i: int| 0 <= i < (a + c).len() implies '\0' <= #[trigger] (a + c)[i] <= '\u{7f}' by {
        if i < a.len() {
            assert((a + c)[i] == a[i]);
        } else {
            assert((a + c)[i] == c[i - a.len()]);
        }
    }
}

proof fn lemma_digits_ascii(d: Seq<char>)
    requires
        all_digits(d),
    ensures
        is_ascii_chars(d),
{
    assert forall|i: int| 0 <= i < d.len() implies '\0' <= #[trigger] d[i] <= '\u{7f}' by {
        assert('0' <= d[i] <= '9');
    }
}

proof fn lemma_digit_char_ascii(d: nat)
    requires
        d < 16,
    ensures
        '\0' <= digit_char(d) <= '\u{7f}',
{
}

proof fn lemma_esc_ascii(s: Seq<char>)
    requires
        is_ascii_chars(s),
    ensures
        is_ascii_chars(esc_chars(s)),
    decreases s.len(),
{
    if s.len() > 0 {
        let d = s.drop_last();
        assert forall|k: int| 0 <= k < d.len() implies '\0' <= #[trigger] d[k] <= '\u{7f}' by {
            assert(d[k] == s[k]);
        }
        lemma_esc_ascii(d);
        let c = s.last();
        assert('\0' <= s[s.len() - 1] <= '\u{7f}');
        reveal_strlit("\\\"");
        reveal_strlit("\\\\");
        reveal_strlit("\\n");
        reveal_strlit("\\r");
        reveal_strlit("\\t");
        reveal_strlit("\\b");
        reveal_strlit("\\f");
        reveal_strlit("\\u00");
        let e = esc_char(c);
        if (c as u32) < 0x20 && !(c == '\n' || c == '\r' || c == '\t' || c == '\x08' || c == '\x0c') {
            let u = c as u32;
            lemma_digit_char_ascii((u / 16) as nat);
            lemma_digit_char_ascii((u % 16) as nat);
            assert(e == seq!['\\', 'u', '0', '0', digit_char((u / 16) as nat), digit_char((u % 16) as nat)]);
        }
        assert(is_ascii_chars(e));
        lemma_ascii_cat(esc_chars(d), e);
    }
}

proof fn lemma_sdec_ascii(n: int)
    ensures
        is_ascii_chars(sdec(n)),
        sdec(n).len() > 0,
{
    let m: nat = if n < 0 { (-n) as nat } else { n as nat };
    lemma_dec_digits(m);
    lemma_digits_ascii(dec(m));
    if n < 0 {
        assert(is_ascii_chars(seq!['-']));
        lemma_ascii_cat(seq!['-'], dec(m));
    }
}

proof fn lemma_float_ascii(x: i64)
    requires
        x != i64::MIN,
    ensures
        is_ascii_chars(float_text(x)),
{
    let a: int = if x < 0 { -x } else { x as int };
    let q = (a / 1_000_000) as nat;
    let r = (a % 1_000_000) as nat;
    lemma_dec_digits(q);
    lemma_frac_text(r);
    lemma_digits_ascii(dec(q));
    lemma_digits_ascii(frac_text(r));
    let sign: Seq<char> = if x < 0 { seq!['-'] } else { Seq::empty() };
    reveal_strlit(".");
    reveal_strlit("-");
    assert(float_text(x) =~= sign + dec(q) + seq!['.'] + frac_text(r));
    assert(is_ascii_chars(sign));
    assert(is_ascii_chars(seq!['.']));
    lemma_ascii_cat(sign, dec(q));
    lemma_ascii_cat(sign + dec(q), seq!['.']);
    lemma_ascii_cat(sign + dec(q) + seq!['.'], frac_text(r));
}

proof fn lemma_quoted_ascii(s: Seq<char>)
    requires
        is_ascii_chars(s),
    ensures
        is_ascii_chars(quoted(s)),
{
    reveal_strlit("\"");
    lemma_esc_ascii(s);
    assert(is_ascii_chars(seq!['"']));
    assert(quoted(s) =~= seq!['"'] + esc_chars(s) + seq!['"']);
    lemma_ascii_cat(seq!['"'], esc_chars(s));
    lemma_ascii_cat(seq!['"'] + esc_chars(s), seq!['"']);
}

/// The compact text of a value that reads back is ASCII.
proof fn lemma_text_ascii(j: Json, d: nat)
    requires
        ascii_json(j),
        fits(j, None, d),
    ensures
        is_ascii_chars(text_of(j, None, d)),
    decreases j, 1int,
{
    reveal_strlit("null");
    reveal_strlit("true");
    reveal_strlit("false");
    reveal_strlit("[]");
    reveal_strlit("{}");
    reveal_strlit("[");
    reveal_strlit("]");
    reveal_strlit("{");
    reveal_strlit("}");
    match j {
        Json::Null => assert(is_ascii_chars("null"@)),
        Json::Bool(bv) => {
            assert(is_ascii_chars("true"@));
            assert(is_ascii_chars("false"@));
        },
        Json::Number(n) => lemma_sdec_ascii(n as int),
        Json::Float(x) => lemma_float_ascii(x),
        Json::Str(s) => lemma_quoted_ascii(s),
        Json::Array(es) => {
            assert(is_ascii_chars("[]"@));
            if es.len() > 0 {
                lemma_items_text_ascii(es, d, es.len() as int);
                assert(text_of(j, None, d) =~= seq!['['] + items_text(es, None, d, es.len() as int) + seq![']']);
                assert(is_ascii_chars(seq!['[']));
                assert(is_ascii_chars(seq![']']));
                lemma_ascii_cat(seq!['['], items_text(es, None, d, es.len() as int));
                lemma_ascii_cat(seq!['['] + items_text(es, None, d, es.len() as int), seq![']']);
            }
        },
        Json::Object(ps) => {
            assert(is_ascii_chars("{}"@));
            if ps.len() > 0 {
                lemma_pairs_text_ascii(ps, d, ps.len() as int);
                assert(text_of(j, None, d) =~= seq!['{'] + pairs_text(ps, None, d, ps.len() as int) + seq!['}']);
                assert(is_ascii_chars(seq!['{']));
                assert(is_ascii_chars(seq!['}']));
                lemma_ascii_cat(seq!['{'], pairs_text(ps, None, d, ps.len() as int));
                lemma_ascii_cat(seq!['{'] + pairs_text(ps, None, d, ps.len() as int), seq!['}']);
            }
        },
    }
}

proof fn lemma_items_text_ascii(es: Seq<Json>, d: nat, k: int)
    requires
        0 <= k <= es.len(),
        items_ascii(es, es.len() as int),
        items_fit(es, None, d + 1, es.len() as int),
    ensures
        is_ascii_chars(items_text(es, None, d, k)),
    decreases es, k,
{
    reveal_strlit(",");
    if k > 0 {
        lemma_items_text_ascii(es, d, k - 1);
        lemma_items_ascii(es, es.len() as int, k - 1);
        lemma_items_fit(es, None, d + 1, es.len() as int, k - 1);
        lemma_text_ascii(es[k - 1], d + 1);
        let c: Seq<char> = if k < es.len() { ","@ } else { Seq::empty() };
        assert(is_ascii_chars(c));
        assert(items_text(es, None, d, k) =~= items_text(es, None, d, k - 1) + text_of(es[k - 1], None, d + 1) + c);
        lemma_ascii_cat(items_text(es, None, d, k - 1), text_of(es[k - 1], None, d + 1));
        lemma_ascii_cat(items_text(es, None, d, k - 1) + text_of(es[k - 1], None, d + 1), c);
    } else {
        assert(items_text(es, None, d, k) =~= Seq::<char>::empty());
    }
}

proof fn lemma_pairs_text_ascii(ps: Seq<(Seq<char>, Json)>, d: nat, k: int)
    requires
        0 <= k <= ps.len(),
        pairs_ascii(ps, ps.len() as int),
        pairs_fit(ps, None, d + 1, ps.len() as int),
    ensures
        is_ascii_chars(pairs_text(ps, None, d, k)),
    decreases ps, k,
{
    reveal_strlit(",");
    reveal_strlit(":");
    if k > 0 {
        lemma_pairs_text_ascii(ps, d, k - 1);
        lemma_pairs_ascii(ps, ps.len() as int, k - 1);
        lemma_pairs_fit(ps, None, d + 1, ps.len() as int, k - 1);
        lemma_text_ascii(ps[k - 1].1, d + 1);
        lemma_quoted_ascii(ps[k - 1].0);
        let c: Seq<char> = if k < ps.len() { ","@ } else { Seq::empty() };
        assert(is_ascii_chars(c));
        assert(is_ascii_chars(seq![':']));
        let prev = pairs_text(ps, None, d, k - 1);
        let q = quoted(ps[k - 1].0);
        let t = text_of(ps[k - 1].1, None, d + 1);
        assert(pairs_text(ps, None, d, k) =~= prev + q + seq![':'] + t + c);
        lemma_ascii_cat(prev, q);
        lemma_ascii_cat(prev + q, seq![':']);
        lemma_ascii_cat(prev + q + seq![':'], t);
        lemma_ascii_cat(prev + q + seq![':'] + t, c);
    } else {
        assert(pairs_text(ps, None, d, k) =~= Seq::<char>::empty());
    }
}

// ---------------------------------------------------------------------------
// Reading back arrays, objects and whole texts
// ---------------------------------------------------------------------------

/// The compact text of a value is not empty and begins with neither
/// whitespace nor a closing bracket.
proof fn lemma_first(j: Json, d: nat)
    requires
        ascii_json(j),
    ensures
        text_of(j, None, d).len() > 0,
        !is_ws_byte(text_of(j, None, d)[0] as u8),
        text_of(j, None, d)[0] as u8 != 93,
        text_of(j, None, d)[0] as u8 != 125,
{
    reveal_strlit("null");
    reveal_strlit("true");
    reveal_strlit("false");
    reveal_strlit("[]");
    reveal_strlit("{}");
    reveal_strlit("[");
    reveal_strlit("{");
    reveal_strlit("\"");
    reveal_strlit("-");
    let t = text_of(j, None, d);
    match j {
        Json::Number(n) => {
            let m: nat = if n < 0 { (-n) as nat } else { n as nat };
            lemma_dec_digits(m);
            if n >= 0 {
                assert('0' <= dec(m)[0] <= '9');
                assert(t[0] == dec(m)[0]);
            } else {
                assert(t[0] == '-');
            }
        },
        Json::Float(x) => {
            let a: int = if x < 0 { -x } else { x as int };
            let q = (a / 1_000_000) as nat;
            lemma_dec_digits(q);
            if x >= 0 {
                assert('0' <= dec(q)[0] <= '9');
                assert(t[0] == dec(q)[0]);
            } else {
                assert(t[0] == '-');
            }
        },
        Json::Str(s) => {
            assert(t[0] == '"');
        },
        Json::Array(es) => {
            assert(t[0] == '[');
        },
        Json::Object(ps) => {
            assert(t[0] == '{');
        },
        _ => {},
    }
}

proof fn lemma_items_prefix(es: Seq<Json>, d: nat, k: int, n: int)
    requires
        0 <= k <= n <= es.len(),
    ensures
        items_text(es, None, d, k).len() <= items_text(es, None, d, n).len(),
        items_text(es, None, d, n) == items_text(es, None, d, k) + items_text(es, None, d, n).subrange(
            items_text(es, None, d, k).len() as int, items_text(es, None, d, n).len() as int),
    decreases n - k,
{
    if k < n {
        lemma_items_prefix(es, d, k, n - 1);
    }
    let a = items_text(es, None, d, k);
    let c = items_text(es, None, d, n);
    assert(c =~= a + c.subrange(a.len() as int, c.len() as int)) by {
        if k < n {
            let m = items_text(es, None, d, n - 1);
            assert(m == a + m.subrange(a.len() as int, m.len() as int));
            assert(c.subrange(0, m.len() as int) =~= m);
        }
    }
}

proof fn lemma_pairs_prefix(ps: Seq<(Seq<char>, Json)>, d: nat, k: int, n: int)
    requires
        0 <= k <= n <= ps.len(),
    ensures
        pairs_text(ps, None, d, k).len() <= pairs_text(ps, None, d, n).len(),
        pairs_text(ps, None, d, n) == pairs_text(ps, None, d, k) + pairs_text(ps, None, d, n).subrange(
            pairs_text(ps, None, d, k).len() as int, pairs_text(ps, None, d, n).len() as int),
    decreases n - k,
{
    if k < n {
        lemma_pairs_prefix(ps, d, k, n - 1);
    }
    let a = pairs_text(ps, None, d, k);
    let c = pairs_text(ps, None, d, n);
    assert(c =~= a + c.subrange(a.len() as int, c.len() as int)) by {
        if k < n {
            let m = pairs_text(ps, None, d, n - 1);
            assert(m == a + m.subrange(a.len() as int, m.len() as int));
            assert(c.subrange(0, m.len() as int) =~= m);
        }
    }
}

proof fn lemma_ws_here(b: Seq<u8>, p: int)
    requires
        0 <= p,
        p >= b.len() || !is_ws_byte(b[p]),
    ensures
        ws_end(b, p) == p,
{
}

/// The compact text of a value, followed by what may follow a value,
/// reads back as that value.
proof fn lemma_value(b: Seq<u8>, p: int, j: Json, d: nat)
    requires
        ascii_json(j),
        fits(j, None, d),
        lies_at(b, p, text_of(j, None, d)),
        ends_value(b, p + text_of(j, None, d).len()),
    ensures
        value_at(b, p) == Parsed::Done(j, p + text_of(j, None, d).len()),
    decreases j, 3int, 0int,
{
    reveal_strlit("null");
    reveal_strlit("true");
    reveal_strlit("false");
    reveal_strlit("[]");
    reveal_strlit("{}");
    reveal_strlit("[");
    reveal_strlit("]");
    reveal_strlit("{");
    reveal_strlit("}");
    let t = text_of(j, None, d);
    lemma_first(j, d);
    lemma_lies_at_index(b, p, t, 0);
    match j {
        Json::Null => {
            assert(t == "null"@);
            assert(t =~= seq!['n', 'u', 'l', 'l']);
            lemma_lies_at_index(b, p, t, 1);
            lemma_lies_at_index(b, p, t, 2);
            lemma_lies_at_index(b, p, t, 3);
            assert(b[p] == 110 && b[p + 1] == 117 && b[p + 2] == 108 && b[p + 3] == 108);
            assert(b.subrange(p, p + 4) =~= seq![110u8, 117, 108, 108]);
            assert(crate::json::literal_at(b, p, seq![110u8, 117, 108, 108]));
            assert(b[p] == 110);
            assert(0 <= p < b.len());
            assert(value_at(b, p) == Parsed::Done(Json::Null, p + 4));
            assert(t.len() == 4);
            assert(j == Json::Null);
            assert(value_at(b, p) == Parsed::Done(j, p + t.len()));
        },
        Json::Bool(bv) => {
            lemma_lies_at_index(b, p, t, 1);
            lemma_lies_at_index(b, p, t, 2);
            lemma_lies_at_index(b, p, t, 3);
            if bv {
                assert(b.subrange(p, p + 4) =~= seq![116u8, 114, 117, 101]);
            } else {
                lemma_lies_at_index(b, p, t, 4);
                assert(b.subrange(p, p + 5) =~= seq![102u8, 97, 108, 115, 101]);
                assert(b.subrange(p, p + 4) != seq![116u8, 114, 117, 101]) by {
                    assert(b.subrange(p, p + 4)[0] == 102);
                }
            }
            assert(value_at(b, p) == Parsed::Done(j, p + t.len()));
        },
        Json::Number(n) => {
            lemma_number(b, p, n);
            assert(value_at(b, p) == Parsed::Done(j, p + t.len()));
        },
        Json::Float(x) => {
            lemma_float(b, p, x);
            assert(value_at(b, p) == Parsed::Done(j, p + t.len()));
        },
        Json::Str(s) => {
            lemma_string(b, p, s);
            assert(value_at(b, p) == Parsed::Done(j, p + t.len()));
        },
        Json::Array(es) => {
            lemma_array_value(b, p, es, d);
        },
        Json::Object(ps) => {
            lemma_object_value(b, p, ps, d);
        },
    }
}

proof fn lemma_array_value(b: Seq<u8>, p: int, es: Seq<Json>, d: nat)
    requires
        ascii_json(Json::Array(es)),
        fits(Json::Array(es), None, d),
        lies_at(b, p, text_of(Json::Array(es), None, d)),
        ends_value(b, p + text_of(Json::Array(es), None, d).len()),
    ensures
        value_at(b, p) == Parsed::Done(Json::Array(es), p + text_of(Json::Array(es), None, d).len()),
    decreases es, 2int, 0int,
{
    reveal_strlit("[]");
    reveal_strlit("[");
    reveal_strlit("]");
    let j = Json::Array(es);
    let t = text_of(j, None, d);
    lemma_first(j, d);
    lemma_lies_at_index(b, p, t, 0);
    if es.len() == 0 {
        assert(t =~= seq!['[', ']']);
        assert(es =~= Seq::<Json>::empty());
        lemma_lies_at_index(b, p, t, 1);
        lemma_ws_here(b, p + 1);
        assert(value_at(b, p) == Parsed::Done(j, p + t.len()));
    } else {
        let n = es.len() as int;
        let tt = items_text(es, None, d, n);
        assert(t =~= seq!['['] + tt + seq![']']);
        assert(seq!['['] + tt + seq![']'] =~= seq!['['] + (tt + seq![']']));
        lemma_lies_at_split(b, p, seq!['['], tt + seq![']']);
        lemma_lies_at_split(b, p + 1, tt, seq![']']);
        lemma_items_prefix(es, d, 1, n);
        lemma_items_ascii(es, n, 0);
        lemma_items_fit(es, None, d + 1, n, 0);
        lemma_first(es[0], d + 1);
        let first = items_text(es, None, d, 1);
        assert(first =~= items_text(es, None, d, 0) + text_of(es[0], None, d + 1)
            + (if 1 < n { ","@ } else { Seq::<char>::empty() }));
        assert(items_text(es, None, d, 0) =~= Seq::<char>::empty());
        assert(tt[0] == text_of(es[0], None, d + 1)[0]);
        lemma_lies_at_index(b, p + 1, tt, 0);
        lemma_ws_here(b, p + 1);
        lemma_items(b, p, es, d, 0);
        assert(es.subrange(0, 0) =~= Seq::<Json>::empty());
        assert(b[p] == 91);
        assert(ws_end(b, p + 1) == p + 1);
        assert(b[p + 1] != 93);
        assert(items_from(b, p + 1, Seq::empty()) == Parsed::Done(Json::Array(es), p + 2 + tt.len()));
        assert(array_at(b, p) == Parsed::Done(Json::Array(es), p + 2 + tt.len()));
        assert(value_at(b, p) == Parsed::Done(j, p + t.len()));
    }
}

proof fn lemma_object_value(b: Seq<u8>, p: int, ps: Seq<(Seq<char>, Json)>, d: nat)
    requires
        ascii_json(Json::Object(ps)),
        fits(Json::Object(ps), None, d),
        lies_at(b, p, text_of(Json::Object(ps), None, d)),
        ends_value(b, p + text_of(Json::Object(ps), None, d).len()),
    ensures
        value_at(b, p) == Parsed::Done(Json::Object(ps), p + text_of(Json::Object(ps), None, d).len()),
    decreases ps, 2int, 0int,
{
    reveal_strlit("{}");
    reveal_strlit("{");
    reveal_strlit("}");
    let j = Json::Object(ps);
    let t = text_of(j, None, d);
    lemma_first(j, d);
    lemma_lies_at_index(b, p, t, 0);
    if ps.len() == 0 {
        assert(t =~= seq!['{', '}']);
        assert(ps =~= Seq::<(Seq<char>, Json)>::empty());
        lemma_lies_at_index(b, p, t, 1);
        lemma_ws_here(b, p + 1);
        assert(value_at(b, p) == Parsed::Done(j, p + t.len()));
    } else {
        let n = ps.len() as int;
        let tt = pairs_text(ps, None, d, n);
        assert(t =~= seq!['{'] + tt + seq!['}']);
        assert(seq!['{'] + tt + seq!['}'] =~= seq!['{'] + (tt + seq!['}']));
        lemma_lies_at_split(b, p, seq!['{'], tt + seq!['}']);
        lemma_lies_at_split(b, p + 1, tt, seq!['}']);
        lemma_pairs_prefix(ps, d, 0, n);
        lemma_pairs_ascii(ps, n, 0);
        reveal_strlit("\"");
        reveal_strlit(":");
        let first = pairs_text(ps, None, d, 1);
        lemma_pairs_prefix(ps, d, 1, n);
        assert(first =~= pairs_text(ps, None, d, 0) + quoted(ps[0].0) + ":"@ + Seq::<char>::empty()
            + text_of(ps[0].1, None, d + 1) + (if 1 < n { ","@ } else { Seq::<char>::empty() })
            + Seq::<char>::empty());
        assert(pairs_text(ps, None, d, 0) =~= Seq::<char>::empty());
        assert(tt[0] == quoted(ps[0].0)[0]);
        assert(quoted(ps[0].0)[0] == '"');
        lemma_lies_at_index(b, p + 1, tt, 0);
        lemma_ws_here(b, p + 1);
        lemma_members(b, p, ps, d, 0);
        assert(ps.subrange(0, 0) =~= Seq::<(Seq<char>, Json)>::empty());
        assert(b[p] == 123);
        assert(ws_end(b, p + 1) == p + 1);
        assert(b[p + 1] != 125);
        assert(members_from(b, p + 1, Seq::empty()) == Parsed::Done(Json::Object(ps), p + 2 + tt.len()));
        assert(object_at(b, p) == Parsed::Done(Json::Object(ps), p + 2 + tt.len()));
        assert(value_at(b, p) == Parsed::Done(j, p + t.len()));
    }
}

/// From the `k`-th element on, the elements of a written array read back.
proof fn lemma_items(b: Seq<u8>, p: int, es: Seq<Json>, d: nat, k: int)
    requires
        0 <= k < es.len(),
        items_ascii(es, es.len() as int),
        depth_fits(es, d),
        lies_at(b, p, seq!['['] + items_text(es, None, d, es.len() as int) + seq![']']),
    ensures
        items_from(b, p + 1 + items_text(es, None, d, k).len(), es.subrange(0, k)) == Parsed::Done(
            Json::Array(es), p + 2 + items_text(es, None, d, es.len() as int).len()),
    decreases es, 1int, es.len() - k,
{
    reveal_strlit(",");
    let n = es.len() as int;
    let tt = items_text(es, None, d, n);
    let pre = items_text(es, None, d, k);
    let pos = p + 1 + pre.len();
    let tk = text_of(es[k], None, d + 1);
    let ck: Seq<char> = if k + 1 < n { ","@ } else { Seq::empty() };
    assert(items_text(es, None, d, k + 1) =~= pre + tk + ck);
    lemma_items_prefix(es, d, k + 1, n);
    let rest = tt.subrange(items_text(es, None, d, k + 1).len() as int, tt.len() as int);
    assert(tt =~= pre + (tk + (ck + rest)));
    assert(seq!['['] + tt + seq![']'] =~= seq!['['] + (pre + (tk + (ck + (rest + seq![']'])))));
    lemma_lies_at_split(b, p, seq!['['], pre + (tk + (ck + (rest + seq![']']))));
    lemma_lies_at_split(b, p + 1, pre, tk + (ck + (rest + seq![']'])));
    lemma_lies_at_split(b, pos, tk, ck + (rest + seq![']']));
    lemma_lies_at_split(b, pos + tk.len(), ck, rest + seq![']']);
    lemma_lies_at_split(b, pos + tk.len() + ck.len(), rest, seq![']']);
    lemma_lies_at_index(b, pos + tk.len() + ck.len() + rest.len(), seq![']'], 0);
    let next = pos + tk.len();
    if k + 1 < n {
        lemma_lies_at_index(b, next, ck, 0);
    } else {
        lemma_items_prefix(es, d, n, n);
        assert(rest.len() == 0);
    }
    lemma_items_ascii(es, n, k);
    lemma_depth_fits(es, d, k);
    lemma_first(es[k], d + 1);
    lemma_lies_at_index(b, pos, tk, 0);
    lemma_ws_here(b, pos);
    lemma_value(b, pos, es[k], d + 1);
    lemma_ws_here(b, next);
    assert(es.subrange(0, k).push(es[k]) =~= es.subrange(0, k + 1));
    if k + 1 < n {
        lemma_items(b, p, es, d, k + 1);
    } else {
        assert(es.subrange(0, k + 1) =~= es);
    }
}

/// The elements of an array fit one level below `d`.
pub open spec fn depth_fits(es: Seq<Json>, d: nat) -> bool {
    items_fit(es, None, d + 1, es.len() as int)
}

proof fn lemma_depth_fits(es: Seq<Json>, d: nat, k: int)
    requires
        depth_fits(es, d),
        0 <= k < es.len(),
    ensures
        fits(es[k], None, d + 1),
{
    lemma_items_fit(es, None, d + 1, es.len() as int, k);
}

/// From the `k`-th member on, the members of a written object read back.
proof fn lemma_members(b: Seq<u8>, p: int, ps: Seq<(Seq<char>, Json)>, d: nat, k: int)
    requires
        0 <= k < ps.len(),
        pairs_ascii(ps, ps.len() as int),
        pairs_fit(ps, None, d + 1, ps.len() as int),
        lies_at(b, p, seq!['{'] + pairs_text(ps, None, d, ps.len() as int) + seq!['}']),
    ensures
        members_from(b, p + 1 + pairs_text(ps, None, d, k).len(), ps.subrange(0, k)) == Parsed::Done(
            Json::Object(ps), p + 2 + pairs_text(ps, None, d, ps.len() as int).len()),
    decreases ps, 1int, ps.len() - k,
{
    reveal_strlit(",");
    reveal_strlit(":");
    reveal_strlit("\"");
    let n = ps.len() as int;
    let tt = pairs_text(ps, None, d, n);
    let pre = pairs_text(ps, None, d, k);
    let pos = p + 1 + pre.len();
    let qk = quoted(ps[k].0);
    let tk = text_of(ps[k].1, None, d + 1);
    let ck: Seq<char> = if k + 1 < n { ","@ } else { Seq::empty() };
    assert(pairs_text(ps, None, d, k + 1) =~= pre + qk + seq![':'] + tk + ck);
    lemma_pairs_prefix(ps, d, k + 1, n);
    let rest = tt.subrange(pairs_text(ps, None, d, k + 1).len() as int, tt.len() as int);
    assert(tt =~= pre + (qk + (seq![':'] + (tk + (ck + rest)))));
    assert(seq!['{'] + tt + seq!['}'] =~= seq!['{'] + (pre + (qk + (seq![':'] + (tk + (ck + (rest + seq!['}'])))))));
    lemma_lies_at_split(b, p, seq!['{'], pre + (qk + (seq![':'] + (tk + (ck + (rest + seq!['}']))))));
    lemma_lies_at_split(b, p + 1, pre, qk + (seq![':'] + (tk + (ck + (rest + seq!['}'])))));
    lemma_lies_at_split(b, pos, qk, seq![':'] + (tk + (ck + (rest + seq!['}']))));
    let colon = pos + qk.len();
    lemma_lies_at_split(b, colon, seq![':'], tk + (ck + (rest + seq!['}'])));
    let vq = colon + 1;
    lemma_lies_at_split(b, vq, tk, ck + (rest + seq!['}']));
    let next = vq + tk.len();
    lemma_lies_at_split(b, next, ck, rest + seq!['}']);
    lemma_lies_at_split(b, next + ck.len(), rest, seq!['}']);
    lemma_lies_at_index(b, next + ck.len() + rest.len(), seq!['}'], 0);
    lemma_lies_at_index(b, colon, seq![':'], 0);
    if k + 1 < n {
        lemma_lies_at_index(b, next, ck, 0);
    } else {
        assert(rest.len() == 0);
    }
    lemma_pairs_ascii(ps, n, k);
    lemma_pairs_fit(ps, None, d + 1, n, k);
    assert(qk[0] == '"');
    lemma_lies_at_index(b, pos, qk, 0);
    lemma_ws_here(b, pos);
    lemma_string(b, pos, ps[k].0);
    lemma_ws_here(b, colon);
    lemma_first(ps[k].1, d + 1);
    lemma_lies_at_index(b, vq, tk, 0);
    lemma_ws_here(b, vq);
    lemma_value(b, vq, ps[k].1, d + 1);
    lemma_ws_here(b, next);
    assert(ps.subrange(0, k).push((ps[k].0, ps[k].1)) =~= ps.subrange(0, k + 1));
    if k + 1 < n {
        lemma_members(b, p, ps, d, k + 1);
    } else {
        assert(ps.subrange(0, k + 1) =~= ps);
    }
}

/// The compact text of a value reads back as that value, when its strings
/// are ASCII and no number is `i64::MIN` (the inputs on which it does
/// not: a non-ASCII string comes back byte by byte, and `i64::MIN`
/// overflows while being read).
pub proof fn law_parse_stringify(v: Json)
    requires
        fits(v, None, 0),
        ascii_json(v),
    ensures
        !parse_overflows(text_of(v, None, 0)),
        parse_spec(text_of(v, None, 0)) == Ok::<Json, &'static str>(v),
{
    let t = text_of(v, None, 0);
    lemma_text_ascii(v, 0);
    lemma_asc_utf8(t);
    let b = asc(t);
    assert(b.subrange(0, t.len() as int) =~= b);
    lemma_value(b, 0, v, 0);
    lemma_first(v, 0);
    lemma_lies_at_index(b, 0, t, 0);
    lemma_ws_here(b, 0);
    lemma_ws_here(b, t.len() as int);
}

} // verus!
