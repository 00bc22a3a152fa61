use vstd::prelude::*;
use vstd::string::*;

verus! {

/// The character of a digit value below 16 (`0`-`9`, then `a`-`f`).
pub open spec fn digit_char(d: nat) -> char {
    if d < 10 {
        ((d + 48) as u8) as char
    } else {
        ((d + 87) as u8) as char
    }
}

/// Representation of `n` in base `b`, most significant digit first.
pub open spec fn radix(n: nat, b: nat) -> Seq<char>
    decreases n,
{
    if b < 2 || n < b {
        seq![digit_char(n)]
    } else {
        proof {
            assert(n / b < n) by (nonlinear_arith)
                requires
                    b >= 2,
                    n >= b,
            ;
        }
        radix(n / b, b).push(digit_char(n % b))
    }
}

/// Decimal representation of a natural number.
pub open spec fn dec(n: nat) -> Seq<char> {
    radix(n, 10)
}

/// Lower-case hexadecimal representation of a natural number.
pub open spec fn hex(n: nat) -> Seq<char> {
    radix(n, 16)
}

/// Decimal representation of a signed integer.
pub open spec fn sdec(n: int) -> Seq<char> {
    if n < 0 {
        seq!['-'] + dec((-n) as nat)
    } else {
        dec(n as nat)
    }
}

/// Appends one character to a string (`String::push`).
#[verifier::external_body]
pub fn push_char(s: &mut String, c: char)
    ensures
        final(s)@ == old(s)@.push(c),
{
    s.push(c);
}

/// Whether two string slices hold the same characters.
pub fn str_eq(a: &str, b: &str) -> (r: bool)
    ensures
        r == (a@ == b@),
{
    let la = a.unicode_len();
    let lb = b.unicode_len();
    if la != lb {
        return false;
    }
    let mut i: usize = 0;
    while i < la
        invariant
            la == a@.len(),
            lb == b@.len(),
            la == lb,
            i <= la,
            forall|j: int| 0 <= j < i ==> a@[j] == b@[j],
        decreases la - i,
    {
        if a.get_char(i) != b.get_char(i) {
            return false;
        }
        i = i + 1;
    }
    assert(a@ =~= b@);
    true
}

/// A fresh string holding the characters of `s`.
pub fn string_of(s: &str) -> (r: String)
    ensures
        r@ == s@,
{
    String::from_str(s)
}

/// Text of `n` in base `b` (2 to 16), lower-case digits.
pub fn u64_to_radix(n: u64, b: u64) -> (r: String)
    requires
        2 <= b <= 16,
    ensures
        r@ == radix(n as nat, b as nat),
{
    u128_to_radix(n as u128, b as u128)
}

/// Text of a 128-bit `n` in base `b` (2 to 16), lower-case digits.
pub fn u128_to_radix(n: u128, b: u128) -> (r: String)
    requires
        2 <= b <= 16,
    ensures
        r@ == radix(n as nat, b as nat),
{
    // collect digits least significant first
    let mut digits: Vec<char> = Vec::new();
    let mut m: u128 = n;
    loop
        invariant_except_break
            2 <= b <= 16,
            m <= n,
            radix(n as nat, b as nat) == radix(m as nat, b as nat) + digits@.reverse(),
        ensures
            radix(n as nat, b as nat) == digits@.reverse(),
        decreases m,
    {
        let d: u128 = m % b;
        let c: char = if d < 10 { ((d as u8) + 48u8) as char } else { ((d as u8) + 87u8) as char };
        assert(c == digit_char(d as nat));
        if m < b {
            assert(m % b == m) by (nonlinear_arith)
                requires
                    m < b,
            ;
            assert(radix(m as nat, b as nat) == seq![c]);
            digits.push(c);
            assert(radix(n as nat, b as nat) =~= digits@.reverse()) by {
                assert(digits@.reverse() =~= seq![c] + digits@.drop_last().reverse());
            }
            break;
        }
        let ghost old_digits = digits@;
        digits.push(c);
        assert(radix(m as nat, b as nat) == radix((m / b) as nat, b as nat).push(c));
        assert(digits@.reverse() =~= seq![c] + old_digits.reverse());
        m = m / b;
    }
    let mut s = String::new();
    let mut k: usize = digits.len();
    while k > 0
        invariant
            k <= digits@.len(),
            s@ =~= digits@.subrange(k as int, digits@.len() as int).reverse(),
        decreases k,
    {
        k = k - 1;
        push_char(&mut s, digits[k]);
        assert(digits@.subrange(k as int, digits@.len() as int).reverse()
            =~= digits@.subrange(k + 1, digits@.len() as int).reverse().push(digits@[k as int]));
    }
    assert(digits@.subrange(0, digits@.len() as int) =~= digits@);
    s
}

/// Decimal text of an unsigned integer.
pub fn u64_to_dec(n: u64) -> (r: String)
    ensures
        r@ == dec(n as nat),
{
    u64_to_radix(n, 10)
}

/// Decimal text of a 128-bit unsigned integer.
pub fn u128_to_dec(n: u128) -> (r: String)
    ensures
        r@ == dec(n as nat),
{
    u128_to_radix(n, 10)
}

/// Lower-case hexadecimal text of an unsigned integer.
pub fn u64_to_hex(n: u64) -> (r: String)
    ensures
        r@ == hex(n as nat),
{
    u64_to_radix(n, 16)
}

/// Decimal text of a signed integer, with a leading `-` when negative.
pub fn i64_to_dec(n: i64) -> (r: String)
    ensures
        r@ == sdec(n as int),
{
    if n < 0 {
        let m: u64 = if n == i64::MIN { 0x8000_0000_0000_0000u64 } else { (-n) as u64 };
        let digits = u64_to_dec(m);
        let mut s = String::new();
        push_char(&mut s, '-');
        s.append(digits.as_str());
        assert(s@ =~= seq!['-'] + dec((-n) as nat));
        s
    } else {
        u64_to_dec(n as u64)
    }
}

/// Appends the decimal text of `n` to `s`.
pub fn push_dec(s: &mut String, n: u64)
    ensures
        final(s)@ == old(s)@ + dec(n as nat),
{
    let d = u64_to_dec(n);
    s.append(d.as_str());
}

/// Appends the decimal text of a signed `n` to `s`.
pub fn push_sdec(s: &mut String, n: i64)
    ensures
        final(s)@ == old(s)@ + sdec(n as int),
{
    let d = i64_to_dec(n);
    s.append(d.as_str());
}

/// `n` spaces.
pub open spec fn spaces(n: nat) -> Seq<char> {
    Seq::new(n, |i: int| ' ')
}

/// `s` followed by spaces up to width `w` (as `{:<w}` formats).
pub open spec fn pad_right(s: Seq<char>, w: nat) -> Seq<char> {
    if s.len() >= w { s } else { s + spaces((w - s.len()) as nat) }
}

/// Spaces up to width `w` followed by `s` (as `{:>w}` formats).
pub open spec fn pad_left(s: Seq<char>, w: nat) -> Seq<char> {
    if s.len() >= w { s } else { spaces((w - s.len()) as nat) + s }
}

/// Appends `n` spaces.
pub fn push_spaces(out: &mut String, n: usize)
    ensures
        final(out)@ == old(out)@ + spaces(n as nat),
{
    let mut i: usize = 0;
    while i < n
        invariant
            i <= n,
            out@ == old(out)@ + spaces(i as nat),
        decreases n - i,
    {
        push_char(out, ' ');
        i = i + 1;
        assert(out@ =~= old(out)@ + spaces(i as nat));
    }
}

/// Appends `s` padded on the right to width `w`.
pub fn push_padded(out: &mut String, s: &str, w: usize)
    ensures
        final(out)@ == old(out)@ + pad_right(s@, w as nat),
{
    let n = s.unicode_len();
    out.append(s);
    if n < w {
        push_spaces(out, w - n);
    }
    assert(out@ =~= old(out)@ + pad_right(s@, w as nat));
}

/// Appends `s` padded on the left to width `w`.
pub fn push_padded_left(out: &mut String, s: &str, w: usize)
    ensures
        final(out)@ == old(out)@ + pad_left(s@, w as nat),
{
    let n = s.unicode_len();
    if n < w {
        push_spaces(out, w - n);
    }
    out.append(s);
    assert(out@ =~= old(out)@ + pad_left(s@, w as nat));
}

/// Appends the decimal text of `n` padded on the right to width `w`.
pub fn push_dec_padded(out: &mut String, n: u64, w: usize)
    ensures
        final(out)@ == old(out)@ + pad_right(dec(n as nat), w as nat),
{
    let d = u64_to_dec(n);
    push_padded(out, d.as_str(), w);
}

/// Appends the decimal text of `n` padded on the left to width `w`.
pub fn push_dec_padded_left(out: &mut String, n: u64, w: usize)
    ensures
        final(out)@ == old(out)@ + pad_left(dec(n as nat), w as nat),
{
    let d = u64_to_dec(n);
    push_padded_left(out, d.as_str(), w);
}

/// Characters that `char::is_whitespace` accepts (the Unicode White_Space set).
pub open spec fn is_ws(c: char) -> bool {
    let u = c as u32;
    (9 <= u <= 13) || u == 32 || u == 0x85 || u == 0xA0 || u == 0x1680 || (0x2000 <= u <= 0x200A)
        || u == 0x2028 || u == 0x2029 || u == 0x202F || u == 0x205F || u == 0x3000
}

pub fn char_is_ws(c: char) -> (r: bool)
    ensures
        r == is_ws(c),
{
    let u = c as u32;
    (9 <= u && u <= 13) || u == 32 || u == 0x85 || u == 0xA0 || u == 0x1680 || (0x2000 <= u && u <= 0x200A)
        || u == 0x2028 || u == 0x2029 || u == 0x202F || u == 0x205F || u == 0x3000
}

/// The words of `s[i..]` when the current word so far is `cur`
/// (as `split_whitespace` cuts them).
pub open spec fn words_from(s: Seq<char>, i: int, cur: Seq<char>) -> Seq<Seq<char>>
    decreases s.len() - i,
{
    if i >= s.len() || i < 0 {
        if cur.len() > 0 { seq![cur] } else { Seq::empty() }
    } else if is_ws(s[i]) {
        (if cur.len() > 0 { seq![cur] } else { Seq::empty() }) + words_from(s, i + 1, Seq::empty())
    } else {
        words_from(s, i + 1, cur.push(s[i]))
    }
}

/// The whitespace-separated words of `s`.
pub open spec fn words(s: Seq<char>) -> Seq<Seq<char>> {
    words_from(s, 0, Seq::empty())
}

/// The whitespace-separated words of a string.
pub fn split_whitespace(s: &str) -> (r: Vec<String>)
    ensures
        r@.map_values(|w: String| w@) == words(s@),
{
    let n = s.unicode_len();
    let mut out: Vec<String> = Vec::new();
    let mut cur = String::new();
    let mut i: usize = 0;
    while i < n
        invariant
            n == s@.len(),
            i <= n,
            words(s@) == out@.map_values(|w: String| w@) + words_from(s@, i as int, cur@),
        decreases n - i,
    {
        let c = s.get_char(i);
        let ghost before = out@.map_values(|w: String| w@);
        let ghost cur0 = cur@;
        if char_is_ws(c) {
            if cur.unicode_len() > 0 {
                let w = cur;
                out.push(w);
                cur = String::new();
                assert(out@.map_values(|w: String| w@) =~= before.push(cur0));
            } else {
                assert(out@.map_values(|w: String| w@) =~= before);
            }
            assert(cur@ =~= Seq::<char>::empty());
        } else {
            push_char(&mut cur, c);
            assert(out@.map_values(|w: String| w@) =~= before);
        }
        i = i + 1;
        assert(words(s@) =~= out@.map_values(|w: String| w@) + words_from(s@, i as int, cur@));
    }
    let ghost before = out@.map_values(|w: String| w@);
    let ghost cur0 = cur@;
    if cur.unicode_len() > 0 {
        out.push(cur);
        assert(out@.map_values(|w: String| w@) =~= before.push(cur0));
    }
    assert(out@.map_values(|w: String| w@) =~= words(s@));
    out
}

/// Value of a run of decimal digits.
pub open spec fn digits_value(d: Seq<char>) -> nat
    decreases d.len(),
{
    if d.len() == 0 {
        0
    } else {
        digits_value(d.drop_last()) * 10 + ((d.last() as u32) - 48) as nat
    }
}

pub open spec fn all_digits(d: Seq<char>) -> bool {
    forall|j: int| 0 <= j < d.len() ==> '0' <= #[trigger] d[j] <= '9'
}

/// What Rust's unsigned `str::parse` gives for `s` into a type whose
/// largest value is `max`: an optional `+`, then one or more decimal digits
/// whose value fits.
pub open spec fn parse_uint(s: Seq<char>, max: nat) -> Option<nat> {
    let d = if s.len() > 0 && s[0] == '+' { s.drop_first() } else { s };
    if d.len() > 0 && all_digits(d) && digits_value(d) <= max {
        Some(digits_value(d))
    } else {
        None
    }
}

proof fn lemma_digits_value_mono(d: Seq<char>, i: int)
    requires
        0 <= i <= d.len(),
        all_digits(d),
    ensures
        digits_value(d.subrange(0, i)) <= digits_value(d),
    decreases d.len() - i,
{
    if i < d.len() {
        lemma_digits_value_mono(d, i + 1);
        let a = d.subrange(0, i + 1);
        assert(a.drop_last() =~= d.subrange(0, i));
    } else {
        assert(d.subrange(0, i) =~= d);
    }
}

/// Parses `s` as an unsigned number no larger than `max`.
pub fn parse_u64_max(s: &str, max: u64) -> (r: Option<u64>)
    ensures
        match r {
            Some(v) => parse_uint(s@, max as nat) == Some(v as nat),
            None => parse_uint(s@, max as nat) is None,
        },
{
    let n = s.unicode_len();
    let start: usize = if n > 0 && s.get_char(0) == '+' { 1 } else { 0 };
    let ghost d = if s@.len() > 0 && s@[0] == '+' { s@.drop_first() } else { s@ };
    assert(d =~= s@.subrange(start as int, n as int));
    if start >= n {
        return None;
    }
    let mut v: u64 = 0;
    let mut i: usize = start;
    while i < n
        invariant
            n == s@.len(),
            start <= i <= n,
            d == s@.subrange(start as int, n as int),
            d == (if s@.len() > 0 && s@[0] == '+' { s@.drop_first() } else { s@ }),
            v == digits_value(d.subrange(0, i - start)),
            v <= max,
            forall|j: int| 0 <= j < i - start ==> '0' <= #[trigger] d[j] <= '9',
        decreases n - i,
    {
        let c = s.get_char(i);
        let code = c as u32;
        assert(d[i - start] == c);
        if code < 48 || code > 57 {
            proof {
                assert(!all_digits(d)) by {
                    assert(!('0' <= d[i - start] <= '9'));
                }
            }
            return None;
        }
        let digit = (code - 48) as u64;
        let ghost pre = d.subrange(0, i - start);
        let ghost nxt = d.subrange(0, i + 1 - start);
        assert(nxt.drop_last() =~= pre);
        if digit > max || v > (max - digit) / 10 {
            proof {
                if digit <= max {
                    assert(v * 10 + digit > max) by (nonlinear_arith)
                        requires
                            v > (max - digit) / 10,
                            digit <= max,
                    ;
                }
                // every further digit only grows the value
                if all_digits(d) {
                    lemma_digits_value_mono(d, i + 1 - start);
                }
            }
            return None;
        }
        proof {
            assert(v * 10 + digit <= max) by (nonlinear_arith)
                requires
                    v <= (max - digit) / 10,
                    digit <= max,
            ;
        }
        v = v * 10 + digit;
        i = i + 1;
    }
    assert(d.subrange(0, n - start) =~= d);
    Some(v)
}

/// The pieces of `s[i..]` cut at every `c`, the current piece being `cur`
/// (as `str::split` with a character cuts them; empty pieces are kept).
pub open spec fn pieces_from(s: Seq<char>, c: char, i: int, cur: Seq<char>) -> Seq<Seq<char>>
    decreases s.len() - i,
{
    if i >= s.len() || i < 0 {
        seq![cur]
    } else if s[i] == c {
        seq![cur] + pieces_from(s, c, i + 1, Seq::empty())
    } else {
        pieces_from(s, c, i + 1, cur.push(s[i]))
    }
}

/// The pieces of `s` cut at every `c`.
pub open spec fn pieces(s: Seq<char>, c: char) -> Seq<Seq<char>> {
    pieces_from(s, c, 0, Seq::empty())
}

/// Cut a string at every occurrence of `c`.
pub fn split_char(s: &str, c: char) -> (r: Vec<String>)
    ensures
        r@.map_values(|w: String| w@) == pieces(s@, c),
{
    let n = s.unicode_len();
    let mut out: Vec<String> = Vec::new();
    let mut cur = String::new();
    let mut i: usize = 0;
    while i < n
        invariant
            n == s@.len(),
            i <= n,
            pieces(s@, c) == out@.map_values(|w: String| w@) + pieces_from(s@, c, i as int, cur@),
        decreases n - i,
    {
        let ch = s.get_char(i);
        let ghost before = out@.map_values(|w: String| w@);
        let ghost cur0 = cur@;
        if ch == c {
            let w = cur;
            out.push(w);
            cur = String::new();
            assert(out@.map_values(|w: String| w@) =~= before.push(cur0));
            assert(cur@ =~= Seq::<char>::empty());
        } else {
            push_char(&mut cur, ch);
            assert(out@.map_values(|w: String| w@) =~= before);
        }
        i = i + 1;
        assert(pieces(s@, c) =~= out@.map_values(|w: String| w@) + pieces_from(s@, c, i as int, cur@));
    }
    let ghost before = out@.map_values(|w: String| w@);
    let ghost cur0 = cur@;
    out.push(cur);
    assert(out@.map_values(|w: String| w@) =~= before.push(cur0));
    assert(out@.map_values(|w: String| w@) =~= pieces(s@, c));
    out
}

/// Position of the first `c` in `s`.
pub fn find_char(s: &str, c: char) -> (r: Option<usize>)
    ensures
        match r {
            Some(i) => i < s@.len() && s@[i as int] == c && forall|j: int| 0 <= j < i ==> s@[j] != c,
            None => forall|j: int| 0 <= j < s@.len() ==> s@[j] != c,
        },
{
    let n = s.unicode_len();
    let mut i: usize = 0;
    while i < n
        invariant
            n == s@.len(),
            i <= n,
            forall|j: int| 0 <= j < i ==> s@[j] != c,
        decreases n - i,
    {
        if s.get_char(i) == c {
            return Some(i);
        }
        i = i + 1;
    }
    None
}

/// Position of the last `c` in `s`.
pub fn rfind_char(s: &str, c: char) -> (r: Option<usize>)
    ensures
        match r {
            Some(i) => i < s@.len() && s@[i as int] == c && forall|j: int| i < j < s@.len() ==> s@[j] != c,
            None => forall|j: int| 0 <= j < s@.len() ==> s@[j] != c,
        },
{
    let n = s.unicode_len();
    let mut i: usize = n;
    while i > 0
        invariant
            n == s@.len(),
            i <= n,
            forall|j: int| i <= j < n ==> s@[j] != c,
        decreases i,
    {
        i = i - 1;
        if s.get_char(i) == c {
            return Some(i);
        }
    }
    None
}

/// Whether `i` is the first position of `c` in `s` (`s.len()` when absent).
pub open spec fn first_index_of(s: Seq<char>, c: char, i: int) -> bool {
    0 <= i <= s.len() && (i < s.len() ==> s[i] == c) && forall|j: int| 0 <= j < i ==> s[j] != c
}

/// Whether `i` is the last position of `c` in `s` (`s.len()` when absent).
pub open spec fn last_index_of(s: Seq<char>, c: char, i: int) -> bool {
    if i == s.len() {
        forall|j: int| 0 <= j < s.len() ==> s[j] != c
    } else {
        0 <= i < s.len() && s[i] == c && forall|j: int| i < j < s.len() ==> s[j] != c
    }
}

/// Position of the first `c` in `s` at or after `j` (`s.len()` when none).
pub open spec fn char_pos(s: Seq<char>, c: char, j: int) -> int
    decreases s.len() - j,
{
    if j < 0 || j >= s.len() {
        s.len() as int
    } else if s[j] == c {
        j
    } else {
        char_pos(s, c, j + 1)
    }
}

/// Position of the last `c` in `s` before `j` (`s.len()` when none).
pub open spec fn char_rpos(s: Seq<char>, c: char, j: int) -> int
    decreases j,
{
    if j <= 0 || j > s.len() {
        s.len() as int
    } else if s[j - 1] == c {
        j - 1
    } else {
        char_rpos(s, c, j - 1)
    }
}

pub fn first_char_pos(s: &str, c: char) -> (r: usize)
    ensures
        r == char_pos(s@, c, 0),
        r <= s@.len(),
{
    let n = s.unicode_len();
    let mut i: usize = 0;
    while i < n
        invariant
            n == s@.len(),
            i <= n,
            char_pos(s@, c, 0) == char_pos(s@, c, i as int),
        decreases n - i,
    {
        if s.get_char(i) == c {
            return i;
        }
        i = i + 1;
    }
    n
}

pub fn last_char_pos(s: &str, c: char) -> (r: usize)
    ensures
        r == char_rpos(s@, c, s@.len() as int),
        r <= s@.len(),
{
    let n = s.unicode_len();
    let mut i: usize = n;
    while i > 0
        invariant
            n == s@.len(),
            i <= n,
            char_rpos(s@, c, n as int) == char_rpos(s@, c, i as int),
        decreases i,
    {
        if s.get_char(i - 1) == c {
            return i - 1;
        }
        i = i - 1;
    }
    n
}

/// First position at or after `i` that is not whitespace (`s.len()` when none).
pub open spec fn skip_ws(s: Seq<char>, i: int) -> int
    decreases s.len() - i,
{
    if 0 <= i < s.len() && is_ws(s[i]) {
        skip_ws(s, i + 1)
    } else {
        i
    }
}

/// End of `s[lo..j]` once trailing whitespace is dropped.
pub open spec fn trim_end_at(s: Seq<char>, lo: int, j: int) -> int
    decreases j - lo,
{
    if lo < j && j <= s.len() && is_ws(s[j - 1]) {
        trim_end_at(s, lo, j - 1)
    } else {
        j
    }
}

/// `s` without leading and trailing whitespace (as `str::trim`).
pub open spec fn trimmed(s: Seq<char>) -> Seq<char> {
    let lo = skip_ws(s, 0);
    s.subrange(lo, trim_end_at(s, lo, s.len() as int))
}

/// A string that neither starts nor ends with whitespace is its own trim.
pub proof fn lemma_trimmed_id(s: Seq<char>)
    requires
        s.len() > 0,
        !is_ws(s[0]),
        !is_ws(s[s.len() - 1]),
    ensures
        trimmed(s) == s,
{
    assert(skip_ws(s, 0) == 0);
    assert(trim_end_at(s, 0, s.len() as int) == s.len());
    assert(s.subrange(0, s.len() as int) =~= s);
}

/// `s` without leading and trailing whitespace.
pub fn trim_str(s: &str) -> (r: &str)
    ensures
        r@ == trimmed(s@),
{
    let n = s.unicode_len();
    let mut lo: usize = 0;
    while lo < n && char_is_ws(s.get_char(lo))
        invariant
            n == s@.len(),
            lo <= n,
            skip_ws(s@, 0) == skip_ws(s@, lo as int),
        decreases n - lo,
    {
        lo = lo + 1;
    }
    let mut hi: usize = n;
    while hi > lo && char_is_ws(s.get_char(hi - 1))
        invariant
            n == s@.len(),
            lo <= hi <= n,
            lo == skip_ws(s@, 0),
            trim_end_at(s@, lo as int, n as int) == trim_end_at(s@, lo as int, hi as int),
        decreases hi,
    {
        hi = hi - 1;
    }
    s.substring_char(lo, hi)
}

/// Whether `s` begins with `p`.
pub open spec fn has_prefix(s: Seq<char>, p: Seq<char>) -> bool {
    p.len() <= s.len() && s.subrange(0, p.len() as int) == p
}

/// Whether `s` begins with `p` (as `str::starts_with`).
pub fn starts_with_str(s: &str, p: &str) -> (r: bool)
    ensures
        r == has_prefix(s@, p@),
{
    let n = s.unicode_len();
    let m = p.unicode_len();
    if m > n {
        return false;
    }
    let mut i: usize = 0;
    while i < m
        invariant
            n == s@.len(),
            m == p@.len(),
            m <= n,
            i <= m,
            forall|j: int| 0 <= j < i ==> s@[j] == p@[j],
        decreases m - i,
    {
        if s.get_char(i) != p.get_char(i) {
            assert(s@.subrange(0, m as int)[i as int] != p@[i as int]);
            return false;
        }
        i = i + 1;
    }
    assert(s@.subrange(0, m as int) =~= p@);
    true
}

/// How many times `c` occurs in `s`.
pub open spec fn count_char(s: Seq<char>, c: char) -> nat
    decreases s.len(),
{
    if s.len() == 0 {
        0
    } else {
        count_char(s.drop_last(), c) + if s.last() == c { 1nat } else { 0nat }
    }
}

proof fn lemma_count_char_bound(s: Seq<char>, c: char)
    ensures
        count_char(s, c) <= s.len(),
    decreases s.len(),
{
    if s.len() > 0 {
        lemma_count_char_bound(s.drop_last(), c);
    }
}

/// How many times `c` occurs in `s` (as `str::matches(c).count()`).
pub fn count_char_in(s: &str, c: char) -> (r: usize)
    ensures
        r == count_char(s@, c),
{
    let n = s.unicode_len();
    let mut k: usize = 0;
    let mut i: usize = 0;
    while i < n
        invariant
            n == s@.len(),
            i <= n,
            k == count_char(s@.subrange(0, i as int), c),
        decreases n - i,
    {
        let ghost pre = s@.subrange(0, i + 1);
        assert(pre.drop_last() =~= s@.subrange(0, i as int));
        proof {
            lemma_count_char_bound(s@.subrange(0, i as int), c);
        }
        if s.get_char(i) == c {
            k = k + 1;
        }
        i = i + 1;
    }
    assert(s@.subrange(0, n as int) =~= s@);
    k
}

/// Cutting at `c` gives at most one piece more than there are characters.
pub proof fn lemma_pieces_len(s: Seq<char>, c: char, i: int, cur: Seq<char>)
    requires
        0 <= i <= s.len(),
    ensures
        pieces_from(s, c, i, cur).len() <= s.len() - i + 1,
    decreases s.len() - i,
{
    if i < s.len() {
        lemma_pieces_len(s, c, i + 1, if s[i] == c { Seq::empty() } else { cur.push(s[i]) });
    }
}

/// The decimal text of `n` is a non-empty run of digits whose value is `n`.
pub proof fn lemma_dec_digits(n: nat)
    ensures
        dec(n).len() > 0,
        all_digits(dec(n)),
        digits_value(dec(n)) == n,
    decreases n,
{
    if n >= 10 {
        lemma_dec_digits(n / 10);
        let d = (n % 10) as nat;
        let c = digit_char(d);
        assert(dec(n) == dec(n / 10).push(c));
        assert(dec(n).drop_last() =~= dec(n / 10));
        assert(c as u32 == d + 48);
        assert(dec(n).last() == c);
        assert(digits_value(dec(n)) == digits_value(dec(n / 10)) * 10 + ((c as u32) - 48) as nat);
        assert(n == (n / 10) * 10 + n % 10);
        assert forall|j: int| 0 <= j < dec(n).len() implies '0' <= #[trigger] dec(n)[j] <= '9' by {
            if j < dec(n / 10).len() {
                assert(dec(n)[j] == dec(n / 10)[j]);
            }
        }
    } else {
        assert(digit_char(n) as u32 == n + 48);
        assert(dec(n) == seq![digit_char(n)]);
        assert(dec(n).drop_last() =~= Seq::<char>::empty());
        assert(dec(n).last() == digit_char(n));
        assert(digits_value(dec(n)) == digits_value(Seq::<char>::empty()) * 10 + ((digit_char(n) as u32) - 48) as nat);
    }
}

/// The value of a hexadecimal digit (either case).
pub open spec fn hex_digit(c: char) -> Option<nat> {
    let u = c as u32;
    if 48 <= u <= 57 {
        Some((u - 48) as nat)
    } else if 97 <= u <= 102 {
        Some((u - 87) as nat)
    } else if 65 <= u <= 70 {
        Some((u - 55) as nat)
    } else {
        None
    }
}

pub open spec fn all_hex(d: Seq<char>) -> bool {
    forall|j: int| 0 <= j < d.len() ==> #[trigger] hex_digit(d[j]) is Some
}

/// Value of a run of hexadecimal digits.
pub open spec fn hex_value(d: Seq<char>) -> nat
    decreases d.len(),
{
    if d.len() == 0 {
        0
    } else {
        hex_value(d.drop_last()) * 16 + match hex_digit(d.last()) {
            Some(v) => v,
            None => 0,
        }
    }
}

/// The hexadecimal text of `n` is a non-empty run of lower-case
/// hexadecimal digits whose value is `n`.
pub proof fn lemma_hex_digits(n: nat)
    ensures
        hex(n).len() > 0,
        all_hex(hex(n)),
        forall|j: int| 0 <= j < hex(n).len() ==> !('A' <= #[trigger] hex(n)[j] <= 'F'),
        hex_value(hex(n)) == n,
    decreases n,
{
    if n >= 16 {
        lemma_hex_digits(n / 16);
        let d = (n % 16) as nat;
        let c = digit_char(d);
        assert(hex(n) == hex(n / 16).push(c));
        assert(hex(n).drop_last() =~= hex(n / 16));
        assert(hex_digit(c) == Some(d));
        assert(hex(n).last() == c);
        assert(hex_value(hex(n)) == hex_value(hex(n / 16)) * 16 + d);
        assert(n == (n / 16) * 16 + n % 16);
        assert forall|j: int| 0 <= j < hex(n).len() implies #[trigger] hex_digit(hex(n)[j]) is Some && !('A' <= hex(n)[j] <= 'F') by {
            if j < hex(n / 16).len() {
                assert(hex(n)[j] == hex(n / 16)[j]);
            }
        }
    } else {
        assert(hex(n) == seq![digit_char(n)]);
        assert(hex_digit(digit_char(n)) == Some(n));
        assert(hex(n).drop_last() =~= Seq::<char>::empty());
        assert(hex(n).last() == digit_char(n));
        assert(hex_value(hex(n)) == hex_value(Seq::<char>::empty()) * 16 + n);
    }
}

/// What Rust's unsigned `from_str_radix(s, 16)` gives for `s` into a type
/// whose largest value is `max`: an optional `+`, then one or more
/// hexadecimal digits whose value fits.
pub open spec fn parse_hex_uint(s: Seq<char>, max: nat) -> Option<nat> {
    let d = if s.len() > 0 && s[0] == '+' { s.drop_first() } else { s };
    if d.len() > 0 && all_hex(d) && hex_value(d) <= max {
        Some(hex_value(d))
    } else {
        None
    }
}

proof fn lemma_hex_value_mono(d: Seq<char>, i: int)
    requires
        0 <= i <= d.len(),
    ensures
        hex_value(d.subrange(0, i)) <= hex_value(d),
    decreases d.len() - i,
{
    if i < d.len() {
        lemma_hex_value_mono(d, i + 1);
        let a = d.subrange(0, i + 1);
        assert(a.drop_last() =~= d.subrange(0, i));
    } else {
        assert(d.subrange(0, i) =~= d);
    }
}

fn hex_digit_of(c: char) -> (r: Option<u64>)
    ensures
        match r {
            Some(v) => hex_digit(c) == Some(v as nat) && v < 16,
            None => hex_digit(c) is None,
        },
{
    let u = c as u32;
    if 48 <= u && u <= 57 {
        Some((u - 48) as u64)
    } else if 97 <= u && u <= 102 {
        Some((u - 87) as u64)
    } else if 65 <= u && u <= 70 {
        Some((u - 55) as u64)
    } else {
        None
    }
}

/// Parses `s` as a hexadecimal number no larger than `max`.
pub fn parse_hex_u64_max(s: &str, max: u64) -> (r: Option<u64>)
    ensures
        match r {
            Some(v) => parse_hex_uint(s@, max as nat) == Some(v as nat),
            None => parse_hex_uint(s@, max as nat) is None,
        },
{
    let n = s.unicode_len();
    let start: usize = if n > 0 && s.get_char(0) == '+' { 1 } else { 0 };
    let ghost d = if s@.len() > 0 && s@[0] == '+' { s@.drop_first() } else { s@ };
    assert(d =~= s@.subrange(start as int, n as int));
    if start >= n {
        return None;
    }
    let mut v: u64 = 0;
    let mut i: usize = start;
    while i < n
        invariant
            n == s@.len(),
            start <= i <= n,
            d == s@.subrange(start as int, n as int),
            d == (if s@.len() > 0 && s@[0] == '+' { s@.drop_first() } else { s@ }),
            v == hex_value(d.subrange(0, i - start)),
            v <= max,
            forall|j: int| 0 <= j < i - start ==> #[trigger] hex_digit(d[j]) is Some,
        decreases n - i,
    {
        let c = s.get_char(i);
        assert(d[i - start] == c);
        let digit = match hex_digit_of(c) {
            Some(x) => x,
            None => {
                assert(!all_hex(d));
                return None;
            },
        };
        let ghost pre = d.subrange(0, i - start);
        let ghost nxt = d.subrange(0, i + 1 - start);
        assert(nxt.drop_last() =~= pre);
        assert(nxt.last() == c);
        if digit > max || v > (max - digit) / 16 {
            proof {
                if digit <= max {
                    assert(v * 16 + digit > max) by (nonlinear_arith)
                        requires
                            v > (max - digit) / 16,
                            digit <= max,
                    ;
                }
                lemma_hex_value_mono(d, i + 1 - start);
            }
            return None;
        }
        proof {
            assert(v * 16 + digit <= max) by (nonlinear_arith)
                requires
                    v <= (max - digit) / 16,
                    digit <= max,
            ;
        }
        v = v * 16 + digit;
        i = i + 1;
    }
    assert(d.subrange(0, n - start) =~= d);
    Some(v)
}

/// The last `k` lower-case hexadecimal digits of `n`, zero-padded (as
/// `{:0kx}` for a value below `16^k`).
pub open spec fn hex_fixed(n: nat, k: nat) -> Seq<char>
    decreases k,
{
    if k == 0 { Seq::empty() } else { hex_fixed(n / 16, (k - 1) as nat).push(digit_char(n % 16)) }
}

/// Appends the last `k` lower-case hexadecimal digits of `n`.
pub fn push_hex_fixed(out: &mut String, n: u64, k: usize)
    ensures
        final(out)@ == old(out)@ + hex_fixed(n as nat, k as nat),
{
    let mut digits: Vec<char> = Vec::new();
    let mut v: u64 = n;
    let mut j: usize = 0;
    while j < k
        invariant
            j <= k,
            hex_fixed(n as nat, k as nat) == hex_fixed(v as nat, (k - j) as nat) + digits@.reverse(),
        decreases k - j,
    {
        let d: u64 = v % 16;
        let c: char = if d < 10 { ((d as u8) + 48u8) as char } else { ((d as u8) + 87u8) as char };
        assert(c == digit_char(d as nat));
        let ghost old_digits = digits@;
        assert(hex_fixed(v as nat, (k - j) as nat) == hex_fixed((v / 16) as nat, (k - j - 1) as nat).push(c));
        digits.push(c);
        assert(digits@.reverse() =~= seq![c] + old_digits.reverse());
        v = v / 16;
        j = j + 1;
    }
    assert(hex_fixed(v as nat, 0) =~= Seq::<char>::empty());
    let mut t: usize = digits.len();
    let ghost base = out@;
    while t > 0
        invariant
            t <= digits@.len(),
            out@ =~= base + digits@.subrange(t as int, digits@.len() as int).reverse(),
        decreases t,
    {
        t = t - 1;
        push_char(out, digits[t]);
        assert(digits@.subrange(t as int, digits@.len() as int).reverse()
            =~= digits@.subrange(t + 1, digits@.len() as int).reverse().push(digits@[t as int]));
    }
    assert(digits@.subrange(0, digits@.len() as int) =~= digits@);
}

} // verus!
