//! A small C library: errno, string and memory routines, a printf-style
//! formatter, simulated heap tracking, a xorshift PRNG and ctype helpers.
use vstd::prelude::*;
use vstd::string::*;
use crate::text::{string_of, push_char, push_sdec, u64_to_hex, dec, sdec, hex, push_dec};

verus! {

pub const ENOENT: i32 = 2;
pub const ENOMEM: i32 = 12;
pub const EACCES: i32 = 13;
pub const EINVAL: i32 = 22;

/// Initial value of the simulated heap's pointer counter.
pub const HEAP_BASE: u64 = 0x1000_0000;

/// One tracked simulated allocation.
pub struct AllocEntry {
    pub ptr: u64,
    pub size: usize,
}

/// The process-wide state the C library keeps: errno, PRNG state, the
/// simulated heap and call counters.
pub struct LibcState {
    pub errno: i32,
    pub rng: u32,
    pub heap: Vec<AllocEntry>,
    pub malloc_count: u64,
    pub free_count: u64,
    pub printf_calls: u64,
    pub next_ptr: u64,
    pub current_pid: u32,
}

/// `x + 1` modulo 2^64, as an atomic counter increments.
pub open spec fn wrap_inc(x: u64) -> u64 {
    if x == u64::MAX { 0 } else { (x + 1) as u64 }
}

pub fn inc_wrapping(x: u64) -> (r: u64)
    ensures
        r == wrap_inc(x),
{
    if x == u64::MAX { 0 } else { x + 1 }
}

impl LibcState {
    /// The state before initialisation: everything zero, PRNG seeded with
    /// `0xDEAD_BEEF`, heap pointer at `HEAP_BASE`.
    pub fn new() -> (s: Self)
        ensures
            s.errno == 0,
            s.rng == 0xDEAD_BEEFu32,
            s.heap@.len() == 0,
            s.malloc_count == 0,
            s.free_count == 0,
            s.printf_calls == 0,
            s.next_ptr == HEAP_BASE,
            s.current_pid == 0,
    {
        LibcState {
            errno: 0,
            rng: 0xDEAD_BEEF,
            heap: Vec::new(),
            malloc_count: 0,
            free_count: 0,
            printf_calls: 0,
            next_ptr: HEAP_BASE,
            current_pid: 0,
        }
    }
}

// ---------------------------------------------------------------------------
// errno
// ---------------------------------------------------------------------------

/// Set the errno value.
pub fn set_errno(st: &mut LibcState, e: i32)
    ensures
        *final(st) == (LibcState { errno: e, ..*old(st) }),
{
    st.errno = e;
}

/// Get the current errno value.
pub fn get_errno(st: &LibcState) -> (r: i32)
    ensures
        r == st.errno,
{
    st.errno
}

/// The message for an errno code.
pub open spec fn strerror_spec(e: i32) -> Seq<char> {
    if e == 0 {
        "success"@
    } else if e == ENOENT {
        "no such file or directory"@
    } else if e == ENOMEM {
        "out of memory"@
    } else if e == EACCES {
        "permission denied"@
    } else if e == EINVAL {
        "invalid argument"@
    } else {
        "unknown error"@
    }
}

/// Return a human-readable description of an errno code.
pub fn strerror(e: i32) -> (r: &'static str)
    ensures
        r@ == strerror_spec(e),
{
    if e == 0 {
        "success"
    } else if e == ENOENT {
        "no such file or directory"
    } else if e == ENOMEM {
        "out of memory"
    } else if e == EACCES {
        "permission denied"
    } else if e == EINVAL {
        "invalid argument"
    } else {
        "unknown error"
    }
}

// ---------------------------------------------------------------------------
// String functions
// ---------------------------------------------------------------------------

/// Length of a NUL-terminated byte string: the index of the first NUL, or
/// the slice length when there is none.
pub fn strlen(s: &[u8]) -> (r: usize)
    ensures
        r <= s@.len(),
        forall|j: int| 0 <= j < r ==> s@[j] != 0,
        r < s@.len() ==> s@[r as int] == 0,
{
    let n = s.len();
    let mut i: usize = 0;
    while i < n
        invariant
            n == s@.len(),
            i <= n,
            forall|j: int| 0 <= j < i ==> s@[j] != 0,
        decreases n - i,
    {
        if s[i] == 0 {
            return i;
        }
        i = i + 1;
    }
    n
}

/// C-style comparison of `a` and `b` over their first `len` bytes, starting
/// at `i`: the difference of the first differing bytes, 0 at a shared NUL
/// when `nul_stops`, and `tail` when the prefix is equal.
pub open spec fn compare_from(a: Seq<u8>, b: Seq<u8>, i: int, len: int, nul_stops: bool, tail: int) -> int
    decreases len - i,
{
    if i >= len {
        tail
    } else if a[i] != b[i] {
        a[i] - b[i]
    } else if nul_stops && a[i] == 0 {
        0
    } else {
        compare_from(a, b, i + 1, len, nul_stops, tail)
    }
}

fn byte_diff(x: u8, y: u8) -> (r: i32)
    ensures
        r == x - y,
{
    (x as i32) - (y as i32)
}

fn compare_bytes(a: &[u8], b: &[u8], len: usize, nul_stops: bool, tail: i32) -> (r: i32)
    requires
        len <= a@.len(),
        len <= b@.len(),
    ensures
        r == compare_from(a@, b@, 0, len as int, nul_stops, tail as int),
{
    let mut i: usize = 0;
    while i < len
        invariant
            len <= a@.len(),
            len <= b@.len(),
            i <= len,
            compare_from(a@, b@, 0, len as int, nul_stops, tail as int)
                == compare_from(a@, b@, i as int, len as int, nul_stops, tail as int),
        decreases len - i,
    {
        if a[i] != b[i] {
            return byte_diff(a[i], b[i]);
        }
        if nul_stops && a[i] == 0 {
            return 0;
        }
        i = i + 1;
    }
    tail
}

/// The smaller of two lengths.
pub open spec fn min_len(a: nat, b: nat) -> int {
    if a < b { a as int } else { b as int }
}

/// The smaller of two integers.
pub open spec fn min_int(a: int, b: int) -> int {
    if a < b { a } else { b }
}

/// The length `n` capped at `cap`.
pub open spec fn capped(n: nat, cap: usize) -> int {
    if n < cap { n as int } else { cap as int }
}

fn len_diff(a: usize, b: usize) -> (r: i32)
    requires
        a <= i32::MAX,
        b <= i32::MAX,
    ensures
        r == a - b,
{
    (a as i32) - (b as i32)
}

/// Compare two byte strings lexicographically (C-style), stopping at a NUL
/// they share. Returns negative, zero, or positive.
pub fn strcmp(a: &[u8], b: &[u8]) -> (r: i32)
    requires
        a@.len() <= i32::MAX,
        b@.len() <= i32::MAX,
    ensures
        r == compare_from(a@, b@, 0, min_len(a@.len(), b@.len()), true, a@.len() - b@.len()),
{
    let len = if a.len() < b.len() { a.len() } else { b.len() };
    compare_bytes(a, b, len, true, len_diff(a.len(), b.len()))
}

/// Compare at most `n` bytes of two byte strings.
pub fn strncmp(a: &[u8], b: &[u8], n: usize) -> (r: i32)
    requires
        a@.len() <= i32::MAX,
        b@.len() <= i32::MAX,
    ensures
        r == compare_from(a@, b@, 0, min_int(capped(a@.len(), n), capped(b@.len(), n)), true,
            capped(a@.len(), n) - capped(b@.len(), n)),
{
    let la = if a.len() < n { a.len() } else { n };
    let lb = if b.len() < n { b.len() } else { n };
    let len = if la < lb { la } else { lb };
    compare_bytes(a, b, len, true, len_diff(la, lb))
}

/// Compare two byte slices. Returns negative, zero, or positive.
pub fn memcmp(a: &[u8], b: &[u8]) -> (r: i32)
    requires
        a@.len() <= i32::MAX,
        b@.len() <= i32::MAX,
    ensures
        r == compare_from(a@, b@, 0, min_len(a@.len(), b@.len()), false, a@.len() - b@.len()),
{
    let len = if a.len() < b.len() { a.len() } else { b.len() };
    compare_bytes(a, b, len, false, len_diff(a.len(), b.len()))
}

/// Index of the first occurrence of byte `c` in `s`.
pub fn strchr(s: &[u8], c: u8) -> (r: Option<usize>)
    ensures
        match r {
            Some(i) => i < s@.len() && s@[i as int] == c && forall|j: int| 0 <= j < i ==> s@[j] != c,
            None => forall|j: int| 0 <= j < s@.len() ==> s@[j] != c,
        },
{
    let n = s.len();
    let mut i: usize = 0;
    while i < n
        invariant
            n == s@.len(),
            i <= n,
            forall|j: int| 0 <= j < i ==> s@[j] != c,
        decreases n - i,
    {
        if s[i] == c {
            return Some(i);
        }
        i = i + 1;
    }
    None
}

/// Whether `needle` occurs in `hay` starting at index `i`.
pub open spec fn occurs_at(hay: Seq<u8>, needle: Seq<u8>, i: int) -> bool {
    0 <= i && i + needle.len() <= hay.len() && hay.subrange(i, i + needle.len()) == needle
}

/// Index where `needle` first occurs in `haystack`.
pub fn strstr(haystack: &[u8], needle: &[u8]) -> (r: Option<usize>)
    ensures
        match r {
            Some(i) => occurs_at(haystack@, needle@, i as int)
                && forall|j: int| 0 <= j < i ==> !occurs_at(haystack@, needle@, j),
            None => forall|j: int| 0 <= j <= haystack@.len() ==> !occurs_at(haystack@, needle@, j),
        },
{
    let hn = haystack.len();
    let nn = needle.len();
    if nn == 0 {
        assert(haystack@.subrange(0, 0) =~= needle@);
        return Some(0);
    }
    if nn > hn {
        return None;
    }
    let mut i: usize = 0;
    while i <= hn - nn
        invariant
            hn == haystack@.len(),
            nn == needle@.len(),
            0 < nn <= hn,
            i <= hn - nn + 1,
            forall|j: int| 0 <= j < i ==> !occurs_at(haystack@, needle@, j),
        decreases hn - nn + 1 - i,
    {
        let mut k: usize = 0;
        let mut same = true;
        while k < nn
            invariant
                hn == haystack@.len(),
                nn == needle@.len(),
                i + nn <= hn,
                k <= nn,
                same ==> forall|m: int| 0 <= m < k ==> haystack@[i + m] == needle@[m],
                !same ==> !occurs_at(haystack@, needle@, i as int),
            decreases nn - k,
        {
            if same && haystack[i + k] != needle[k] {
                same = false;
                assert(haystack@.subrange(i as int, i + nn)[k as int] != needle@[k as int]);
            }
            k = k + 1;
        }
        if same {
            assert(haystack@.subrange(i as int, i + nn) =~= needle@);
            return Some(i);
        }
        i = i + 1;
    }
    None
}

/// Duplicate a string (C `strdup`).
pub fn strdup(s: &str) -> (r: String)
    ensures
        r@ == s@,
{
    string_of(s)
}

/// The value of a digit character in bases up to 16, or -1.
pub open spec fn digit_value(c: char) -> int {
    if '0' <= c <= '9' {
        c as int - 48
    } else if 'a' <= c <= 'f' {
        c as int - 97 + 10
    } else if 'A' <= c <= 'F' {
        c as int - 65 + 10
    } else {
        -1
    }
}

/// `acc * base + v`, wrapping around in 64 bits.
#[verifier::opaque]
pub open spec fn digit_step(acc: i64, base: u32, v: i64) -> i64 {
    vstd::wrapping::i64_specs::wrapping_add(vstd::wrapping::i64_specs::wrapping_mul(acc, base as i64), v)
}

fn exec_digit_step(acc: i64, base: u32, v: i64) -> (r: i64)
    ensures
        r == digit_step(acc, base, v),
{
    reveal(digit_step);
    acc.wrapping_mul(base as i64).wrapping_add(v)
}

/// Reads the digits in `d` into `acc` (with wrap-around), or names the
/// first bad digit.
pub open spec fn parse_digits(d: Seq<char>, base: u32, acc: i64) -> Result<i64, Seq<char>>
    decreases d.len(),
{
    if d.len() == 0 {
        Ok(acc)
    } else {
        let v = digit_value(d[0]);
        if v < 0 {
            Err("invalid character"@)
        } else if v >= base {
            Err("digit out of range for base"@)
        } else {
            parse_digits(
                d.drop_first(),
                base,
                digit_step(acc, base, v as i64),
            )
        }
    }
}

/// What `strtol` gives back for `s` in base `base`.
pub open spec fn strtol_spec(s: Seq<char>, base: u32) -> Result<i64, Seq<char>> {
    if s.len() == 0 {
        Err("empty string"@)
    } else {
        let negative = s[0] == '-';
        let digits = if s[0] == '-' || s[0] == '+' { s.drop_first() } else { s };
        if digits.len() == 0 {
            Err("no digits"@)
        } else {
            match parse_digits(digits, base, 0) {
                Ok(v) => Ok(if negative { vstd::wrapping::i64_specs::wrapping_sub(0, v) } else { v }),
                Err(e) => Err(e),
            }
        }
    }
}

fn char_digit(c: char) -> (r: i64)
    ensures
        r == digit_value(c),
{
    let code = c as u32;
    if 48 <= code && code <= 57 {
        (code - 48) as i64
    } else if 97 <= code && code <= 102 {
        (code - 97 + 10) as i64
    } else if 65 <= code && code <= 70 {
        (code - 65 + 10) as i64
    } else {
        -1
    }
}

fn parse_digit_run(s: &str, start: usize, base: u32) -> (r: Result<i64, &'static str>)
    requires
        start <= s@.len(),
    ensures
        match r {
            Ok(v) => parse_digits(s@.subrange(start as int, s@.len() as int), base, 0) == Ok::<i64, Seq<char>>(v),
            Err(e) => parse_digits(s@.subrange(start as int, s@.len() as int), base, 0) == Err::<i64, Seq<char>>(e@),
        },
{
    let n = s.unicode_len();
    let ghost digits = s@.subrange(start as int, n as int);
    let mut result: i64 = 0;
    let mut i: usize = start;
    while i < n
        invariant
            n == s@.len(),
            start <= i <= n,
            digits == s@.subrange(start as int, n as int),
            parse_digits(digits, base, 0) == parse_digits(s@.subrange(i as int, n as int), base, result),
        decreases n - i,
    {
        let c = s.get_char(i);
        let v = char_digit(c);
        let ghost rest = s@.subrange(i as int, n as int);
        assert(rest[0] == c);
        assert(rest.drop_first() =~= s@.subrange(i + 1, n as int));
        if v < 0 {
            return Err("invalid character");
        }
        if v >= base as i64 {
            return Err("digit out of range for base");
        }
        result = exec_digit_step(result, base, v);
        i = i + 1;
    }
    assert(s@.subrange(n as int, n as int) =~= Seq::<char>::empty());
    Ok(result)
}

/// Parse a string as a signed 64-bit integer in the given radix, with an
/// optional leading sign; arithmetic wraps around on overflow.
pub fn strtol(s: &str, base: u32) -> (r: Result<i64, &'static str>)
    ensures
        match r {
            Ok(v) => strtol_spec(s@, base) == Ok::<i64, Seq<char>>(v),
            Err(e) => strtol_spec(s@, base) == Err::<i64, Seq<char>>(e@),
        },
{
    let n = s.unicode_len();
    if n == 0 {
        return Err("empty string");
    }
    let first = s.get_char(0);
    let negative = first == '-';
    let start: usize = if first == '-' || first == '+' { 1 } else { 0 };
    if start >= n {
        return Err("no digits");
    }
    assert(s@.subrange(start as int, n as int) =~= (if first == '-' || first == '+' { s@.drop_first() } else { s@ }));
    match parse_digit_run(s, start, base) {
        Ok(v) => {
            if negative {
                Ok(0i64.wrapping_sub(v))
            } else {
                Ok(v)
            }
        }
        Err(e) => Err(e),
    }
}

/// What `atoi` gives back: the decimal value truncated to 32 bits, or 0.
pub open spec fn atoi_spec(s: Seq<char>) -> i32 {
    match strtol_spec(s, 10) {
        Ok(v) => v as i32,
        Err(_) => 0,
    }
}

/// Parse a decimal string to `i32` (like C `atoi`): 0 when it does not
/// parse, the low 32 bits otherwise.
pub fn atoi(s: &str) -> (r: i32)
    ensures
        r == atoi_spec(s@),
{
    match strtol(s, 10) {
        Ok(v) => v as i32,
        Err(_) => 0,
    }
}

// ---------------------------------------------------------------------------
// Memory functions
// ---------------------------------------------------------------------------

/// Fill every byte of `buf` with `val`.
pub fn memset(buf: &mut [u8], val: u8)
    ensures
        final(buf)@ == Seq::new(old(buf)@.len(), |i: int| val),
{
    let n = buf.len();
    let mut i: usize = 0;
    while i < n
        invariant
            n == buf@.len(),
            n == old(buf)@.len(),
            i <= n,
            forall|j: int| 0 <= j < i ==> buf@[j] == val,
        decreases n - i,
    {
        buf[i] = val;
        i = i + 1;
    }
    assert(buf@ =~= Seq::new(old(buf)@.len(), |i: int| val));
}

/// Copy `min(dst.len(), src.len())` bytes from `src` to the front of `dst`.
pub fn memcpy(dst: &mut [u8], src: &[u8])
    ensures
        final(dst)@ == src@.subrange(0, min_len(old(dst)@.len(), src@.len()))
            + old(dst)@.subrange(min_len(old(dst)@.len(), src@.len()), old(dst)@.len() as int),
{
    let len = if dst.len() < src.len() { dst.len() } else { src.len() };
    let mut i: usize = 0;
    while i < len
        invariant
            len == min_len(old(dst)@.len(), src@.len()),
            dst@.len() == old(dst)@.len(),
            i <= len,
            forall|j: int| 0 <= j < i ==> dst@[j] == src@[j],
            forall|j: int| i <= j < dst@.len() ==> dst@[j] == old(dst)@[j],
        decreases len - i,
    {
        dst[i] = src[i];
        i = i + 1;
    }
    assert(dst@ =~= src@.subrange(0, len as int) + old(dst)@.subrange(len as int, old(dst)@.len() as int));
}

/// Copy bytes from `src` to `dst` through an intermediate buffer, so the
/// result is right whatever the two regions hold.
pub fn memmove(dst: &mut [u8], src: &[u8])
    ensures
        final(dst)@ == src@.subrange(0, min_len(old(dst)@.len(), src@.len()))
            + old(dst)@.subrange(min_len(old(dst)@.len(), src@.len()), old(dst)@.len() as int),
{
    let len = if dst.len() < src.len() { dst.len() } else { src.len() };
    let mut tmp: Vec<u8> = Vec::with_capacity(len);
    let mut i: usize = 0;
    while i < len
        invariant
            len <= src@.len(),
            i <= len,
            tmp@ == src@.subrange(0, i as int),
        decreases len - i,
    {
        tmp.push(src[i]);
        i = i + 1;
        assert(tmp@ =~= src@.subrange(0, i as int));
    }
    let mut j: usize = 0;
    while j < len
        invariant
            len == min_len(old(dst)@.len(), src@.len()),
            tmp@ == src@.subrange(0, len as int),
            dst@.len() == old(dst)@.len(),
            j <= len,
            forall|k: int| 0 <= k < j ==> dst@[k] == src@[k],
            forall|k: int| j <= k < dst@.len() ==> dst@[k] == old(dst)@[k],
        decreases len - j,
    {
        dst[j] = tmp[j];
        j = j + 1;
    }
    assert(dst@ =~= src@.subrange(0, len as int) + old(dst)@.subrange(len as int, old(dst)@.len() as int));
}

// ---------------------------------------------------------------------------
// stdio equivalents
// ---------------------------------------------------------------------------

/// The value that `%x` prints for an argument: the 64-bit two's complement
/// of its decimal value (0 when it does not parse).
pub open spec fn hex_arg(a: Seq<char>) -> nat {
    match strtol_spec(a, 10) {
        Ok(v) => if v < 0 { (v + 0x1_0000_0000_0000_0000) as nat } else { v as nat },
        Err(_) => 0,
    }
}

/// The text produced from the format bytes `f`, starting at byte `i` with
/// argument `k` next: `%s` inserts an argument (or `(null)`), `%d` its
/// `atoi` value, `%x` its value in hex (both `0` when arguments ran out),
/// `%%` a percent sign; `%` before any other byte keeps both; a trailing
/// `%` and every other byte stand for themselves.
pub open spec fn printf_from(f: Seq<u8>, args: Seq<&str>, i: int, k: int) -> Seq<char>
    decreases f.len() - i,
{
    if i < 0 || i >= f.len() {
        Seq::empty()
    } else if f[i] == 37 && i + 1 < f.len() {
        let c = f[i + 1];
        let has = 0 <= k < args.len();
        if c == 115 {
            if has {
                args[k]@ + printf_from(f, args, i + 2, k + 1)
            } else {
                "(null)"@ + printf_from(f, args, i + 2, k)
            }
        } else if c == 100 {
            if has {
                sdec(atoi_spec(args[k]@) as int) + printf_from(f, args, i + 2, k + 1)
            } else {
                seq!['0'] + printf_from(f, args, i + 2, k)
            }
        } else if c == 120 {
            if has {
                hex(hex_arg(args[k]@)) + printf_from(f, args, i + 2, k + 1)
            } else {
                seq!['0'] + printf_from(f, args, i + 2, k)
            }
        } else if c == 37 {
            seq!['%'] + printf_from(f, args, i + 2, k)
        } else {
            seq!['%', c as char] + printf_from(f, args, i + 2, k)
        }
    } else {
        seq![f[i] as char] + printf_from(f, args, i + 1, k)
    }
}

fn hex_of_arg(a: &str) -> (r: String)
    ensures
        r@ == hex(hex_arg(a@)),
{
    let v: i64 = match strtol(a, 10) {
        Ok(v) => v,
        Err(_) => 0,
    };
    let u: u64 = if v < 0 { ((v as i128) + 0x1_0000_0000_0000_0000i128) as u64 } else { v as u64 };
    u64_to_hex(u)
}

fn format_with(fmt: &str, args: &[&str]) -> (out: String)
    ensures
        out@ == printf_from(fmt.spec_bytes(), args@, 0, 0),
{
    let bytes = fmt.as_bytes();
    let n = bytes.len();
    let mut out = String::new();
    let mut i: usize = 0;
    let mut k: usize = 0;
    while i < n
        invariant
            n == bytes@.len(),
            bytes@ == fmt.spec_bytes(),
            i <= n + 1,
            k <= args@.len(),
            printf_from(bytes@, args@, 0, 0) == out@ + printf_from(bytes@, args@, i as int, k as int),
        decreases n + 1 - i,
    {
        let ghost before = out@;
        if bytes[i] == 37u8 && i + 1 < n {
            let c = bytes[i + 1];
            if c == 115u8 {
                if k < args.len() {
                    out.append(args[k]);
                    k = k + 1;
                } else {
                    out.append("(null)");
                }
            } else if c == 100u8 {
                if k < args.len() {
                    let v = atoi(args[k]);
                    push_sdec(&mut out, v as i64);
                    k = k + 1;
                } else {
                    push_char(&mut out, '0');
                }
            } else if c == 120u8 {
                if k < args.len() {
                    let h = hex_of_arg(args[k]);
                    out.append(h.as_str());
                    k = k + 1;
                } else {
                    push_char(&mut out, '0');
                }
            } else if c == 37u8 {
                push_char(&mut out, '%');
            } else {
                push_char(&mut out, '%');
                push_char(&mut out, c as char);
            }
            i = i + 2;
        } else {
            push_char(&mut out, bytes[i] as char);
            i = i + 1;
        }
        assert(printf_from(bytes@, args@, 0, 0) =~= out@ + printf_from(bytes@, args@, i as int, k as int));
    }
    assert(out@ + printf_from(bytes@, args@, i as int, k as int) =~= out@);
    out
}

/// printf-style formatter supporting `%s`, `%d`, `%x` and `%%`; arguments are
/// strings, read with `atoi` for `%d` and `strtol` for `%x`. Counts the call.
pub fn printf(st: &mut LibcState, fmt: &str, args: &[&str]) -> (out: String)
    ensures
        out@ == printf_from(fmt.spec_bytes(), args@, 0, 0),
        *final(st) == (LibcState { printf_calls: wrap_inc(old(st).printf_calls), ..*old(st) }),
{
    st.printf_calls = inc_wrapping(st.printf_calls);
    format_with(fmt, args)
}

/// Same as `printf`.
pub fn sprintf(st: &mut LibcState, fmt: &str, args: &[&str]) -> (out: String)
    ensures
        out@ == printf_from(fmt.spec_bytes(), args@, 0, 0),
        *final(st) == (LibcState { printf_calls: wrap_inc(old(st).printf_calls), ..*old(st) }),
{
    printf(st, fmt, args)
}

/// Read a character from the keyboard buffer: nothing is ever buffered here.
pub fn getchar() -> (r: Option<u8>)
    ensures
        r is None,
{
    None
}

// ---------------------------------------------------------------------------
// stdlib equivalents
// ---------------------------------------------------------------------------

/// `x + y` modulo 2^64.
pub open spec fn wrap_add(x: u64, y: u64) -> u64 {
    vstd::wrapping::u64_specs::wrapping_add(x, y)
}

/// Simulated malloc: records an allocation of `size` bytes at the next
/// pseudo-address and returns that address. A zero size sets errno to
/// `EINVAL` and returns 0.
pub fn malloc_sim(st: &mut LibcState, size: usize) -> (ptr: u64)
    ensures
        size == 0 ==> ptr == 0 && *final(st) == (LibcState { errno: EINVAL, ..*old(st) }),
        size != 0 ==> {
            &&& ptr == old(st).next_ptr
            &&& final(st).next_ptr == wrap_add(old(st).next_ptr, size as u64)
            &&& final(st).heap@ == old(st).heap@.push(AllocEntry { ptr, size })
            &&& final(st).malloc_count == wrap_inc(old(st).malloc_count)
            &&& final(st).errno == old(st).errno
            &&& final(st).rng == old(st).rng
            &&& final(st).free_count == old(st).free_count
            &&& final(st).printf_calls == old(st).printf_calls
            &&& final(st).current_pid == old(st).current_pid
        },
{
    if size == 0 {
        st.errno = EINVAL;
        return 0;
    }
    let ptr = st.next_ptr;
    st.next_ptr = st.next_ptr.wrapping_add(size as u64);
    st.heap.push(AllocEntry { ptr, size });
    st.malloc_count = inc_wrapping(st.malloc_count);
    ptr
}

/// Whether `i` is the first index of the heap whose allocation starts at `ptr`.
pub open spec fn first_alloc_at(h: Seq<AllocEntry>, ptr: u64, i: int) -> bool {
    0 <= i < h.len() && h[i].ptr == ptr && forall|j: int| 0 <= j < i ==> h[j].ptr != ptr
}

/// Simulated free: drops the first tracked allocation at `ptr`, if any.
pub fn free_sim(st: &mut LibcState, ptr: u64)
    ensures
        forall|i: int| first_alloc_at(old(st).heap@, ptr, i) ==> {
            &&& final(st).heap@ == old(st).heap@.remove(i)
            &&& final(st).free_count == wrap_inc(old(st).free_count)
            &&& final(st).errno == old(st).errno
            &&& final(st).rng == old(st).rng
            &&& final(st).malloc_count == old(st).malloc_count
            &&& final(st).printf_calls == old(st).printf_calls
            &&& final(st).next_ptr == old(st).next_ptr
            &&& final(st).current_pid == old(st).current_pid
        },
        (forall|i: int| 0 <= i < old(st).heap@.len() ==> old(st).heap@[i].ptr != ptr) ==> *final(st) == *old(st),
{
    let n = st.heap.len();
    let mut i: usize = 0;
    while i < n
        invariant
            n == st.heap@.len(),
            *st == *old(st),
            i <= n,
            forall|j: int| 0 <= j < i ==> st.heap@[j].ptr != ptr,
        decreases n - i,
    {
        if st.heap[i].ptr == ptr {
            st.heap.remove(i);
            st.free_count = inc_wrapping(st.free_count);
            return;
        }
        i = i + 1;
    }
}

/// One step of the xorshift32 generator.
pub open spec fn xorshift32(s: u32) -> u32 {
    let a = s ^ (s << 13u32);
    let b = a ^ (a >> 17u32);
    b ^ (b << 5u32)
}

/// Return a pseudo-random 32-bit integer (xorshift32) and advance the state.
pub fn rand(st: &mut LibcState) -> (r: u32)
    ensures
        r == xorshift32(old(st).rng),
        *final(st) == (LibcState { rng: r, ..*old(st) }),
{
    let mut s = st.rng;
    s = s ^ (s << 13u32);
    s = s ^ (s >> 17u32);
    s = s ^ (s << 5u32);
    st.rng = s;
    s
}

/// The generator state that `srand(seed)` installs: the seed, or 1 for 0.
pub open spec fn seeded(seed: u32) -> u32 {
    if seed == 0 { 1 } else { seed }
}

/// Seed the PRNG; a zero seed becomes 1.
pub fn srand(st: &mut LibcState, seed: u32)
    ensures
        *final(st) == (LibcState { rng: seeded(seed), ..*old(st) }),
{
    st.rng = if seed == 0 { 1 } else { seed };
}

/// Absolute value.
pub fn abs(n: i32) -> (r: i32)
    requires
        n != i32::MIN,
    ensures
        r == (if n < 0 { -n } else { n as int }),
{
    if n < 0 { -n } else { n }
}

/// Minimum of two integers.
pub fn min(a: i32, b: i32) -> (r: i32)
    ensures
        r == (if a < b { a } else { b }),
{
    if a < b { a } else { b }
}

/// Maximum of two integers.
pub fn max(a: i32, b: i32) -> (r: i32)
    ensures
        r == (if a > b { a } else { b }),
{
    if a > b { a } else { b }
}

/// The PID of the current process (0 when no process context is active).
pub fn getpid(st: &LibcState) -> (r: u32)
    ensures
        r == st.current_pid,
{
    st.current_pid
}

/// Set the current PID (called by the scheduler).
pub fn set_current_pid(st: &mut LibcState, pid: u32)
    ensures
        *final(st) == (LibcState { current_pid: pid, ..*old(st) }),
{
    st.current_pid = pid;
}

// ---------------------------------------------------------------------------
// ctype functions
// ---------------------------------------------------------------------------

/// Whether the byte is an ASCII letter.
pub fn isalpha(c: u8) -> (r: bool)
    ensures
        r == ((65 <= c <= 90) || (97 <= c <= 122)),
{
    (c >= 65 && c <= 90) || (c >= 97 && c <= 122)
}

/// Whether the byte is a decimal digit.
pub fn isdigit(c: u8) -> (r: bool)
    ensures
        r == (48 <= c <= 57),
{
    c >= 48 && c <= 57
}

/// Whether the byte is an ASCII letter or digit.
pub fn isalnum(c: u8) -> (r: bool)
    ensures
        r == ((65 <= c <= 90) || (97 <= c <= 122) || (48 <= c <= 57)),
{
    isalpha(c) || isdigit(c)
}

/// Whether the byte is an upper-case ASCII letter.
pub fn isupper(c: u8) -> (r: bool)
    ensures
        r == (65 <= c <= 90),
{
    c >= 65 && c <= 90
}

/// Whether the byte is a lower-case ASCII letter.
pub fn islower(c: u8) -> (r: bool)
    ensures
        r == (97 <= c <= 122),
{
    c >= 97 && c <= 122
}

/// Whether the byte is white space: space, tab, newline, carriage return,
/// vertical tab or form feed.
pub fn isspace(c: u8) -> (r: bool)
    ensures
        r == (c == 32 || c == 9 || c == 10 || c == 13 || c == 11 || c == 12),
{
    c == 32 || c == 9 || c == 10 || c == 13 || c == 11 || c == 12
}

/// `c` upper-cased when it is a lower-case ASCII letter, else `c`.
pub open spec fn upper_of(c: u8) -> u8 {
    if 97 <= c <= 122 { (c - 32) as u8 } else { c }
}

/// `c` lower-cased when it is an upper-case ASCII letter, else `c`.
pub open spec fn lower_of(c: u8) -> u8 {
    if 65 <= c <= 90 { (c + 32) as u8 } else { c }
}

/// Upper-case a lower-case ASCII letter; other bytes are unchanged.
pub fn toupper(c: u8) -> (r: u8)
    ensures
        r == upper_of(c),
{
    if islower(c) { c - 32 } else { c }
}

/// Lower-case an upper-case ASCII letter; other bytes are unchanged.
pub fn tolower(c: u8) -> (r: u8)
    ensures
        r == lower_of(c),
{
    if isupper(c) { c + 32 } else { c }
}

// ---------------------------------------------------------------------------
// Statistics and initialisation
// ---------------------------------------------------------------------------

/// Bytes held by the tracked allocations, summed modulo the word size.
pub open spec fn live_bytes(h: Seq<AllocEntry>) -> usize
    decreases h.len(),
{
    if h.len() == 0 {
        0
    } else {
        vstd::wrapping::usize_specs::wrapping_add(live_bytes(h.drop_last()), h.last().size)
    }
}

/// The statistics report.
pub open spec fn libc_stats_text(st: LibcState) -> Seq<char> {
    "libc statistics:\n  malloc calls: "@ + dec(st.malloc_count as nat)
        + "\n  free calls: "@ + dec(st.free_count as nat)
        + "\n  live allocations: "@ + dec(st.heap@.len()) + " ("@ + dec(live_bytes(st.heap@) as nat)
        + " bytes)\n  printf calls: "@ + dec(st.printf_calls as nat)
        + "\n  errno: "@ + sdec(st.errno as int) + " ("@ + strerror_spec(st.errno) + ")\n"@
}

/// A summary of the library's usage counters.
pub fn libc_stats(st: &LibcState) -> (out: String)
    ensures
        out@ == libc_stats_text(*st),
{
    let n = st.heap.len();
    let mut live: usize = 0;
    let mut i: usize = 0;
    while i < n
        invariant
            n == st.heap@.len(),
            i <= n,
            live == live_bytes(st.heap@.subrange(0, i as int)),
        decreases n - i,
    {
        assert(st.heap@.subrange(0, i + 1).drop_last() =~= st.heap@.subrange(0, i as int));
        live = live.wrapping_add(st.heap[i].size);
        i = i + 1;
    }
    assert(st.heap@.subrange(0, n as int) =~= st.heap@);
    let mut out = string_of("libc statistics:\n  malloc calls: ");
    push_dec(&mut out, st.malloc_count);
    out.append("\n  free calls: ");
    push_dec(&mut out, st.free_count);
    out.append("\n  live allocations: ");
    push_dec(&mut out, n as u64);
    out.append(" (");
    push_dec(&mut out, live as u64);
    out.append(" bytes)\n  printf calls: ");
    push_dec(&mut out, st.printf_calls);
    out.append("\n  errno: ");
    push_sdec(&mut out, st.errno as i64);
    out.append(" (");
    out.append(strerror(st.errno));
    out.append(")\n");
    out
}

/// Initialise the library: seed the PRNG with `0xC0DE_CAFE`, clear errno,
/// the counters and the current PID, reset the heap pointer. Tracked
/// allocations are kept.
pub fn init(st: &mut LibcState)
    ensures
        *final(st) == (LibcState {
            rng: 0xC0DE_CAFEu32,
            errno: 0,
            malloc_count: 0,
            free_count: 0,
            printf_calls: 0,
            next_ptr: HEAP_BASE,
            current_pid: 0,
            ..*old(st)
        }),
{
    srand(st, 0xC0DE_CAFE);
    set_errno(st, 0);
    st.malloc_count = 0;
    st.free_count = 0;
    st.printf_calls = 0;
    st.next_ptr = HEAP_BASE;
    set_current_pid(st, 0);
}

// ---------------------------------------------------------------------------
// Laws
// ---------------------------------------------------------------------------

/// Comparing a string with itself finds no difference: `strcmp`,
/// `strncmp` and `memcmp` of equal arguments give 0.
pub proof fn law_compare_reflexive(a: Seq<u8>, i: int, len: int, nul_stops: bool)
    ensures
        compare_from(a, a, i, len, nul_stops, 0) == 0,
    decreases len - i,
{
    if i < len && !(nul_stops && a[i] == 0) {
        law_compare_reflexive(a, i + 1, len, nul_stops);
    }
}

/// Swapping the arguments of a comparison negates its result.
pub proof fn law_compare_antisymmetric(a: Seq<u8>, b: Seq<u8>, i: int, len: int, nul_stops: bool, tail: int)
    ensures
        compare_from(a, b, i, len, nul_stops, tail) == -compare_from(b, a, i, len, nul_stops, -tail),
    decreases len - i,
{
    if i < len && a[i] == b[i] && !(nul_stops && a[i] == 0) {
        law_compare_antisymmetric(a, b, i + 1, len, nul_stops, tail);
    }
}

/// `tolower` undoes `toupper` on lower-case letters, and `toupper` undoes
/// `tolower` on upper-case letters.
pub proof fn law_case_roundtrip(c: u8)
    ensures
        97 <= c <= 122 ==> lower_of(upper_of(c)) == c,
        65 <= c <= 90 ==> upper_of(lower_of(c)) == c,
{
}

/// The generator never reaches the stuck state 0: `srand` installs a
/// non-zero state and each `rand` step keeps it non-zero.
pub proof fn law_rng_never_zero(seed: u32, s: u32)
    ensures
        seeded(seed) != 0,
        s != 0 ==> xorshift32(s) != 0,
{
    let a = s ^ (s << 13u32);
    let b = a ^ (a >> 17u32);
    assert(s != 0 ==> a != 0) by (bit_vector)
        requires
            a == s ^ (s << 13u32),
    ;
    assert(a != 0 ==> b != 0) by (bit_vector)
        requires
            b == a ^ (a >> 17u32),
    ;
    assert(b != 0 ==> b ^ (b << 5u32) != 0) by (bit_vector);
}

/// After `memcpy` (or `memmove`) the copied prefix of the destination
/// compares equal to the source.
pub proof fn law_copy_then_compare(dst: Seq<u8>, src: Seq<u8>)
    ensures
        ({
            let n = min_len(dst.len(), src.len());
            let out = src.subrange(0, n) + dst.subrange(n, dst.len() as int);
            &&& out.len() == dst.len()
            &&& out.subrange(0, n) == src.subrange(0, n)
            &&& compare_from(out, src, 0, n, false, 0) == 0
        }),
{
    let n = min_len(dst.len(), src.len());
    let out = src.subrange(0, n) + dst.subrange(n, dst.len() as int);
    assert(out.subrange(0, n) =~= src.subrange(0, n));
    lemma_compare_equal_prefix(out, src, 0, n);
}

proof fn lemma_compare_equal_prefix(a: Seq<u8>, b: Seq<u8>, i: int, n: int)
    requires
        0 <= i,
        n <= a.len(),
        n <= b.len(),
        forall|j: int| 0 <= j < n ==> a[j] == b[j],
    ensures
        compare_from(a, b, i, n, false, 0) == 0,
    decreases n - i,
{
    if i < n {
        lemma_compare_equal_prefix(a, b, i + 1, n);
    }
}

/// Freeing the block that `malloc_sim` just handed out, at an address no
/// other tracked block has, gives back the heap as it was.
pub proof fn law_malloc_then_free(h: Seq<AllocEntry>, ptr: u64, size: usize)
    requires
        forall|j: int| 0 <= j < h.len() ==> h[j].ptr != ptr,
    ensures
        first_alloc_at(h.push(AllocEntry { ptr, size }), ptr, h.len() as int),
        h.push(AllocEntry { ptr, size }).remove(h.len() as int) == h,
{
    assert(h.push(AllocEntry { ptr, size }).remove(h.len() as int) =~= h);
}

} // verus!
