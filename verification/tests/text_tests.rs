use merlion_kernel::text::{
    count_char_in, find_char, i64_to_dec, parse_u64_max, push_char, push_dec, push_dec_padded,
    push_dec_padded_left, push_padded, push_padded_left, push_sdec, push_spaces, rfind_char, split_char,
    split_whitespace, starts_with_str, str_eq, string_of, trim_str, u128_to_dec, u64_to_dec, u64_to_hex,
    u64_to_radix,
};

#[test]
fn push_char_appends() {
    let mut s = String::from("ab");
    push_char(&mut s, 'c');
    push_char(&mut s, 'é');
    assert_eq!(s, "abcé");
}

#[test]
fn number_formatting() {
    assert_eq!(u64_to_dec(0), "0");
    assert_eq!(u64_to_dec(1234567890), "1234567890");
    assert_eq!(u64_to_dec(u64::MAX), "18446744073709551615");
    assert_eq!(u128_to_dec(u128::MAX), "340282366920938463463374607431768211455");
    assert_eq!(u64_to_hex(255), "ff");
    assert_eq!(u64_to_radix(5, 2), "101");
    assert_eq!(i64_to_dec(-42), "-42");
    assert_eq!(i64_to_dec(i64::MIN), "-9223372036854775808");
    let mut s = String::new();
    push_dec(&mut s, 7);
    push_sdec(&mut s, -3);
    assert_eq!(s, "7-3");
}

#[test]
fn padding() {
    let mut s = String::new();
    push_padded(&mut s, "ab", 4);
    push_char(&mut s, '|');
    push_padded_left(&mut s, "ab", 4);
    push_char(&mut s, '|');
    push_dec_padded(&mut s, 5, 3);
    push_char(&mut s, '|');
    push_dec_padded_left(&mut s, 5, 3);
    push_char(&mut s, '|');
    push_spaces(&mut s, 2);
    push_padded(&mut s, "toolong", 3);
    assert_eq!(s, "ab  |  ab|5  |  5|  toolong");
}

#[test]
fn splitting_and_searching() {
    assert_eq!(split_whitespace("  a b\t\nc  "), vec!["a", "b", "c"]);
    assert!(split_whitespace("   ").is_empty());
    assert_eq!(split_char("a,,b", ','), vec!["a", "", "b"]);
    assert_eq!(find_char("hello", 'l'), Some(2));
    assert_eq!(rfind_char("hello", 'l'), Some(3));
    assert_eq!(find_char("hello", 'z'), None);
    assert_eq!(count_char_in("a.b.c", '.'), 2);
    assert_eq!(trim_str("  x y \n"), "x y");
    assert!(starts_with_str("kernel.hz", "kernel"));
    assert!(!starts_with_str("ker", "kernel"));
    assert!(str_eq("abc", "abc"));
    assert!(!str_eq("abc", "abd"));
    assert_eq!(string_of("copy"), "copy");
}

#[test]
fn unsigned_parsing() {
    assert_eq!(parse_u64_max("42", 100), Some(42));
    assert_eq!(parse_u64_max("+42", 100), Some(42));
    assert_eq!(parse_u64_max("101", 100), None);
    assert_eq!(parse_u64_max("", 100), None);
    assert_eq!(parse_u64_max("4x", 100), None);
    assert_eq!(parse_u64_max("18446744073709551615", u64::MAX), Some(u64::MAX));
    assert_eq!(parse_u64_max("18446744073709551616", u64::MAX), None);
}
