use merlion_kernel::libc::{
    abs, atoi, free_sim, get_errno, getchar, getpid, init, isalnum, isalpha, isdigit, islower, isspace, isupper,
    libc_stats, malloc_sim, max, memcmp, memcpy, memmove, memset, min, printf, rand, set_current_pid, set_errno,
    sprintf, srand, strchr, strcmp, strdup, strerror, strlen, strncmp, strstr, strtol, tolower, toupper, LibcState,
    EINVAL, ENOENT, HEAP_BASE,
};

#[test]
fn errno_round_trip_and_messages() {
    let mut st = LibcState::new();
    assert_eq!(get_errno(&st), 0);
    set_errno(&mut st, ENOENT);
    assert_eq!(get_errno(&st), 2);
    assert_eq!(strerror(0), "success");
    assert_eq!(strerror(ENOENT), "no such file or directory");
    assert_eq!(strerror(12), "out of memory");
    assert_eq!(strerror(13), "permission denied");
    assert_eq!(strerror(EINVAL), "invalid argument");
    assert_eq!(strerror(99), "unknown error");
}

#[test]
fn strlen_stops_at_nul() {
    assert_eq!(strlen(b"hello\0world"), 5);
    assert_eq!(strlen(b"abc"), 3);
    assert_eq!(strlen(b""), 0);
}

#[test]
fn strcmp_orders_and_is_reflexive() {
    assert_eq!(strcmp(b"abc", b"abc"), 0);
    assert!(strcmp(b"abc", b"abd") < 0);
    assert!(strcmp(b"abd", b"abc") > 0);
    assert_eq!(strcmp(b"ab", b"abc"), -1);
    assert_eq!(strcmp(b"ab\0x", b"ab\0y"), 0);
    // Swapping the arguments negates the result.
    assert_eq!(strcmp(b"apple", b"apricot"), -strcmp(b"apricot", b"apple"));
}

#[test]
fn strncmp_and_memcmp() {
    assert_eq!(strncmp(b"abcdef", b"abcxyz", 3), 0);
    assert!(strncmp(b"abcdef", b"abcxyz", 4) < 0);
    assert_eq!(memcmp(b"a\0b", b"a\0c"), (b'b' as i32) - (b'c' as i32));
    assert_eq!(memcmp(b"same", b"same"), 0);
}

#[test]
fn strchr_and_strstr() {
    assert_eq!(strchr(b"hello", b'l'), Some(2));
    assert_eq!(strchr(b"hello", b'z'), None);
    assert_eq!(strstr(b"hello world", b"world"), Some(6));
    assert_eq!(strstr(b"hello", b""), Some(0));
    assert_eq!(strstr(b"hello", b"xyz"), None);
}

#[test]
fn strdup_copies() {
    assert_eq!(strdup("kernel"), "kernel");
}

#[test]
fn strtol_parses_and_reports_errors() {
    assert_eq!(strtol("42", 10), Ok(42));
    assert_eq!(strtol("-42", 10), Ok(-42));
    assert_eq!(strtol("+7", 10), Ok(7));
    assert_eq!(strtol("ff", 16), Ok(255));
    assert_eq!(strtol("FF", 16), Ok(255));
    assert_eq!(strtol("", 10), Err("empty string"));
    assert_eq!(strtol("-", 10), Err("no digits"));
    assert_eq!(strtol("12z", 10), Err("invalid character"));
    assert_eq!(strtol("19", 8), Err("digit out of range for base"));
}

#[test]
fn atoi_reads_decimal_or_zero() {
    assert_eq!(atoi("123"), 123);
    assert_eq!(atoi("-5"), -5);
    assert_eq!(atoi("abc"), 0);
    assert_eq!(atoi("4294967297"), 1);
}

#[test]
fn memset_fills() {
    let mut buf = [1u8, 2, 3, 4];
    memset(&mut buf, 9);
    assert_eq!(buf, [9, 9, 9, 9]);
}

#[test]
fn memcpy_copies_the_shorter_length_and_compares_equal() {
    let mut dst = [0u8; 5];
    memcpy(&mut dst, b"abc");
    assert_eq!(&dst, b"abc\0\0");
    assert_eq!(memcmp(&dst[..3], b"abc"), 0);
    let mut small = [0u8; 2];
    memmove(&mut small, b"xyz");
    assert_eq!(&small, b"xy");
}

#[test]
fn printf_formats() {
    let mut st = LibcState::new();
    let out = printf(&mut st, "%s is %d (0x%x) 100%%", &["answer", "42", "255"]);
    assert_eq!(out, "answer is 42 (0xff) 100%");
    assert_eq!(st.printf_calls, 1);
    let out = sprintf(&mut st, "%s %d %x %q", &[]);
    assert_eq!(out, "(null) 0 0 %q");
    assert_eq!(st.printf_calls, 2);
    let mut st2 = LibcState::new();
    assert_eq!(printf(&mut st2, "%x", &["-1"]), "ffffffffffffffff");
    assert_eq!(printf(&mut st2, "tail%", &[]), "tail%");
}

#[test]
fn getchar_has_nothing() {
    assert_eq!(getchar(), None);
}

#[test]
fn malloc_then_free_restores_heap() {
    let mut st = LibcState::new();
    assert_eq!(malloc_sim(&mut st, 0), 0);
    assert_eq!(get_errno(&st), EINVAL);
    let a = malloc_sim(&mut st, 64);
    assert_eq!(a, HEAP_BASE);
    let b = malloc_sim(&mut st, 16);
    assert_eq!(b, HEAP_BASE + 64);
    assert_eq!(st.heap.len(), 2);
    assert_eq!(st.malloc_count, 2);
    free_sim(&mut st, b);
    assert_eq!(st.heap.len(), 1);
    assert_eq!(st.heap[0].ptr, a);
    assert_eq!(st.free_count, 1);
    free_sim(&mut st, 12345);
    assert_eq!(st.heap.len(), 1);
    assert_eq!(st.free_count, 1);
}

#[test]
fn srand_then_rand_is_xorshift() {
    let mut st = LibcState::new();
    srand(&mut st, 0);
    assert_eq!(st.rng, 1);
    assert_eq!(rand(&mut st), 270369);
    srand(&mut st, 42);
    assert_eq!(rand(&mut st), 11355432);
    assert_eq!(rand(&mut st), 2836018348);
    // The state never becomes zero.
    for _ in 0..1000 {
        assert_ne!(rand(&mut st), 0);
    }
}

#[test]
fn arithmetic_helpers() {
    assert_eq!(abs(-5), 5);
    assert_eq!(abs(7), 7);
    assert_eq!(min(3, -2), -2);
    assert_eq!(max(3, -2), 3);
}

#[test]
fn pid_tracking() {
    let mut st = LibcState::new();
    assert_eq!(getpid(&st), 0);
    set_current_pid(&mut st, 17);
    assert_eq!(getpid(&st), 17);
}

#[test]
fn ctype_classes_and_case_round_trip() {
    assert!(isalpha(b'a') && isalpha(b'Z') && !isalpha(b'1'));
    assert!(isdigit(b'0') && !isdigit(b'a'));
    assert!(isalnum(b'q') && isalnum(b'5') && !isalnum(b'-'));
    assert!(isupper(b'Q') && !isupper(b'q'));
    assert!(islower(b'q') && !islower(b'Q'));
    assert!(isspace(b' ') && isspace(b'\t') && isspace(11) && !isspace(b'x'));
    assert_eq!(toupper(b'a'), b'A');
    assert_eq!(tolower(b'A'), b'a');
    assert_eq!(toupper(b'1'), b'1');
    for c in b'a'..=b'z' {
        assert_eq!(tolower(toupper(c)), c);
    }
    for c in b'A'..=b'Z' {
        assert_eq!(toupper(tolower(c)), c);
    }
}

#[test]
fn stats_and_init() {
    let mut st = LibcState::new();
    malloc_sim(&mut st, 10);
    malloc_sim(&mut st, 20);
    set_errno(&mut st, ENOENT);
    let s = libc_stats(&st);
    assert_eq!(
        s,
        "libc statistics:\n  malloc calls: 2\n  free calls: 0\n  live allocations: 2 (30 bytes)\n  printf calls: 0\n  errno: 2 (no such file or directory)\n"
    );
    init(&mut st);
    assert_eq!(st.rng, 0xC0DE_CAFE);
    assert_eq!(st.errno, 0);
    assert_eq!(st.malloc_count, 0);
    assert_eq!(st.next_ptr, HEAP_BASE);
    assert_eq!(st.heap.len(), 2);
}
