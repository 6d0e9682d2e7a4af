use dedup::size::parse_size;
use dedup::text::{
    chars_of, chars_start_with, concatenate, decimal_string, hex_string, string_from_chars,
    trim_bounds,
    white_space,
};

#[test]
fn decimal_matches_to_string() {
    for n in [0u64, 7, 10, 99, 100, 12345, 4294967296, u64::MAX] {
        assert_eq!(decimal_string(n), n.to_string());
    }
}

#[test]
fn decimal_sizes_read_back() {
    for n in [0u64, 1, 1023, 1024, 987654321, u64::MAX] {
        assert_eq!(parse_size(&decimal_string(n)).unwrap(), n);
        assert_eq!(parse_size(&format!("{}kB", n / 1024)).unwrap(), (n / 1024) * 1024);
    }
}

#[test]
fn hex_is_lower_case_two_digits_per_byte() {
    assert_eq!(hex_string(&[]), "");
    assert_eq!(hex_string(&[0x00, 0x0f, 0xa5, 0xff]), "000fa5ff");
}

#[test]
fn prefixes_and_concatenation() {
    let c = |s: &str| chars_of(s);
    assert!(chars_start_with(&c("/data/x"), &c("/data")));
    assert!(!chars_start_with(&c("/dat"), &c("/data")));
    assert!(chars_start_with(&c("abc"), &c("")));
    assert!(!chars_start_with(&c("/abc"), &c("abc")));
    assert_eq!(concatenate("dev:", "12"), "dev:12");
    assert_eq!(concatenate("", ""), "");
}

#[test]
fn characters_round_trip() {
    let v = chars_of("héllo 世界");
    assert_eq!(v.len(), 8);
    assert_eq!(string_from_chars(&v), "héllo 世界");
}

#[test]
fn trimming_bounds() {
    let v = chars_of("\u{a0} ab c\t\n");
    let (a, b) = trim_bounds(&v, 0, v.len());
    assert_eq!(string_from_chars(&v[a..b].to_vec()), "ab c");
    let w = chars_of("   ");
    let (a, b) = trim_bounds(&w, 0, w.len());
    assert_eq!(a, b);
    assert!(white_space('\u{3000}'));
    assert!(white_space('\u{85}'));
    assert!(!white_space('x'));
    assert!(!white_space('\u{200b}'));
}
