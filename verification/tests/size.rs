use dedup::size::{min_size_from, parse_size, size_fits, SizeError};

#[test]
fn test_parse_size() {
    assert_eq!(parse_size("100").unwrap(), 100);
    assert_eq!(parse_size("100B").unwrap(), 100);
    assert_eq!(parse_size("10KB").unwrap(), 10 * 1024);
    assert_eq!(parse_size("10MB").unwrap(), 10 * 1024 * 1024);
    assert_eq!(parse_size("1GB").unwrap(), 1024 * 1024 * 1024);
}

#[test]
fn test_parse_size_case_insensitive() {
    assert_eq!(parse_size("10kb").unwrap(), 10 * 1024);
    assert_eq!(parse_size("10Kb").unwrap(), 10 * 1024);
    assert_eq!(parse_size("10KB").unwrap(), 10 * 1024);
}

#[test]
fn test_parse_size_with_spaces() {
    assert_eq!(parse_size(" 10 KB ").unwrap(), 10 * 1024);
}

#[test]
fn parse_size_errors_follow_u64_parsing() {
    assert_eq!(parse_size(""), Err(SizeError::Empty));
    assert_eq!(parse_size("   "), Err(SizeError::Empty));
    assert_eq!(parse_size("KB"), Err(SizeError::Empty));
    assert_eq!(parse_size("+"), Err(SizeError::InvalidDigit));
    assert_eq!(parse_size("-5"), Err(SizeError::InvalidDigit));
    assert_eq!(parse_size("1.5GB"), Err(SizeError::InvalidDigit));
    assert_eq!(parse_size("10TB"), Err(SizeError::InvalidDigit));
    assert_eq!(parse_size("18446744073709551616"), Err(SizeError::PosOverflow));
    assert_eq!(parse_size("99999999999999999999x"), Err(SizeError::PosOverflow));
}

#[test]
fn parse_size_accepts_sign_and_inner_space() {
    assert_eq!(parse_size("+7mb").unwrap(), 7 * 1024 * 1024);
    assert_eq!(parse_size("\t3 gB\n").unwrap(), 3 * 1024 * 1024 * 1024);
    assert_eq!(parse_size("0").unwrap(), 0);
    assert_eq!(parse_size("18446744073709551615").unwrap(), u64::MAX);
    assert_eq!(parse_size("18446744073709551615b").unwrap(), u64::MAX);
    assert_eq!(parse_size("5\u{3000}KB").unwrap(), 5 * 1024);
}

#[test]
fn size_fits_detects_products_out_of_range() {
    assert!(size_fits("10KB"));
    assert!(size_fits("garbage"));
    assert!(size_fits("17179869183GB"));
    assert!(!size_fits("17179869184GB"));
    assert!(!size_fits("18446744073709551615KB"));
}

#[test]
fn min_size_defaults_to_zero() {
    assert_eq!(min_size_from(None), Ok(0));
    assert_eq!(min_size_from(Some("2KB")), Ok(2048));
    assert_eq!(min_size_from(Some("x")), Err(SizeError::InvalidDigit));
}
