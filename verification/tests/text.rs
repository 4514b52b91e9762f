use webhook_bridge::text::{
    ascii_string, decimal_bytes, decimal_string, parse_unsigned, same_bytes, same_text,
    unsigned_string,
};

#[test]
fn integers_are_written_in_decimal() {
    assert_eq!(decimal_string(0), "0");
    assert_eq!(decimal_string(7), "7");
    assert_eq!(decimal_string(10), "10");
    assert_eq!(decimal_string(-1), "-1");
    assert_eq!(decimal_string(-120), "-120");
    assert_eq!(decimal_string(1_700_000_000_000), "1700000000000");
    assert_eq!(decimal_string(i64::MAX), "9223372036854775807");
    assert_eq!(decimal_string(i64::MIN), "-9223372036854775808");
    assert_eq!(decimal_bytes(-305), b"-305".to_vec());
    assert_eq!(unsigned_string(0), "0");
    assert_eq!(unsigned_string(6_000), "6000");
    assert_eq!(unsigned_string(u64::MAX), "18446744073709551615");
}

#[test]
fn decimal_agrees_with_the_standard_formatting() {
    let mut v: i64 = 1;
    for i in 0..200 {
        assert_eq!(decimal_string(v), format!("{}", v));
        assert_eq!(decimal_string(-v), format!("{}", -v));
        v = v.wrapping_mul(31).wrapping_add(i) % 1_000_000_000_000_000;
    }
}

#[test]
fn ascii_bytes_become_the_same_characters() {
    assert_eq!(ascii_string(b""), "");
    assert_eq!(ascii_string(b"Zm9v+/=="), "Zm9v+/==");
    assert_eq!(ascii_string(&[0, 9, 127]), "\u{0}\t\u{7f}");
}

#[test]
fn texts_are_compared_character_by_character() {
    assert!(same_text("", ""));
    assert!(same_text("topic", "topic"));
    assert!(!same_text("topic", "topic "));
    assert!(!same_text("topic", "Topic"));
    assert!(!same_text("a", ""));
    assert!(same_text("\u{e9}t\u{e9}", "\u{e9}t\u{e9}"));
    assert!(!same_text("\u{e9}", "e"));
    assert!(same_bytes(&[1, 2, 3], &[1, 2, 3]));
    assert!(!same_bytes(&[1, 2, 3], &[1, 2, 4]));
    assert!(!same_bytes(&[1, 2, 3], &[1, 2]));
}

#[test]
fn numbers_are_read_from_decimal_digits() {
    assert_eq!(parse_unsigned(b"0"), Some(0));
    assert_eq!(parse_unsigned(b"7"), Some(7));
    assert_eq!(parse_unsigned(b"6000"), Some(6_000));
    assert_eq!(parse_unsigned(b"007"), Some(7));
    assert_eq!(parse_unsigned(b"18446744073709551615"), Some(u64::MAX));
    assert_eq!(parse_unsigned(b"00018446744073709551615"), Some(u64::MAX));
}

#[test]
fn what_is_no_number_is_refused() {
    assert_eq!(parse_unsigned(b""), None);
    assert_eq!(parse_unsigned(b" 1"), None);
    assert_eq!(parse_unsigned(b"1 "), None);
    assert_eq!(parse_unsigned(b"+1"), None);
    assert_eq!(parse_unsigned(b"-1"), None);
    assert_eq!(parse_unsigned(b"1e3"), None);
    assert_eq!(parse_unsigned(b"12a"), None);
    assert_eq!(parse_unsigned(b"1.5"), None);
    assert_eq!(parse_unsigned("\u{663}".as_bytes()), None);
    assert_eq!(parse_unsigned(b"18446744073709551616"), None);
    assert_eq!(parse_unsigned(b"18446744073709551620"), None);
    assert_eq!(parse_unsigned(b"99999999999999999999"), None);
    assert_eq!(parse_unsigned(b"184467440737095516150"), None);
    assert_eq!(parse_unsigned(b"99999999999999999999x"), None);
}

#[test]
fn reading_a_written_number_gives_it_back() {
    let mut v: u64 = 1;
    for i in 0..300u64 {
        assert_eq!(parse_unsigned(unsigned_string(v).as_bytes()), Some(v));
        v = v.wrapping_mul(6_364_136_223_846_793_005).wrapping_add(i);
    }
    assert_eq!(parse_unsigned(unsigned_string(0).as_bytes()), Some(0));
    assert_eq!(parse_unsigned(unsigned_string(u64::MAX).as_bytes()), Some(u64::MAX));
}
