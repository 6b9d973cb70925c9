use fer_model::parse::{parse_trimmed_i64, parse_trimmed_u64, parse_u64};

#[test]
fn decimal_fields() {
    assert_eq!(parse_u64("1234", 10), Some(1234));
    assert_eq!(parse_u64("+7", 10), Some(7));
    assert_eq!(parse_u64("18446744073709551615", 10), Some(u64::MAX));
    assert_eq!(parse_u64("18446744073709551616", 10), None);
    assert_eq!(parse_u64("", 10), None);
    assert_eq!(parse_u64("+", 10), None);
    assert_eq!(parse_u64("-1", 10), None);
    assert_eq!(parse_u64(" 12", 10), None);
    assert_eq!(parse_u64("1a", 10), None);
}

#[test]
fn decimal_fields_agree_with_std() {
    for s in ["0", "00042", "+0", "99999999999999999999", "4x", "-0", " 3", ""] {
        assert_eq!(parse_u64(s, 10), s.parse::<u64>().ok(), "{:?}", s);
    }
}

#[test]
fn trimmed_fields() {
    assert_eq!(parse_trimmed_u64("  42\t", 10), Some(42));
    assert_eq!(parse_trimmed_u64("\u{3000}42\u{A0}", 10), Some(42));
    assert_eq!(parse_trimmed_u64("   ", 10), None);
    assert_eq!(parse_trimmed_u64("4 2", 10), None);
}

#[test]
fn hex_fields() {
    assert_eq!(parse_trimmed_u64("ff", 16), Some(255));
    assert_eq!(parse_trimmed_u64(" FF ", 16), Some(255));
    assert_eq!(parse_trimmed_u64("ffffffffffffffff", 16), Some(u64::MAX));
    assert_eq!(parse_trimmed_u64("10000000000000000", 16), None);
    assert_eq!(parse_trimmed_u64("g", 16), None);
    assert_eq!(parse_trimmed_u64("0x10", 16), None);
}

#[test]
fn signed_hex_fields() {
    assert_eq!(parse_trimmed_i64("ffffffff", 16), Some(4294967295));
    assert_eq!(parse_trimmed_i64("-1", 16), Some(-1));
    assert_eq!(parse_trimmed_i64("+a", 16), Some(10));
    assert_eq!(parse_trimmed_i64("7fffffffffffffff", 16), Some(i64::MAX));
    assert_eq!(parse_trimmed_i64("8000000000000000", 16), None);
    assert_eq!(parse_trimmed_i64("-8000000000000000", 16), Some(i64::MIN));
    assert_eq!(parse_trimmed_i64("-8000000000000001", 16), None);
    assert_eq!(parse_trimmed_i64("-", 16), None);
}

#[test]
fn signed_hex_fields_agree_with_std() {
    for s in ["0", "-0", "+1f", "-ABC", "fffffffffffffffff", "", "-", "1-"] {
        assert_eq!(parse_trimmed_i64(s, 16), i64::from_str_radix(s.trim(), 16).ok(), "{:?}", s);
    }
}
