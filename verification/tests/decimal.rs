use my_redis::decimal::{parse_decimal_i64, parse_i64, parse_u64};

#[test]
fn protocol_integers_are_exact_decimal_text() {
    assert_eq!(parse_decimal_i64(b"0"), Some(0));
    assert_eq!(parse_decimal_i64(b"-1"), Some(-1));
    assert_eq!(parse_decimal_i64(b"9223372036854775807"), Some(i64::MAX));
    assert_eq!(parse_decimal_i64(b"-9223372036854775808"), Some(i64::MIN));
    assert_eq!(parse_decimal_i64(b""), None);
    assert_eq!(parse_decimal_i64(b"-"), None);
    assert_eq!(parse_decimal_i64(b"-0"), None);
    assert_eq!(parse_decimal_i64(b"01"), None);
    assert_eq!(parse_decimal_i64(b"+1"), None);
    assert_eq!(parse_decimal_i64(b"9223372036854775808"), None);
    assert_eq!(parse_decimal_i64(b"1a"), None);
}

#[test]
fn unsigned_numbers_read_like_str_parse() {
    for text in ["0", "007", "+12", "18446744073709551615", "", "+", "-1", "18446744073709551616", "1 "] {
        assert_eq!(parse_u64(text.as_bytes()), text.parse::<u64>().ok(), "{:?}", text);
    }
}

#[test]
fn signed_numbers_read_like_str_parse() {
    for text in [
        "0", "-0", "+0", "-007", "42", "9223372036854775807", "-9223372036854775808",
        "9223372036854775808", "-9223372036854775809", "", "-", "+", "--1", "1-",
    ] {
        assert_eq!(parse_i64(text.as_bytes()), text.parse::<i64>().ok(), "{:?}", text);
    }
}
