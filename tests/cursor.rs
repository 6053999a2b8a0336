use ssb_index::{decode_cursor, encode_cursor};

#[test]
fn encode_gives_decimal_text() {
    assert_eq!(encode_cursor(0), "0");
    assert_eq!(encode_cursor(5), "5");
    assert_eq!(encode_cursor(1234567), "1234567");
    assert_eq!(encode_cursor(-42), "-42");
}

#[test]
fn decode_reads_decimal_text() {
    assert_eq!(decode_cursor("5"), Some(5));
    assert_eq!(decode_cursor("007"), Some(7));
    assert_eq!(decode_cursor("-42"), Some(-42));
    assert_eq!(decode_cursor("9223372036854775807"), Some(i64::MAX));
    assert_eq!(decode_cursor("-9223372036854775808"), Some(i64::MIN));
}

#[test]
fn decode_refuses_malformed_tokens() {
    assert_eq!(decode_cursor(""), None);
    assert_eq!(decode_cursor("-"), None);
    assert_eq!(decode_cursor("abc"), None);
    assert_eq!(decode_cursor("12a"), None);
    assert_eq!(decode_cursor("+5"), None);
    assert_eq!(decode_cursor("9223372036854775808"), None);
    assert_eq!(decode_cursor("-9223372036854775809"), None);
    assert_eq!(decode_cursor("99999999999999999999999"), None);
}

#[test]
fn decode_of_encode_is_identity() {
    for x in [0i64, 1, 9, 10, 99, 100, 12345, i64::MAX, -1, -10, i64::MIN, 1_600_000_000_000] {
        assert_eq!(decode_cursor(&encode_cursor(x)), Some(x));
    }
}
