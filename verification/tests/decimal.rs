use keyed_stats::bytes::find_byte;
use keyed_stats::decimal::{parse_decimal, FRACTION_DIGITS, UNITS_PER_ONE};

#[test]
fn plain_numbers() {
    assert_eq!(parse_decimal(b"0"), Some(0));
    assert_eq!(parse_decimal(b"10.0"), Some(10_000_000));
    assert_eq!(parse_decimal(b"5.5"), Some(5_500_000));
    assert_eq!(parse_decimal(b"-5.5"), Some(-5_500_000));
    assert_eq!(parse_decimal(b"+3"), Some(3_000_000));
    assert_eq!(parse_decimal(b"007.250"), Some(7_250_000));
    assert_eq!(parse_decimal(b"-0"), Some(0));
    assert_eq!(parse_decimal(b"-0.0"), Some(0));
    assert_eq!(parse_decimal(b"0.000001"), Some(1));
    assert_eq!(parse_decimal(b"123456.654321"), Some(123_456_654_321));
}

#[test]
fn point_at_either_end() {
    assert_eq!(parse_decimal(b".5"), Some(500_000));
    assert_eq!(parse_decimal(b"5."), Some(5_000_000));
    assert_eq!(parse_decimal(b"-.25"), Some(-250_000));
    assert_eq!(parse_decimal(b"."), None);
    assert_eq!(parse_decimal(b"+."), None);
}

#[test]
fn digits_behind_the_sixth_are_dropped() {
    assert_eq!(parse_decimal(b"1.2345678"), Some(1_234_567));
    assert_eq!(parse_decimal(b"-1.9999999"), Some(-1_999_999));
    assert_eq!(parse_decimal(b"0.0000009"), Some(0));
    assert_eq!(parse_decimal(b"0.0000009x"), None);
}

#[test]
fn texts_that_are_no_number() {
    for text in [
        &b""[..], b"+", b"-", b"abc", b"1e5", b"1.2.3", b"--1", b"+-1", b"1-", b" 1", b"1 ",
        b"inf", b"NaN", b"0x10", b"1,5", b"\xff",
    ] {
        assert_eq!(parse_decimal(text), None);
    }
}

#[test]
fn magnitude_limit() {
    assert_eq!(parse_decimal(b"9223372036854.775807"), Some(i64::MAX));
    assert_eq!(parse_decimal(b"-9223372036854.775807"), Some(-i64::MAX));
    assert_eq!(parse_decimal(b"9223372036854.775808"), None);
    assert_eq!(parse_decimal(b"9223372036855"), None);
    assert_eq!(parse_decimal(b"99999999999999999999999999999999999999999999"), None);
    assert_eq!(parse_decimal(b"000000000000000000000000000000000000000000001.5"), Some(1_500_000));
}

#[test]
fn scale_constants_agree() {
    assert_eq!(10i64.pow(FRACTION_DIGITS as u32), UNITS_PER_ONE);
}

#[test]
fn find_byte_gives_first_occurrence_or_length() {
    assert_eq!(find_byte(b"a;b;c", b';', 0), 1);
    assert_eq!(find_byte(b"a;b;c", b';', 1), 1);
    assert_eq!(find_byte(b"a;b;c", b';', 2), 3);
    assert_eq!(find_byte(b"a;b;c", b';', 4), 5);
    assert_eq!(find_byte(b"a;b;c", b';', 5), 5);
    assert_eq!(find_byte(b"", b';', 0), 0);
}
