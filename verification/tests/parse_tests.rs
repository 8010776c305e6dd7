use station_stats::decimal::{parse_decimal, Decimal};

const UNIT: i128 = 1_000_000_000;

#[test]
fn parses_plain_integer() {
    assert_eq!(parse_decimal(b"42"), Some(Decimal::new(42 * UNIT)));
    assert_eq!(parse_decimal(b"0"), Some(Decimal::new(0)));
}

#[test]
fn parses_fraction() {
    assert_eq!(parse_decimal(b"3.5"), Some(Decimal::new(3 * UNIT + 500_000_000)));
    assert_eq!(parse_decimal(b"0.000000001"), Some(Decimal::new(1)));
    assert_eq!(parse_decimal(b"123.456"), Some(Decimal::new(123_456_000_000)));
}

#[test]
fn parses_signed() {
    assert_eq!(parse_decimal(b"-5.0"), Some(Decimal::new(-5 * UNIT)));
    assert_eq!(parse_decimal(b"+4.25"), Some(Decimal::new(4 * UNIT + 250_000_000)));
    assert_eq!(parse_decimal(b"-0.5"), Some(Decimal::new(-500_000_000)));
}

#[test]
fn parses_bare_dot_forms() {
    assert_eq!(parse_decimal(b"5."), Some(Decimal::new(5 * UNIT)));
    assert_eq!(parse_decimal(b".5"), Some(Decimal::new(500_000_000)));
}

#[test]
fn trims_surrounding_whitespace() {
    assert_eq!(parse_decimal(b" 3.5\n"), Some(Decimal::new(3 * UNIT + 500_000_000)));
    assert_eq!(parse_decimal(b"\t -7 \r\n"), Some(Decimal::new(-7 * UNIT)));
}

#[test]
fn rejects_malformed_text() {
    assert_eq!(parse_decimal(b""), None);
    assert_eq!(parse_decimal(b"   "), None);
    assert_eq!(parse_decimal(b"."), None);
    assert_eq!(parse_decimal(b"-"), None);
    assert_eq!(parse_decimal(b"+"), None);
    assert_eq!(parse_decimal(b"abc"), None);
    assert_eq!(parse_decimal(b"1..2"), None);
    assert_eq!(parse_decimal(b"1.2.3"), None);
    assert_eq!(parse_decimal(b"1e5"), None);
    assert_eq!(parse_decimal(b"4 2"), None);
    assert_eq!(parse_decimal(b"\xff"), None);
}

#[test]
fn rejects_excess_precision_and_magnitude() {
    // More than nine fraction digits.
    assert_eq!(parse_decimal(b"1.0123456789"), None);
    // Exactly nine is fine.
    assert_eq!(parse_decimal(b"1.012345678"), Some(Decimal::new(1_012_345_678)));
    // Beyond 10^18 whole units.
    assert_eq!(parse_decimal(b"10000000000000000000"), None);
    // The largest admitted magnitude.
    assert_eq!(
        parse_decimal(b"1000000000000000000"),
        Some(Decimal::new(1_000_000_000_000_000_000_000_000_000))
    );
    assert_eq!(
        parse_decimal(b"-1000000000000000000"),
        Some(Decimal::new(-1_000_000_000_000_000_000_000_000_000))
    );
}
