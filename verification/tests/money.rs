use txledger::money::Money;

fn parse(s: &str) -> Option<i64> {
    Money::parse(&s.as_bytes().to_vec()).map(|m| m.raw())
}

fn format(raw: i64) -> String {
    String::from_utf8(Money::from_raw(raw).format()).unwrap()
}

#[test]
fn parse_plain_amounts() {
    assert_eq!(parse("1.5"), Some(15000));
    assert_eq!(parse("2.0"), Some(20000));
    assert_eq!(parse("10"), Some(100000));
    assert_eq!(parse("0"), Some(0));
    assert_eq!(parse("0.0001"), Some(1));
}

#[test]
fn parse_signs_and_whitespace() {
    assert_eq!(parse("-2.00"), Some(-20000));
    assert_eq!(parse("+0.1"), Some(1000));
    assert_eq!(parse("  3.5\t"), Some(35000));
    assert_eq!(parse(" -1 "), Some(-10000));
}

#[test]
fn parse_truncates_toward_zero_past_four_digits() {
    assert_eq!(parse("1.23456"), Some(12345));
    assert_eq!(parse("-1.23456"), Some(-12345));
    assert_eq!(parse("0.99999"), Some(9999));
}

#[test]
fn parse_dot_edge_forms() {
    assert_eq!(parse(".5"), Some(5000));
    assert_eq!(parse("5."), Some(50000));
    assert_eq!(parse("007"), Some(70000));
}

#[test]
fn parse_rejects_malformed_text() {
    assert_eq!(parse(""), None);
    assert_eq!(parse(" "), None);
    assert_eq!(parse("."), None);
    assert_eq!(parse("abc"), None);
    assert_eq!(parse("1.2.3"), None);
    assert_eq!(parse("--1"), None);
    assert_eq!(parse("1a"), None);
    assert_eq!(parse("+"), None);
}

#[test]
fn parse_range_limits() {
    assert_eq!(parse("99999999999999.9999"), Some(999_999_999_999_999_999));
    assert_eq!(parse("-99999999999999.9999"), Some(-999_999_999_999_999_999));
    assert_eq!(parse("100000000000000"), None);
    assert_eq!(parse("00099999999999999"), Some(999_999_999_999_990_000));
    assert_eq!(parse("000100000000000000"), None);
}

#[test]
fn format_four_fractional_digits() {
    assert_eq!(format(15000), "1.5000");
    assert_eq!(format(0), "0.0000");
    assert_eq!(format(12345), "1.2345");
    assert_eq!(format(-80000), "-8.0000");
    assert_eq!(format(1), "0.0001");
    assert_eq!(format(-1), "-0.0001");
    assert_eq!(format(100000), "10.0000");
}

#[test]
fn parse_format_round_trip() {
    for raw in [0i64, 1, -1, 15000, -80000, 123456789, -42_4242] {
        let text = format(raw);
        assert_eq!(parse(&text), Some(raw));
    }
}

#[test]
fn arithmetic_is_exact() {
    let a = Money::from_raw(15000);
    let b = Money::from_raw(5000);
    assert_eq!(a.add(b).unwrap().raw(), 20000);
    assert_eq!(a.sub(b).unwrap().raw(), 10000);
    assert!(b.lt(a));
    assert!(!a.lt(b));
    assert!(Money::from_raw(-1).is_negative());
    assert!(Money::zero().is_zero());
    assert_eq!(Money::from_raw(i64::MAX).add(Money::from_raw(1)), None);
}
