use pnl_core::decimal::Decimal;
use rust_decimal::Decimal as RefDecimal;
use std::str::FromStr;

fn dec(m: i128, s: u32) -> Decimal {
    Decimal::new(m, s).unwrap()
}

fn parse(s: &str) -> Option<Decimal> {
    pnl_core::decimal_text::parse_decimal(s)
}

#[test]
fn parse_plain_integer() {
    let d = parse("123").unwrap();
    assert_eq!(d.mantissa, 123);
    assert_eq!(d.scale, 0);
}

#[test]
fn parse_fraction() {
    let d = parse("123.45").unwrap();
    assert_eq!(d.mantissa, 12345);
    assert_eq!(d.scale, 2);
}

#[test]
fn parse_normalizes_trailing_zeros() {
    let d = parse("-0.500").unwrap();
    assert_eq!(d.mantissa, -5);
    assert_eq!(d.scale, 1);
}

#[test]
fn parse_signs_and_dot_forms() {
    assert_eq!(parse("+7.").unwrap(), dec(7, 0));
    assert_eq!(parse(".5").unwrap(), dec(5, 1));
    assert_eq!(parse("-0").unwrap(), dec(0, 0));
}

#[test]
fn parse_rejects_bad_text() {
    assert!(parse("").is_none());
    assert!(parse("abc").is_none());
    assert!(parse("1.2.3").is_none());
    assert!(parse(" 1").is_none());
    assert!(parse("1 ").is_none());
    assert!(parse("-").is_none());
    assert!(parse("1e3").is_none());
}

#[test]
fn parse_truncates_past_the_scale_bound() {
    // the 29th fractional digit is read but dropped
    assert_eq!(parse("0.00000000000000000000000000001").unwrap(), dec(0, 0));
    assert_eq!(
        parse("0.00000000000000000000000000019").unwrap(),
        dec(1, 28)
    );
    // the 28th is kept
    assert_eq!(parse("0.0000000000000000000000000001").unwrap(), dec(1, 28));
    // dropped digits must still be digits
    assert!(parse("0.00000000000000000000000000001x").is_none());
}

#[test]
fn parse_accepts_digit_separators() {
    assert_eq!(parse("1_000").unwrap(), dec(1000, 0));
    assert_eq!(parse("1_000.2_5").unwrap(), dec(100025, 2));
    assert_eq!(parse("1_").unwrap(), dec(1, 0));
    // a separator needs a digit before it
    assert!(parse("_1").is_none());
    assert!(parse("-_1").is_none());
}

#[test]
fn parse_rejects_mantissa_overflow() {
    // one more than i128::MAX
    assert!(parse("170141183460469231731687303715884105728").is_none());
    // i128::MAX itself is representable
    assert!(parse("170141183460469231731687303715884105727").is_some());
}

#[test]
fn add_exact() {
    let a = parse("1.5").unwrap();
    let b = parse("2.25").unwrap();
    assert_eq!(a.checked_add(b).unwrap(), dec(375, 2));
}

#[test]
fn sub_can_go_negative() {
    let a = parse("1").unwrap();
    let b = parse("2").unwrap();
    assert_eq!(a.checked_sub(b).unwrap(), dec(-1, 0));
}

#[test]
fn mul_normalizes() {
    let a = parse("2.50").unwrap();
    let b = parse("4").unwrap();
    assert_eq!(a.checked_mul(b).unwrap(), dec(10, 0));
    let c = parse("0.5").unwrap();
    assert_eq!(c.checked_mul(c).unwrap(), dec(25, 2));
}

#[test]
fn div_truncates_at_scale_bound() {
    let a = parse("1234.56").unwrap();
    let b = parse("2").unwrap();
    assert_eq!(a.checked_div(b).unwrap(), dec(61728, 2));
    let one = parse("1").unwrap();
    let three = parse("3").unwrap();
    let third = one.checked_div(three).unwrap();
    assert_eq!(third, dec(3333333333333333333333333333, 28));
}

#[test]
fn comparisons_are_numeric() {
    let a = parse("0.5").unwrap();
    let b = parse("0.75").unwrap();
    assert!(a.lt(&b));
    assert!(a.le(&b));
    assert!(!b.le(&a));
    assert!(a.eq_value(&parse("0.50000").unwrap()));
    assert!(parse("-3").unwrap().is_negative());
    assert!(parse("0.0").unwrap().is_zero());
    assert!(parse("0.001").unwrap().is_positive());
}

#[test]
fn to_text_round_trips() {
    for s in ["0", "1", "-1", "123.45", "0.025", "-0.5", "10000", "9.000000001"] {
        let d = parse(s).unwrap();
        assert_eq!(d.to_text(), s);
    }
}

#[test]
fn matches_reference_decimal_parsing() {
    for s in ["1_000", "1_000.2_5", "123.45", "+7.", ".5", "-0.500"] {
        let mine = parse(s).unwrap();
        let theirs = RefDecimal::from_str(s).unwrap().normalize();
        assert_eq!(mine.to_text(), theirs.to_string());
    }
}

#[test]
fn matches_reference_decimal_arithmetic() {
    let cases = [("1.5", "2.25"), ("100", "0.07"), ("-3.125", "8.4"), ("0.004", "0.006")];
    for (x, y) in cases {
        let a = parse(x).unwrap();
        let b = parse(y).unwrap();
        let ra = RefDecimal::from_str(x).unwrap();
        let rb = RefDecimal::from_str(y).unwrap();
        assert_eq!(a.checked_add(b).unwrap().to_text(), (ra + rb).normalize().to_string());
        assert_eq!(a.checked_sub(b).unwrap().to_text(), (ra - rb).normalize().to_string());
        assert_eq!(a.checked_mul(b).unwrap().to_text(), (ra * rb).normalize().to_string());
    }
}
