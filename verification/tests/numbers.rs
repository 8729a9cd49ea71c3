use jsonschema::perfect_precision_number::{PerfectPrecisionNumber, PerfectPrecisionNumberError};
use std::cmp::Ordering;

fn parse(text: &str) -> PerfectPrecisionNumber {
    PerfectPrecisionNumber::from_str(text).unwrap()
}

fn is_integer(n: &PerfectPrecisionNumber) -> bool {
    matches!(n, PerfectPrecisionNumber::Integer(_))
}

fn is_integer_from_float(n: &PerfectPrecisionNumber) -> bool {
    matches!(n, PerfectPrecisionNumber::IntegerFromFloat(_))
}

fn is_rational(n: &PerfectPrecisionNumber) -> bool {
    matches!(n, PerfectPrecisionNumber::Rational(_))
}

#[test]
fn parse_integers() {
    assert!(is_integer(&parse("1")));
    assert!(parse("1") == PerfectPrecisionNumber::from(1u8));
    assert!(is_integer(&parse("-2")));
    assert!(parse("-2") == PerfectPrecisionNumber::from(-2i32));
    assert!(parse("+7") == PerfectPrecisionNumber::from(7u64));
    assert!(parse("007") == PerfectPrecisionNumber::from(7u64));
    assert!(parse("-0") == PerfectPrecisionNumber::from(0i8));
}

#[test]
fn parse_integers_written_with_a_point() {
    assert!(is_integer_from_float(&parse("3.")));
    assert!(parse("3.") == PerfectPrecisionNumber::from(3u8));
    assert!(is_integer_from_float(&parse("-4.")));
    assert!(parse("-4.") == PerfectPrecisionNumber::from(-4i8));
    assert!(is_integer_from_float(&parse("5.000")));
    assert!(parse("5.000") == PerfectPrecisionNumber::from(5u8));
    assert!(is_integer_from_float(&parse("-6.000")));
    assert!(parse("-6.000") == PerfectPrecisionNumber::from(-6i64));
}

#[test]
fn parse_rationals() {
    assert!(is_rational(&parse("0.7")));
    assert!(parse("0.7") == parse(".70"));
    assert!(is_rational(&parse("-0.8")));
    assert!(parse("-0.8") == parse("-00.800"));
    assert!(is_rational(&parse(".9")));
    assert!(parse(".9") == parse("0.9"));
    assert!(is_rational(&parse("-.11")));
    assert!(parse("-.11") != parse(".11"));
    assert!(parse("0.7") != parse("0.07"));
}

#[test]
fn parse_edge_cases() {
    assert!(is_integer(&parse("")));
    assert!(parse("") == PerfectPrecisionNumber::from(0u8));
    assert!(is_integer_from_float(&parse("-")));
    assert!(is_integer_from_float(&parse(".")));
    assert!(parse("-.") == PerfectPrecisionNumber::from(0u8));
}

#[test]
fn parse_errors() {
    assert_eq!(
        PerfectPrecisionNumber::from_str("F").unwrap_err(),
        PerfectPrecisionNumberError::Invalid("Invalid digit (accepted digits in [0-9])")
    );
    assert_eq!(
        PerfectPrecisionNumber::from_str("0..5").unwrap_err(),
        PerfectPrecisionNumberError::Invalid("Multiple decimal points in the input string")
    );
    assert_eq!(
        PerfectPrecisionNumber::from_str("1 000").unwrap_err(),
        PerfectPrecisionNumberError::Invalid("Invalid digit (accepted digits in [0-9])")
    );
    assert_eq!(
        PerfectPrecisionNumber::from_str("1.2.x").unwrap_err(),
        PerfectPrecisionNumberError::Invalid("Multiple decimal points in the input string")
    );
    assert_eq!(
        PerfectPrecisionNumber::from_str("1.x.2.").unwrap_err(),
        PerfectPrecisionNumberError::Invalid("Invalid digit (accepted digits in [0-9])")
    );
}

#[test]
fn a_plus_sign_before_a_point() {
    assert!(is_rational(&parse("+1.5")));
    assert!(parse("+1.5") == parse("1.5"));
    assert!(parse("+1.5") != parse("-1.5"));
    assert_eq!(parse("+1.5").to_string(), "1.5");
    assert!(is_rational(&parse("+5.5")));
    assert!(parse("+.25") == parse("0.25"));
    assert!(is_integer_from_float(&parse("+3.0")));
    assert!(parse("+3.0") == PerfectPrecisionNumber::from(3u8));
    assert!(is_integer_from_float(&parse("+.")));
    assert!(is_integer(&parse("+")));
    assert!(parse("+") == PerfectPrecisionNumber::from(0u8));
}

#[test]
fn a_sign_stands_first_and_once() {
    for bad in ["+-1", "-+1", "++1.5", "--1.5", "1+", "1.5-", "1+.5", ".+5"] {
        assert_eq!(
            PerfectPrecisionNumber::from_str(bad).unwrap_err(),
            PerfectPrecisionNumberError::Invalid("Invalid digit (accepted digits in [0-9])"),
            "{}",
            bad
        );
    }
}

#[test]
fn parse_through_the_trait() {
    let n: PerfectPrecisionNumber = "12.50".parse().unwrap();
    assert!(n == parse("12.5"));
}

#[test]
fn parse_large_numbers() {
    let big = "1606938044258990275541962092341162602522202993782792835301376";
    assert!(is_integer(&parse(big)));
    assert!(parse(big) != parse("1606938044258990275541962092341162602522202993782792835301377"));
    assert_eq!(
        parse(big).cmp(&parse("1606938044258990275541962092341162602522202993782792835301377")),
        Ordering::Less
    );
    let long = "1.234567890123456789012345678901234567890123456789";
    assert!(is_rational(&parse(long)));
    assert!(parse(long) == parse("1.2345678901234567890123456789012345678901234567890"));
    assert!(parse("340282366920938463463374607431768211455") == PerfectPrecisionNumber::from(u128::MAX));
    assert!(parse("-170141183460469231731687303715884105728") == PerfectPrecisionNumber::from(i128::MIN));
}

fn multiple(a: &str, b: &str) -> bool {
    parse(a).is_multiple_of(&parse(b))
}

#[test]
fn is_multiple_of() {
    assert!(!multiple("1", "2"));
    assert!(multiple("2", "1"));
    assert!(!multiple("3", "2"));
    assert!(multiple("6", "2"));
    assert!(multiple("1", "0.5"));
    assert!(!multiple("1", "0.75"));
    assert!(!multiple("0.5", "1"));
    assert!(multiple("4", "2"));
    assert!(!multiple("0.5", "0.75"));
    assert!(multiple("1.5", "0.75"));
    assert!(multiple("19.99", "0.01"));
    assert!(!multiple("19.999", "0.01"));
    assert!(multiple("-6", "2"));
    assert!(multiple("6", "-2"));
    assert!(multiple("0", "5"));
    assert!(multiple("0", "0"));
    assert!(!multiple("5", "0"));
    assert!(multiple("3.0", "1.5"));
}

#[test]
fn every_number_is_a_multiple_of_itself() {
    for text in ["1", "-7", "12345678901234567890123", "0.3", "-2.50"] {
        assert!(multiple(text, text));
    }
}

fn order(a: &str, b: &str) -> Ordering {
    parse(a).cmp(&parse(b))
}

#[test]
fn ordering() {
    assert_eq!(order("1", "2"), Ordering::Less);
    assert_eq!(order("3", "3"), Ordering::Equal);
    assert_eq!(order("5", "4"), Ordering::Greater);
    assert_eq!(order("0.6", "0.7"), Ordering::Less);
    assert_eq!(order("0.8", "0.8"), Ordering::Equal);
    assert_eq!(order("0.11", "0.09"), Ordering::Greater);
    assert_eq!(order("0.9", "1"), Ordering::Less);
    assert_eq!(order("1.9", "1"), Ordering::Greater);
    assert_eq!(order("3", "3.1"), Ordering::Less);
    assert_eq!(order("4", "3.1"), Ordering::Greater);
    assert_eq!(order("-4", "3.1"), Ordering::Less);
    assert_eq!(order("-4", "-3.1"), Ordering::Less);
    assert_eq!(order("-0.5", "-0.25"), Ordering::Less);
    assert_eq!(order("10", "9"), Ordering::Greater);
    assert_eq!(order("9007199254740993", "9007199254740992"), Ordering::Greater);
    assert!(parse("4.999999999999999") < parse("5"));
    assert!(parse("5.0") >= parse("5"));
    assert_eq!(parse("1").partial_cmp(&parse("1.0")), Some(Ordering::Equal));
}

#[test]
fn clone_keeps_the_number() {
    let n = parse("-12.034");
    assert!(n.clone() == n);
    assert!(is_rational(&n.clone()));
}

fn float(x: f64) -> PerfectPrecisionNumber {
    PerfectPrecisionNumber::try_from_f64_bits(x.to_bits()).unwrap()
}

#[test]
fn floats_that_are_no_numbers() {
    for x in [f64::INFINITY, f64::NEG_INFINITY] {
        assert_eq!(
            PerfectPrecisionNumber::try_from_f64_bits(x.to_bits()).unwrap_err(),
            PerfectPrecisionNumberError::Invalid("Infinite numbers are not managed")
        );
    }
    assert_eq!(
        PerfectPrecisionNumber::try_from_f64_bits(f64::NAN.to_bits()).unwrap_err(),
        PerfectPrecisionNumberError::Invalid("NaN numbers are not managed")
    );
}

#[test]
fn floats_are_taken_exactly() {
    assert!(is_integer_from_float(&float(3.0)));
    assert!(float(3.0) == parse("3"));
    assert!(is_integer_from_float(&float(-0.0)));
    assert!(float(-0.0) == parse("0"));
    assert!(is_rational(&float(0.5)));
    assert!(float(0.5) == parse("0.5"));
    assert!(float(-0.75) == parse("-0.75"));
    assert!(float(1.5) == parse("1.50"));
    assert!(float(0.1) != parse("0.1"));
    assert!(float(0.1) == parse("0.1000000000000000055511151231257827021181583404541015625"));
    assert!(float(1e22) == parse("10000000000000000000000"));
    assert!(float(9007199254740992.0) == parse("9007199254740992"));
    assert!(float(f64::MAX) > parse("179769313486231570000000000000000000000"));
    assert!(is_integer_from_float(&float(f64::MAX)));
    assert!(is_rational(&float(f64::MIN_POSITIVE)));
    assert!(is_rational(&float(5e-324)));
    assert!(float(5e-324) > parse("0"));
    assert!(float(5e-324) < float(f64::MIN_POSITIVE));
}

#[test]
fn floats_in_checks() {
    assert!(float(1.0).is_multiple_of(&float(0.5)));
    assert!(!float(1.0).is_multiple_of(&float(0.75)));
    assert!(!float(0.5).is_multiple_of(&float(1.0)));
    assert!(!float(0.5).is_multiple_of(&float(0.75)));
    assert!(float(1.5).is_multiple_of(&float(0.75)));
    assert_eq!(float(0.6).cmp(&float(0.7)), Ordering::Less);
    assert_eq!(float(0.8).cmp(&float(0.8)), Ordering::Equal);
    assert_eq!(float(0.11).cmp(&float(0.09)), Ordering::Greater);
    assert_eq!(float(0.9).cmp(&parse("1")), Ordering::Less);
    assert_eq!(float(1.9).cmp(&parse("1")), Ordering::Greater);
    assert_eq!(parse("3").cmp(&float(3.1)), Ordering::Less);
    assert_eq!(parse("4").cmp(&float(3.1)), Ordering::Greater);
}

#[test]
fn numbers_as_text() {
    for (text, shown) in [
        ("1", "1"),
        ("-2", "-2"),
        ("3.", "3"),
        ("5.000", "5"),
        ("0.7", "0.7"),
        ("-0.8", "-0.8"),
        (".9", "0.9"),
        ("-.11", "-0.11"),
        ("0.05", "0.05"),
        ("-12.0340", "-12.034"),
        ("", "0"),
        ("000", "0"),
        ("1606938044258990275541962092341162602522202993782792835301376", "1606938044258990275541962092341162602522202993782792835301376"),
    ] {
        assert_eq!(parse(text).to_string(), shown);
    }
    assert_eq!(float(0.125).to_string(), "0.125");
    assert_eq!(
        PerfectPrecisionNumberError::Invalid("NaN numbers are not managed").to_string(),
        "Invalid value: NaN numbers are not managed"
    );
}
