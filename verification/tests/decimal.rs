use swap_ledger::{Fault, PositiveDecimal, SignedDecimal, UnsignedDecimal};

#[test]
fn unsigned_decimal_test_basic_addition() {
    let x = UnsignedDecimal::parse_text("2.2").unwrap();
    let y = UnsignedDecimal::parse_text("3.5").unwrap();
    let z = x.add(y);
    assert_eq!(z.format_text(), "5.7");
    let z2 = UnsignedDecimal::parse_text(&z.format_text()).unwrap();
    assert_eq!(z, z2);
}

#[test]
fn test_basic_subtraction() {
    let x = UnsignedDecimal::parse_text("2.2").unwrap();
    let y = UnsignedDecimal::parse_text("3.5").unwrap();
    let z = y.checked_sub(x).unwrap();
    x.checked_sub(y).unwrap_err();
    assert_eq!(z.format_text(), "1.3");
    let z2 = UnsignedDecimal::parse_text(&z.format_text()).unwrap();
    assert_eq!(z, z2);
}

#[test]
fn test_parse_fraction() {
    assert_eq!(UnsignedDecimal::parse_fraction("0").unwrap(), 0);
    assert_eq!(UnsignedDecimal::parse_fraction("123456").unwrap(), 123456);
    UnsignedDecimal::parse_fraction("1234567").unwrap_err();
    UnsignedDecimal::parse_fraction("12345678").unwrap_err();
    assert_eq!(UnsignedDecimal::parse_fraction("12345").unwrap(), 123450);
    UnsignedDecimal::parse_fraction("").unwrap_err();
}

#[test]
fn test_basic_parse() {
    UnsignedDecimal::parse_text("5.6").unwrap();
    UnsignedDecimal::parse_text("5.0").unwrap();
    UnsignedDecimal::parse_text("5.").unwrap_err();
    UnsignedDecimal::parse_text("5").unwrap();
}

#[test]
fn test_whole_numbers() {
    let x = UnsignedDecimal::parse_text("5").unwrap();
    assert_eq!(x.format_text(), "5");

    let x = UnsignedDecimal::parse_text("0").unwrap();
    assert_eq!(x.format_text(), "0");
}

#[test]
fn test_format_round_trip() {
    for s in ["5", "5.2", "7.1", "0"] {
        let x = UnsignedDecimal::parse_text(s).unwrap();
        assert_eq!(x.format_text(), s);
    }
}

#[test]
fn test_multiplication() {
    let p = |s| UnsignedDecimal::parse_text(s).unwrap();
    assert_eq!(p("2.5"), p("5").mul(p("0.5")));
}

#[test]
fn test_division() {
    let p = |s| UnsignedDecimal::parse_text(s).unwrap();
    assert_eq!(p("2.5"), p("5").div(p("2")));
}

#[test]
fn positive_decimal_test_basic_addition() {
    let x = PositiveDecimal::parse_text("2.2").unwrap();
    let y = PositiveDecimal::parse_text("3.5").unwrap();
    let z = x.add(y);
    assert_eq!(z.format_text(), "5.7");
    let z2 = PositiveDecimal::parse_text(&z.format_text()).unwrap();
    assert_eq!(z, z2);
}

#[test]
fn test_parse() {
    PositiveDecimal::parse_text("5.2").unwrap();
    PositiveDecimal::parse_text("-5.2").unwrap_err();
    PositiveDecimal::parse_text("-0").unwrap_err();
    PositiveDecimal::parse_text("0").unwrap_err();
    PositiveDecimal::parse_text("0.0").unwrap_err();
}

#[test]
fn signed_decimal_test_basic_addition() {
    let x = SignedDecimal::parse_text("-2.2").unwrap();
    let y = SignedDecimal::parse_text("3.5").unwrap();
    let z = x.add(y);
    assert_eq!(z.format_text(), "1.3");
    let z2 = SignedDecimal::parse_text(&z.format_text()).unwrap();
    assert_eq!(z, z2);
}

#[test]
fn signed_negate_and_subtract() {
    let x = SignedDecimal::parse_text("3.5").unwrap();
    let y = SignedDecimal::parse_text("5").unwrap();
    let z = x.sub(y);
    assert_eq!(z.format_text(), "-1.5");
    assert_eq!(z.negate().format_text(), "1.5");
    // negating zero stays zero, with no minus sign
    let zero = SignedDecimal::parse_text("0").unwrap();
    assert_eq!(zero.negate().format_text(), "0");
}

#[test]
fn signed_negative_zero_rejected() {
    assert_eq!(SignedDecimal::parse_text("-0").unwrap_err(), Fault::InvalidRefinement);
    assert_eq!(SignedDecimal::parse_text("-0.0").unwrap_err(), Fault::InvalidRefinement);
}

#[test]
fn positive_rejects_zero() {
    assert_eq!(
        PositiveDecimal::new(UnsignedDecimal::zero()).unwrap_err(),
        Fault::InvalidRefinement
    );
    assert_eq!(PositiveDecimal::parse_text("0").unwrap_err(), Fault::InvalidRefinement);
    assert_eq!(PositiveDecimal::parse_text("0.0").unwrap_err(), Fault::InvalidRefinement);
}

#[test]
fn underflow_is_reported_not_wrapped() {
    let two = UnsignedDecimal::parse_text("2").unwrap();
    let three = UnsignedDecimal::parse_text("3").unwrap();
    assert_eq!(two.checked_sub(three).unwrap_err(), Fault::Underflow);
    // and in place, the value is left alone
    let mut x = two;
    assert_eq!(x.checked_sub_assign(three).unwrap_err(), Fault::Underflow);
    assert_eq!(x, two);
}

#[test]
fn positive_sub_rejects_non_positive_results() {
    let a = PositiveDecimal::parse_text("2.5").unwrap();
    let b = PositiveDecimal::parse_text("2.5").unwrap();
    assert_eq!(a.checked_sub(b).unwrap_err(), Fault::NonPositiveResult);
    let c = PositiveDecimal::parse_text("3").unwrap();
    assert_eq!(a.checked_sub(c).unwrap_err(), Fault::NonPositiveResult);
}

#[test]
fn division_by_zero_is_reported() {
    let a = UnsignedDecimal::parse_text("5").unwrap();
    assert_eq!(a.checked_div(UnsignedDecimal::zero()).unwrap_err(), Fault::DivisionByZero);
    assert_eq!(
        a.checked_div(UnsignedDecimal::parse_text("2").unwrap()).unwrap(),
        UnsignedDecimal::parse_text("2.5").unwrap()
    );
}

#[test]
fn parse_rejects_malformed_text() {
    for s in ["", ".", ".5", "5.", "a", "1a", "1.2a", "1..2", "+5", "1 2"] {
        assert_eq!(UnsignedDecimal::parse_text(s).unwrap_err(), Fault::ParseError);
    }
}

#[test]
fn parse_full_precision_and_limits() {
    // six fractional digits are exact; trailing zeros are trimmed
    let x = UnsignedDecimal::parse_text("1.123456").unwrap();
    assert_eq!(x.format_text(), "1.123456");
    let y = UnsignedDecimal::parse_text("1.100000").unwrap();
    assert_eq!(y.format_text(), "1.1");
    assert_eq!(y, UnsignedDecimal::parse_text("1.1").unwrap());
    // the largest representable value round-trips; one step past it fails
    let top = UnsignedDecimal::parse_text("18446744073709.551615").unwrap();
    assert_eq!(top.get_raw_value(), u64::MAX);
    assert_eq!(top.format_text(), "18446744073709.551615");
    assert_eq!(
        UnsignedDecimal::parse_text("18446744073709.551616").unwrap_err(),
        Fault::ParseError
    );
}

#[test]
fn zero_round_trip() {
    let z = UnsignedDecimal::from_raw_value(0);
    assert_eq!(z.format_text(), "0");
    assert_eq!(UnsignedDecimal::parse_text("0").unwrap(), z);
    assert!(z.is_zero());
}
