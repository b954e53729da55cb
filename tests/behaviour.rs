use arbitrary_precision::bigdecimal::{BigDecimal, ConstructionError, Kind};
use arbitrary_precision::radix::ParseError;

fn dec(s: &str) -> BigDecimal {
    BigDecimal::from_str(s).unwrap()
}

#[test]
fn formats_with_seventeen_digits_at_default_precision() {
    assert_eq!(dec("3").to_string(), "3.0000000000000000");
    assert_eq!(dec("-2.5").to_string(), "-2.5000000000000000");
    assert_eq!(dec("1.1").to_string(), "1.1000000000000001");
    assert_eq!(dec("123.456").to_string(), "123.45600000000000");
}

#[test]
fn formats_point_outside_the_digits() {
    assert_eq!(dec("0.1").to_string(), ".10000000000000001");
    assert_eq!(dec("0.001").to_string(), ".0010000000000000000");
    assert_eq!(dec("1e20").to_string(), "100000000000000000000.");
}

#[test]
fn formats_special_values() {
    assert_eq!(BigDecimal::zero().to_string(), "0");
    assert_eq!(dec("1").div(&BigDecimal::zero()).to_string(), "NaN");
}

#[test]
fn round_trips_through_text() {
    for s in ["1.1", "0.1", "123.456", "-2.5", "6.6", "1e-30", "98765.4321"] {
        let x = dec(s);
        assert_eq!(dec(&x.to_string()), x, "{}", s);
    }
}

#[test]
fn parse_errors_name_their_cause() {
    assert_eq!(BigDecimal::from_str("").unwrap_err(), ParseError::NoDigits);
    assert_eq!(BigDecimal::from_str("-.").unwrap_err(), ParseError::NoDigits);
    assert_eq!(BigDecimal::from_str("1.2.3").unwrap_err(), ParseError::TrailingCharacters);
    assert_eq!(BigDecimal::from_str("12x").unwrap_err(), ParseError::TrailingCharacters);
    assert_eq!(BigDecimal::from_str("1e").unwrap_err(), ParseError::InvalidExponent);
    assert_eq!(BigDecimal::from_str("1e+").unwrap_err(), ParseError::InvalidExponent);
    assert_eq!(BigDecimal::from_str("1e5x").unwrap_err(), ParseError::InvalidExponent);
    assert_eq!(
        BigDecimal::from_str("1e99999999999999999999").unwrap_err(),
        ParseError::ExponentOutOfRange
    );
    assert_eq!(BigDecimal::from_str_radix("1", 1).unwrap_err(), ParseError::InvalidRadix);
    assert_eq!(BigDecimal::from_str_radix("1", 63).unwrap_err(), ParseError::InvalidRadix);
    assert_eq!(BigDecimal::from_str_radix("12", 2).unwrap_err(), ParseError::TrailingCharacters);
}

#[test]
fn parses_other_radices() {
    assert_eq!(BigDecimal::from_str_radix("ff", 16).unwrap(), BigDecimal::from_u64(255));
    assert_eq!(BigDecimal::from_str_radix("FF", 16).unwrap(), BigDecimal::from_u64(255));
    assert_eq!(BigDecimal::from_str_radix("z", 36).unwrap(), BigDecimal::from_u64(35));
    assert_eq!(BigDecimal::from_str_radix("Z", 62).unwrap(), BigDecimal::from_u64(35));
    assert_eq!(BigDecimal::from_str_radix("z", 62).unwrap(), BigDecimal::from_u64(61));
    assert_eq!(BigDecimal::from_str_radix("101", 2).unwrap(), BigDecimal::from_u64(5));
    assert_eq!(BigDecimal::from_str_radix("1@2", 16).unwrap(), BigDecimal::from_u64(256));
    assert_eq!(BigDecimal::from_str_radix("0.8", 16).unwrap(), dec("0.5"));
    assert_eq!(BigDecimal::from_str_radix("10", 0).unwrap(), BigDecimal::from_u64(10));
    assert_eq!(dec("+1.5e1"), BigDecimal::from_u64(15));
    assert_eq!(dec("25e-1"), dec("2.5"));
}

#[test]
fn rounds_ties_to_even() {
    // 2^53 + 1 and 2^53 + 3 lie halfway between neighbours at 53 bits.
    assert_eq!(BigDecimal::from_u64(9007199254740993), BigDecimal::from_u64(9007199254740992));
    assert_eq!(BigDecimal::from_u64(9007199254740995), BigDecimal::from_u64(9007199254740996));
    assert_ne!(BigDecimal::from_u64(9007199254740993), BigDecimal::from_u64(9007199254740994));
}

#[test]
fn integers_convert_exactly() {
    assert_eq!(BigDecimal::from_i64(i64::MIN), dec("-9223372036854775808"));
    assert_eq!(BigDecimal::from_i64(-42), dec("-42"));
    assert_eq!(BigDecimal::from_u64(0), BigDecimal::zero());
}

#[test]
fn arithmetic_gives_exact_values() {
    assert_eq!(dec("7").div(&dec("2")), dec("3.5"));
    assert_eq!(dec("0.5").mul(&dec("0.5")), dec("0.25"));
    assert_eq!(dec("-7").rem(&dec("2")), dec("-1"));
    assert_eq!(dec("7").rem(&dec("-2")), dec("1"));
    assert_eq!(dec("5.5").rem(&dec("2")), dec("1.5"));
    assert_eq!(dec("1").sub(&dec("3")), dec("-2"));
    assert_eq!(dec("-1.5").add(&dec("-1.5")), dec("-3"));
}

#[test]
fn nan_is_unordered() {
    let nan = dec("1").div(&BigDecimal::zero());
    let one = BigDecimal::one();
    assert!(nan.is_nan());
    assert!(nan != nan);
    assert!(!(nan < one));
    assert!(!(one < nan));
    assert!(!nan.less_than(&nan));
    assert!(!nan.equals(&one));
    assert!(nan.partial_cmp(&one).is_none());
    assert!(nan.add(&one).is_nan());
    assert!(one.rem(&BigDecimal::zero()).is_nan());
    assert!(nan.neg().is_nan());
}

#[test]
fn zeros_of_both_signs_are_equal() {
    assert_eq!(dec("0"), dec("-0"));
    assert!(dec("-0").is_zero());
    assert!(!dec("1.9").is_zero());
    assert!(dec("0").mul(&dec("-5")).is_zero());
    assert!(!(dec("-0") < dec("0")));
}

#[test]
fn ordering_follows_the_number_line() {
    assert!(dec("-2") < dec("-1"));
    assert!(dec("-1") < dec("0.5"));
    assert!(dec("0.25") < dec("0.5"));
    assert!(!(dec("3") < dec("2")));
    assert!(dec("1e-10") < dec("1e10"));
}

#[test]
fn precision_is_the_larger_one() {
    let wide = BigDecimal::new(200).unwrap();
    let x = dec("1.1");
    assert_eq!(wide.get_precision(), 200);
    assert_eq!(x.get_precision(), 53);
    assert_eq!(wide.add(&x).get_precision(), 200);
    assert_eq!(x.sub(&wide).get_precision(), 200);
    assert_eq!(x.mul(&wide).get_precision(), 200);
    assert_eq!(x.div(&x).get_precision(), 53);
    assert_eq!(x.rem(&wide).get_precision(), 200);
    assert_eq!(x.neg().get_precision(), 53);
    assert_eq!(BigDecimal::with_default_precision().get_precision(), 53);
    assert_eq!(BigDecimal::default().get_precision(), 53);
}

#[test]
fn zero_precision_is_refused() {
    assert_eq!(BigDecimal::new(0).unwrap_err(), ConstructionError::ZeroPrecision);
    assert!(BigDecimal::new(1).unwrap().is_zero());
}

#[test]
fn wider_precision_keeps_more_bits() {
    // one third at 200 bits differs from one third at 53 bits
    let third_wide = BigDecimal::new(200).unwrap().add(&dec("1")).div(&dec("3"));
    let third = dec("1").div(&dec("3"));
    assert_ne!(third_wide, third);
    assert_eq!(third_wide.mul(&dec("3")), BigDecimal::new(200).unwrap().add(&dec("1")));
    // 1 + ceil(200 * log10(2)) = 62 digits after the point
    assert_eq!(third_wide.to_string().len(), 63);
    assert!(third_wide.to_string().starts_with(".3333333333"));
}

#[test]
fn identities_hold_on_samples() {
    for s in ["1.1", "-0.3", "12345.678", "0"] {
        let x = dec(s);
        assert_eq!(x.add(&BigDecimal::zero()), x);
        assert_eq!(x.mul(&BigDecimal::one()), x);
        assert!(x.sub(&x).is_zero());
        assert_eq!(x.neg().neg(), x);
    }
}

#[test]
fn kinds_are_reported() {
    assert_eq!(dec("0").kind(), Kind::Zero);
    assert_eq!(dec("2").kind(), Kind::Finite);
    assert_eq!(dec("2").div(&dec("0")).kind(), Kind::Nan);
}
