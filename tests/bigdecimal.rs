use arbitrary_precision::bigdecimal::BigDecimal;

fn num(s: &str) -> BigDecimal {
    BigDecimal::from_str(s).unwrap()
}

#[test]
fn check_if_zero_is_equal_to_zero() {
    let zero = num("0");
    let zero_again = num("0");

    assert_eq!(zero, zero_again);
}

#[test]
fn check_if_zero_is_not_equal_to_one() {
    let zero = BigDecimal::zero();
    let one = num("1");

    assert_ne!(zero, one);
}

#[test]
fn check_if_zero_is_less_than_one() {
    let zero = BigDecimal::zero();
    let one = num("1");

    assert!(zero < one);
}

#[test]
fn check_if_zero_is_not_more_than_zero() {
    let zero = BigDecimal::zero();
    let zero_again = BigDecimal::zero();

    assert!(!(zero < zero_again));
}

#[test]
fn test_addition() {
    let one_point_one = num("1.1");
    let one_point_nine = num("1.9");
    let three = num("3");

    assert_eq!(one_point_one.add(&one_point_nine), three);
}

#[test]
fn test_zero() {
    let zero_from_str = num("0");
    let one_point_nine = num("1.9");
    let zero = BigDecimal::zero();

    assert_eq!(zero, zero_from_str);
    assert!(zero != one_point_nine);
}

#[test]
fn test_is_zero() {
    let zero_from_str = num("0");
    let zero = BigDecimal::zero();
    assert!(zero.is_zero());
    assert!(zero_from_str.is_zero());
}

#[test]
fn test_from_str() {
    let one_point_one_from_str_radix = BigDecimal::from_str_radix("1.1", 10).unwrap();
    let one_point_one_from_str = num("1.1");
    assert_eq!(one_point_one_from_str, one_point_one_from_str_radix);
}

#[test]
fn test_from_i64() {
    let one_from_str = num("1");
    let one_from_i64 = BigDecimal::from_i64(1);
    assert_eq!(one_from_i64, one_from_str);
}

#[test]
fn test_from_u64() {
    let one_from_str = num("1");
    let one_from_u64 = BigDecimal::from_u64(1);
    assert_eq!(one_from_u64, one_from_str);
}

#[test]
fn test_negation() {
    let one_from_str = num("1");
    let minus_one_from_str = num("-1");

    assert_eq!(one_from_str.neg(), minus_one_from_str);
}

#[test]
fn test_remainder() {
    let three = num("3");
    let two = num("2");
    let one = num("1");

    assert_eq!(three.rem(&two), one);
}

#[test]
fn test_subtraction() {
    let three = num("3");
    let two = num("2");
    let one = num("1");

    assert_eq!(three.sub(&two), one);
    assert_eq!(two.sub(&three), one.neg());
}

#[test]
fn test_multiplication() {
    let three_point_three = num("3.3");
    let two = num("2");
    let six_point_six = num("6.6");

    assert_eq!(three_point_three.mul(&two), six_point_six);
}

#[test]
fn test_one() {
    let three_point_three = num("3.3");
    let one = BigDecimal::one();

    assert_eq!(three_point_three.mul(&one), three_point_three);
}

#[test]
fn test_division() {
    let six_point_six = num("6.6");
    let two = num("2");
    let three_point_three = num("3.3");

    assert_eq!(six_point_six.div(&two), three_point_three);
}
