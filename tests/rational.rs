use algorithms::rational;

#[test]
fn test_rationals() {
    let r1 = rational::Rational::new(2i64, 3i64);
    let r2 = rational::Rational::new(5i64, 6i64);
    let r1_plus_r2 = rational::Rational::new(3i64, 2i64);
    let r1_minus_r2 = rational::Rational::new(-1i64, 6i64);
    let r1_mult_r2 = rational::Rational::new(5i64, 9i64);
    let r1_div_r2 = rational::Rational::new(4i64, 5i64);
    assert_eq!(
        &r1 + &r2,
        r1_plus_r2,
        "Failed test_rationals (1): Reference addition."
    );
    assert_eq!(
        &r1 - &r2,
        r1_minus_r2,
        "Failed test_rationals (2): Reference subtraction."
    );
    assert_eq!(
        &r1 * &r2,
        r1_mult_r2,
        "Failed test_rationals (3): Reference multiplication."
    );
    assert_eq!(
        &r1 / &r2,
        r1_div_r2,
        "Failed test_rationals (4): Reference division."
    );
}

#[test]
fn rational_sign_moves_to_numerator() {
    let r = rational::Rational::new(3i64, -6i64);
    assert_eq!(r, rational::Rational::new(-1i64, 2i64));
    assert_ne!(r, rational::Rational::new(1i64, 2i64));
}

#[test]
fn rational_generic_gcd() {
    assert_eq!(rational::generic_gcd(&12i64, &18i64), 6);
    assert_eq!(rational::generic_gcd(&7i64, &5i64), 1);
}

#[test]
fn rational_order_and_negation() {
    let third = rational::Rational::new(1i64, 3i64);
    let half = rational::Rational::new(1i64, 2i64);
    assert!(third < half);
    assert!(half > third);
    assert!(third <= rational::Rational::new(2i64, 6i64));
    let minus_half = -&half;
    assert_eq!(minus_half, rational::Rational::new(-1i64, 2i64));
    assert_eq!(minus_half.numerator(), -1);
    assert_eq!(minus_half.denominator(), 2);
}

#[test]
fn rational_lowest_terms() {
    let r = rational::Rational::new(27i64, 18i64);
    assert_eq!((r.numerator(), r.denominator()), (3, 2));
    let zero = rational::Rational::new(0i64, 5i64);
    assert_eq!((zero.numerator(), zero.denominator()), (0, 5));
}

#[test]
fn rational_by_value_operators() {
    let r1 = rational::Rational::new(2i64, 3i64);
    let r2 = rational::Rational::new(5i64, 6i64);
    assert_eq!(r1 + r2, rational::Rational::new(3i64, 2i64));
    assert_eq!(r1 - r2, rational::Rational::new(-1i64, 6i64));
    assert_eq!(r1 * r2, rational::Rational::new(5i64, 9i64));
    assert_eq!(r1 / r2, rational::Rational::new(4i64, 5i64));
}

#[test]
fn rational_from_integer() {
    let r = rational::Rational::from(-7i64);
    assert_eq!((r.numerator(), r.denominator()), (-7, 1));
    assert_eq!(r, rational::Rational::new(14i64, -2i64));
    let m = rational::Rational::from(i64::MIN);
    assert_eq!((m.numerator(), m.denominator()), (i64::MIN, 1));
}
