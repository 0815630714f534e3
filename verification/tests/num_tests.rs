use rz3::num::{Integer, Rational};

fn big(v: i64) -> Integer {
    Integer::from_i64(v)
}

#[test]
fn integer_arithmetic_is_exact() {
    assert_eq!(big(7).add(&big(-10)), big(-3));
    assert_eq!(big(7).sub(&big(-10)), big(17));
    assert_eq!(big(-6).mul(&big(7)), big(-42));
    let huge = Integer::power(2, 70);
    assert_eq!(huge.mul(&big(2)), Integer::power(2, 71));
    assert_eq!(Integer::power(10, 3), big(1000));
    assert_eq!(big(3).compare(&big(5)), -1);
    assert_eq!(big(5).compare(&big(5)), 0);
    assert_eq!(big(-1).compare(&big(-5)), 1);
}

#[test]
fn division_truncates_toward_zero() {
    assert_eq!(big(-7).quot(&big(2)), big(-3));
    assert_eq!(big(-7).rem(&big(2)), big(-1));
    assert_eq!(big(7).quot(&big(-2)), big(-3));
    assert_eq!(big(7).rem(&big(-2)), big(1));
}

#[test]
fn bit_lengths_and_bitwise_or() {
    assert_eq!(big(0).bits(), 0);
    assert_eq!(big(1).bits(), 1);
    assert_eq!(big(-8).bits(), 4);
    assert_eq!(Integer::power(2, 64).bits(), 65);
    assert_eq!(big(0b1010).bitor(&big(0b0110)), big(0b1110));
    assert_eq!(big(5).to_u64(), Some(5));
    assert_eq!(big(-5).to_u64(), None);
}

#[test]
fn rationals_are_reduced() {
    let q = Rational::new(&big(10), &big(-4));
    assert_eq!(q.numer, big(-5));
    assert_eq!(q.denom, big(2));
    assert_eq!(q.to_integer(), big(-2));
    assert_eq!(Rational::from_fraction(9, 4).to_integer(), big(2));
    let sum = Rational::from_fraction(1, 3).add(&Rational::from_fraction(1, 6));
    assert!(sum.eq_value(&Rational::from_fraction(1, 2)));
    assert_eq!(sum.numer, big(1));
    assert_eq!(sum.denom, big(2));
    assert!(Rational::from_fraction(1, 3).lt(&Rational::from_fraction(1, 2)));
    assert_eq!(Rational::decimal(125, 2), Rational::from_fraction(5, 4));
}
