use large::{ArithmeticError, Rational, Sign, Uint};

fn parts<const S: usize>(r: Rational<S>) -> (Sign, u128, u128) {
    (r.sign, r.num.to_u128().unwrap(), r.den.to_u128().unwrap())
}

fn ratio(sign: Sign, num: u32, den: u32) -> Rational<4> {
    Rational::new(sign, Uint::from_u32(num), Uint::from_u32(den))
}

#[test]
fn product_is_reduced() {
    let a = ratio(Sign::Pos, 2, 3);
    let b = ratio(Sign::Pos, 9, 4);
    assert_eq!(parts(a * b), (Sign::Pos, 3, 2));
    assert_eq!(parts(b * a), (Sign::Pos, 3, 2));
}

#[test]
fn product_takes_the_product_of_the_signs() {
    let a = ratio(Sign::Neg, 2, 3);
    let b = ratio(Sign::Pos, 9, 4);
    let c = ratio(Sign::Neg, 9, 4);
    assert_eq!(parts(a * b), (Sign::Neg, 3, 2));
    assert_eq!(parts(b * a), (Sign::Neg, 3, 2));
    assert_eq!(parts(a * c), (Sign::Pos, 3, 2));
    assert_eq!(parts(b * b), (Sign::Pos, 81, 16));
}

#[test]
fn product_with_zero() {
    let a = ratio(Sign::Neg, 2, 3);
    let zero = Rational::<4>::zero();
    assert_eq!(parts(a * zero), (Sign::Neg, 0, 1));
    assert_eq!(parts(zero * zero), (Sign::Pos, 0, 1));
    assert_eq!(parts(a * Rational::one()), (Sign::Neg, 2, 3));
}

#[test]
fn product_uses_twice_the_width() {
    // numerators whose product needs both digits of the doubled width
    let a = Rational::<1>::new(Sign::Pos, Uint::new([0xffff_0000]), Uint::new([0xffff_0000]));
    let b = Rational::<1>::new(Sign::Pos, Uint::new([0x0001_0000]), Uint::new([0x0001_0000]));
    // both products are 0xffff_0000_0000: one digit is dropped from each, then 0xffff/0xffff is reduced
    assert_eq!(parts(a * b), (Sign::Pos, 1, 1));
}

#[test]
fn product_is_narrowed_before_it_is_reduced() {
    let a = Rational::<1>::new(Sign::Pos, Uint::new([0x0001_0000]), Uint::new([1]));
    // 2^32 / 1 does not fit one digit: both lose a digit, and 1/0 is what is left
    assert_eq!(parts(a * a), (Sign::Pos, 1, 0));
}

#[test]
fn quotient_is_the_product_with_the_reciprocal() {
    let a = ratio(Sign::Pos, 2, 3);
    let b = ratio(Sign::Neg, 4, 9);
    assert_eq!(parts(a / b), (Sign::Neg, 3, 2));
    assert_eq!(parts(b / a), (Sign::Neg, 2, 3));
    assert_eq!(parts(a / a), (Sign::Pos, 1, 1));
}

#[test]
fn quotient_by_zero_is_reported() {
    let a = ratio(Sign::Pos, 2, 3);
    let zero = Rational::<4>::zero();
    assert_eq!(a.checked_div(zero).map(parts), Err(ArithmeticError::DivideByZero));
    assert_eq!(zero.checked_div(zero).map(parts), Err(ArithmeticError::DivideByZero));
    assert_eq!(zero.checked_div(a).map(parts), Ok((Sign::Pos, 0, 1)));
}

#[test]
fn reciprocal_exchanges_numerator_and_denominator() {
    let a = ratio(Sign::Neg, 4, 6);
    assert_eq!(parts(a.recip()), (Sign::Neg, 6, 4));
    assert_eq!(a.checked_recip().map(parts), Ok((Sign::Neg, 6, 4)));
    assert_eq!(Rational::<4>::zero().checked_recip().map(parts), Err(ArithmeticError::DivideByZero));
    let negative_zero = ratio(Sign::Neg, 0, 5);
    assert_eq!(negative_zero.checked_recip().map(parts), Err(ArithmeticError::DivideByZero));
}

#[test]
fn div_then_mul_returns_the_start() {
    let a = ratio(Sign::Neg, 7, 12);
    let b = ratio(Sign::Neg, 5, 18);
    let back = (a / b) * b;
    assert!(back == a);
    assert_eq!(parts(back), (Sign::Neg, 7, 12));
    let zero = ratio(Sign::Neg, 0, 3);
    assert!((zero / b) * b == zero);
}
