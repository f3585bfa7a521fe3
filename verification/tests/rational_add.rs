use large::{ArithmeticError, Rational, Sign, Uint};
use num_bigint::{BigInt, BigUint};
use num_rational::BigRational;
use num_traits::Signed;

fn biguint<const S: usize>(v: Uint<S>) -> BigUint {
    BigUint::new(v.digits_be().iter().copied().rev().collect())
}

fn matches_biguint<const S: usize>(mine: Uint<S>, theirs: &BigUint) -> bool {
    let mut other = theirs.to_u32_digits();
    other.reverse();
    if other.is_empty() {
        other.push(0);
    }
    mine.digits_be() == other
}

fn big_rational<const S: usize>(v: Rational<S>) -> BigRational {
    let sign = match v.sign {
        Sign::Pos => num_bigint::Sign::Plus,
        Sign::Neg => num_bigint::Sign::Minus,
    };
    let num = BigInt::from_biguint(sign, biguint(v.num));
    let den = BigInt::from_biguint(num_bigint::Sign::Plus, biguint(v.den));
    BigRational::new(num, den)
}

fn matches_big_rational<const S: usize>(mine: Rational<S>, other: &BigRational) -> bool {
    let other_sign = match other.numer().sign() * other.denom().sign() {
        num_bigint::Sign::Minus => Sign::Neg,
        num_bigint::Sign::NoSign => panic!("a zero has no sign to compare"),
        num_bigint::Sign::Plus => Sign::Pos,
    };
    mine.sign == other_sign
        && matches_biguint(mine.num, &other.numer().abs().to_biguint().unwrap())
        && matches_biguint(mine.den, &other.denom().abs().to_biguint().unwrap())
}

enum Op {
    Add,
    Sub,
}

fn check<const S: usize>(a: Rational<S>, b: Rational<S>, op: Op) {
    let c_a = big_rational(a);
    let c_b = big_rational(b);
    let (this, c) = match op {
        Op::Add => (a + b, c_a + c_b),
        Op::Sub => (a - b, c_a - c_b),
    };
    assert!(matches_big_rational(this, &c));
}

#[test]
fn add_trivial() {
    assert_eq!(
        Rational::<4>::new(Sign::Pos, Uint::from_u32(21), Uint::one())
            + Rational::new(Sign::Pos, Uint::from_u32(42), Uint::from_u32(2)),
        Rational::<4>::new(Sign::Pos, Uint::from_u32(42), Uint::one())
    )
}

#[test]
fn against_num_rational() {
    for _ in 0..500 {
        let a = Rational::new(
            Sign::Pos,
            Uint::from_u128(rand::random()),
            Uint::from_u128(rand::random()),
        );
        let b = Rational::new(
            Sign::Pos,
            Uint::from_u128(rand::random()),
            Uint::from_u128(rand::random()),
        );
        check::<12>(a, b, Op::Add);
        check::<12>(a, b, Op::Sub);
    }
}

#[test]
fn sum_is_stored_in_lowest_terms() {
    let r = Rational::<4>::new(Sign::Pos, Uint::from_u32(21), Uint::one())
        + Rational::new(Sign::Pos, Uint::from_u32(42), Uint::from_u32(2));
    assert_eq!(r.sign, Sign::Pos);
    assert_eq!(r.num, Uint::from_u32(42));
    assert_eq!(r.den, Uint::one());
}

#[test]
fn signs_decide_between_adding_and_subtracting() {
    let three = Rational::<4>::from_i32(3);
    let five = Rational::<4>::from_i32(5);
    let minus_three = Rational::<4>::from_i32(-3);
    let minus_five = Rational::<4>::from_i32(-5);

    let exact = |r: Rational<4>| (r.sign, r.num.to_u128().unwrap(), r.den.to_u128().unwrap());

    assert_eq!(exact(three + five), (Sign::Pos, 8, 1));
    assert_eq!(exact(minus_three + minus_five), (Sign::Neg, 8, 1));
    assert_eq!(exact(three + minus_five), (Sign::Neg, 2, 1));
    assert_eq!(exact(minus_three + five), (Sign::Pos, 2, 1));
    assert_eq!(exact(five + minus_three), (Sign::Pos, 2, 1));
    assert_eq!(exact(three + minus_three), (Sign::Pos, 0, 1));

    assert_eq!(exact(three - five), (Sign::Neg, 2, 1));
    assert_eq!(exact(five - three), (Sign::Pos, 2, 1));
    assert_eq!(exact(minus_three - minus_five), (Sign::Pos, 2, 1));
    assert_eq!(exact(minus_five - minus_three), (Sign::Neg, 2, 1));
    assert_eq!(exact(three - minus_five), (Sign::Pos, 8, 1));
    assert_eq!(exact(minus_three - five), (Sign::Neg, 8, 1));
}

#[test]
fn sum_of_fractions_is_exact() {
    // 1/6 + 1/10 = 4/15
    let a = Rational::<2>::new(Sign::Pos, Uint::from_u32(1), Uint::from_u32(6));
    let b = Rational::<2>::new(Sign::Pos, Uint::from_u32(1), Uint::from_u32(10));
    let r = a + b;
    assert_eq!((r.sign, r.num, r.den), (Sign::Pos, Uint::from_u32(4), Uint::from_u32(15)));
    assert_eq!(a.checked_add(b).map(|r| (r.sign, r.num, r.den)), Ok((r.sign, r.num, r.den)));
    // 1/6 - 1/10 = 1/15
    let d = a - b;
    assert_eq!((d.sign, d.num, d.den), (Sign::Pos, Uint::from_u32(1), Uint::from_u32(15)));
    assert_eq!(a.checked_sub(b).map(|r| (r.sign, r.num, r.den)), Ok((d.sign, d.num, d.den)));
    // 1/10 - 1/6 = -1/15
    let e = b - a;
    assert_eq!((e.sign, e.num, e.den), (Sign::Neg, Uint::from_u32(1), Uint::from_u32(15)));
}

#[test]
fn add_then_sub_returns_the_start() {
    let a = Rational::<4>::new(Sign::Neg, Uint::from_u32(7), Uint::from_u32(12));
    let b = Rational::<4>::new(Sign::Pos, Uint::from_u32(5), Uint::from_u32(18));
    let back = (a + b) - b;
    assert!(back == a);
    assert_eq!((back.sign, back.num, back.den), (Sign::Neg, Uint::from_u32(7), Uint::from_u32(12)));
}

#[test]
fn sum_overflow_is_reported() {
    // numerators and denominators that fill the width: the sum of the two
    // products needs one bit more than twice the width
    let a = Rational::<1>::new(Sign::Pos, Uint::new([u32::MAX]), Uint::new([u32::MAX - 1]));
    let b = Rational::<1>::new(Sign::Pos, Uint::new([u32::MAX]), Uint::new([u32::MAX]));
    assert_eq!(a.checked_add(b).map(|r| (r.num, r.den)), Err(ArithmeticError::CapacityOverflow));
    let minus_b = Rational::<1>::new(Sign::Neg, Uint::new([u32::MAX]), Uint::new([u32::MAX]));
    assert_eq!(a.checked_sub(minus_b).map(|r| (r.num, r.den)), Err(ArithmeticError::CapacityOverflow));
    // the difference of the same two is fine
    let d = a - b;
    assert_eq!((d.sign, d.num, d.den), (Sign::Pos, Uint::new([1]), Uint::new([u32::MAX - 1])));
}

#[test]
fn narrowing_rounds_to_whole_digits() {
    // 3(B - 1)/2 does not fit one digit: numerator and denominator both lose a digit
    let a = Rational::<1>::new(Sign::Pos, Uint::new([u32::MAX]), Uint::new([1]));
    let b = Rational::<1>::new(Sign::Pos, Uint::new([u32::MAX]), Uint::new([2]));
    let r = a + b;
    assert_eq!((r.sign, r.num, r.den), (Sign::Pos, Uint::new([2]), Uint::new([0])));
}
