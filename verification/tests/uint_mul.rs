use large::{ArithmeticError, Uint};
use num_bigint::BigUint;
use rand::Rng;

fn to_big<const S: usize>(v: Uint<S>) -> BigUint {
    BigUint::new(v.digits_be().iter().copied().rev().collect())
}

fn same<const S: usize>(mine: Uint<S>, theirs: &BigUint) -> bool {
    let mut other = theirs.to_u32_digits();
    other.reverse();
    if other.is_empty() {
        other.push(0);
    }
    mine.digits_be() == other
}

fn check_correct<const S: usize>(a: Uint<S>, b: Uint<S>) {
    let my_res = a * b;
    let c_res = to_big(a) * to_big(b);
    assert!(same(my_res, &c_res), "{:?} * {:?}", a, b);
}

fn check_correct_u128(a: u128, b: u128) {
    check_correct::<4>(Uint::from_u128(a), Uint::from_u128(b));
}

fn fuzz<const A: usize, const TWICE: usize>() {
    // random input
    let mut a = [0u32; A];
    let mut b = [0u32; A];
    rand::thread_rng().fill(&mut a[..]);
    rand::thread_rng().fill(&mut b[..]);

    // construct bigints
    let my_a = Uint::new(a).resized();
    let my_b = Uint::new(b).resized();

    check_correct::<TWICE>(my_a, my_b);
}

#[test]
fn identity() {
    let a: Uint<5> = Uint { digits: [0, 21213, 0, 18321, 12412] };
    assert_eq!(a * 1u32, a);
}

#[test]
fn mul_trivial() {
    check_correct_u128(1234, 2);
    check_correct_u128(2, 1234);
    check_correct_u128(u64::MAX as u128, 4);
    check_correct_u128(4, u64::MAX as u128);
}

#[test]
fn mul_against_num_bigint() {
    for _ in 0..5_000 {
        fuzz::<1, 2>();
        fuzz::<3, 6>();
        fuzz::<6, 12>();
        fuzz::<10, 20>();
        fuzz::<13, 26>();
        fuzz::<16, 32>();
    }
}

#[test]
fn mul_digit_exact_values() {
    let a = Uint::<2>::new([0, u32::MAX]);
    assert_eq!(a * u32::MAX, Uint::new([0xffff_fffe, 1]));
    assert_eq!(a.checked_mul_digit(u32::MAX), Ok(Uint::new([0xffff_fffe, 1])));
    assert_eq!(a * 0u32, Uint::zero());
    let b = Uint::<2>::new([1, 0]);
    assert_eq!(b * u32::MAX, Uint::new([u32::MAX, 0]));
}

#[test]
fn mul_digit_overflow_is_reported() {
    let a = Uint::<2>::new([2, 0]);
    assert_eq!(a.checked_mul_digit(0x8000_0000), Err(ArithmeticError::CapacityOverflow));
    assert_eq!(a.checked_mul_digit(0x7fff_ffff), Ok(Uint::new([0xffff_fffe, 0])));
}

#[test]
fn mul_exact_values() {
    let a = Uint::<4>::from_u64(u64::MAX);
    let expected = Uint::<4>::from_u128((u64::MAX as u128) * (u64::MAX as u128));
    assert_eq!(a * a, expected);
    assert_eq!(a.checked_mul(a), Ok(expected));
    assert_eq!(a * Uint::zero(), Uint::zero());
    assert_eq!(a * Uint::one(), a);
}

#[test]
fn mul_overflow_is_reported() {
    // a product whose lost part lies wholly in the digits that a shift drops
    let high = Uint::<2>::new([1, 0]);
    assert_eq!(high.checked_mul(high), Err(ArithmeticError::CapacityOverflow));
    // a product that overflows in the final addition
    let a = Uint::<2>::new([0, u32::MAX]);
    let b = Uint::<2>::new([1, 2]);
    assert_eq!(a.checked_mul(b), Err(ArithmeticError::CapacityOverflow));
    assert_eq!(a.checked_mul(Uint::new([1, 1])), Ok(Uint::new([u32::MAX, u32::MAX])));
    // a product that overflows in the row of a single digit
    let d = Uint::<2>::new([u32::MAX, 0]);
    assert_eq!(d.checked_mul(Uint::new([0, 2])), Err(ArithmeticError::CapacityOverflow));
    // the largest product that fits
    let c = Uint::<2>::new([0, u32::MAX]);
    assert_eq!(c.checked_mul(c), Ok(Uint::new([0xffff_fffe, 1])));
}
