use large::{ArithmeticError, Uint};
use num_bigint::BigUint;
use num_integer::Integer;
use rand::Rng;

fn big<const S: usize>(v: Uint<S>) -> BigUint {
    BigUint::new(v.digits_be().iter().copied().rev().collect())
}

fn agree<const S: usize>(mine: Uint<S>, theirs: &BigUint) -> bool {
    let mut other = theirs.to_u32_digits();
    other.reverse();
    if other.is_empty() {
        other.push(0);
    }
    mine.digits_be() == other
}

fn check_division<const S: usize>(a: Uint<S>, b: Uint<S>) {
    let (my_q, my_r) = a.div_rem(b);
    let (c_q, c_r) = big(a).div_rem(&big(b));

    assert!(agree(my_q, &c_q), "quotient differs");
    assert!(agree(my_r, &c_r), "remainder differs");
    assert_eq!(a / b, my_q);
    assert_eq!(a % b, my_r);
    assert_eq!(a.checked_div_rem(b), Ok((my_q, my_r)));
}

fn check_division_u128(a: u128, b: u128) {
    check_division::<4>(Uint::from_u128(a), Uint::from_u128(b));
}

fn fuzz_division<const A: usize, const B: usize>() {
    let mut a = [0u32; A];
    let mut b = [0u32; B];
    rand::thread_rng().fill(&mut a[..]);
    rand::thread_rng().fill(&mut b[..]);

    // construct bigints
    let my_a = Uint::new(a);
    let my_b = Uint::new(b).resized::<A>();

    check_division(my_a, my_b);
}

#[test]
fn div_trivial() {
    check_division_u128(84, 2);
    check_division_u128(120, 4);
    check_division_u128(u128::MAX, u128::MAX);
    check_division_u128(u128::MAX, 1);
    check_division_u128(u128::MAX, 2);
    check_division_u128(u32::MAX as u128 + 1, 2);
    check_division_u128(6_000_000_001, 6_000_000_000);
    check_division(
        Uint::new([
            0, 0x9f678ffd, 0xb20a2013, 0xc045f6f0, 0xaf815561, 0x8475d5d1, 0x3781413e, 0xebaae81b,
            0x648a6037, 0x62743c0a, 0x8e1f4e2c, 0x7bce12e2, 0x0c5c33ea, 0xfb7a7f93, 0x0172ccba,
            0xcac9819c, 0x6b925af6,
        ]),
        Uint::new([
            0, 0, 0, 0, 0, 0, 0, 0, 0x6b0094a1, 0x4e6f3e6e, 0xeb8d33ce, 0x70e3497b, 0x5121a8ff,
            0x38f0e793, 0xe454f891, 0xc4aac428, 0x014c3e47,
        ]),
    );
}

#[test]
fn div_against_num_bigint() {
    for _ in 0..5000 {
        fuzz_division::<1, 1>();
        fuzz_division::<10, 10>();
        fuzz_division::<10, 7>();
        fuzz_division::<16, 16>();
        fuzz_division::<16, 11>();
    }
}

#[test]
fn division_scenarios() {
    let (q, r) = Uint::<4>::from_u32(84).div_rem(Uint::from_u32(2));
    assert_eq!(q, Uint::from_u32(42));
    assert_eq!(r, Uint::zero());

    let (q, r) = Uint::<4>::from_u128(u128::MAX).div_rem(Uint::from_u32(1));
    assert_eq!(q, Uint::from_u128(u128::MAX));
    assert_eq!(r, Uint::zero());
}

#[test]
fn division_by_zero_is_reported() {
    let a = Uint::<4>::from_u32(84);
    assert_eq!(a.checked_div_rem(Uint::zero()), Err(ArithmeticError::DivideByZero));
    assert_eq!(a.checked_div(Uint::zero()), Err(ArithmeticError::DivideByZero));
    assert_eq!(a.checked_rem(Uint::zero()), Err(ArithmeticError::DivideByZero));
    assert_eq!(Uint::<4>::zero().checked_div_rem(Uint::zero()), Err(ArithmeticError::DivideByZero));
    assert_eq!(a.checked_div(Uint::from_u32(2)), Ok(Uint::from_u32(42)));
    assert_eq!(a.checked_rem(Uint::from_u32(5)), Ok(Uint::from_u32(4)));
}

#[test]
fn division_fast_paths() {
    let a = Uint::<3>::new([7, 8, 9]);
    let b = Uint::<3>::new([7, 8, 10]);
    // dividend below divisor
    assert_eq!(a.div_rem(b), (Uint::zero(), a));
    // dividend equal to divisor
    assert_eq!(a.div_rem(a), (Uint::one(), Uint::zero()));
    // divisor one
    assert_eq!(a.div_rem(Uint::one()), (a, Uint::zero()));
    // dividend zero
    assert_eq!(Uint::<3>::zero().div_rem(a), (Uint::zero(), Uint::zero()));
}

#[test]
fn division_by_one_and_by_itself() {
    let values = [
        Uint::<3>::new([0, 0, 1]),
        Uint::<3>::new([0, 5, 0]),
        Uint::<3>::new([u32::MAX, u32::MAX, u32::MAX]),
    ];
    for a in values {
        assert_eq!(a / Uint::one(), a);
        assert_eq!(a % Uint::one(), Uint::zero());
        assert_eq!(a / a, Uint::one());
        assert_eq!(a % a, Uint::zero());
    }
}

#[test]
fn division_recomposes() {
    let a = Uint::<4>::new([0x1234_5678, 0x9abc_def0, 0x0fed_cba9, 0x8765_4321]);
    let b = Uint::<4>::new([0, 0, 0x0000_0003, 0x8000_0001]);
    let (q, r) = a.div_rem(b);
    assert!(r < b);
    assert_eq!(q * b + r, a);
}

#[test]
fn division_needs_two_corrections_at_most() {
    // divisors with a small leading digit, which are scaled before the digits are estimated
    let a = Uint::<3>::new([u32::MAX, u32::MAX, u32::MAX]);
    let b = Uint::<3>::new([0, 1, u32::MAX]);
    check_division(a, b);
    let c = Uint::<3>::new([0x7fff_ffff, u32::MAX, u32::MAX]);
    let d = Uint::<3>::new([0, 0x8000_0000, 1]);
    check_division(c, d);
    let e = Uint::<3>::new([0x8000_0000, 0, 0]);
    let f = Uint::<3>::new([0, 0x8000_0000, u32::MAX]);
    check_division(e, f);
    // a divisor that fills the whole width
    let g = Uint::<3>::new([u32::MAX, 0, 1]);
    let h = Uint::<3>::new([1, u32::MAX, u32::MAX]);
    check_division(g, h);
}
