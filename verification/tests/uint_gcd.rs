use large::{ArithmeticError, Uint};
use num_integer::Integer;

fn check_gcd(a: u128, b: u128) {
    let actual = a.gcd(&b);
    let mine = Uint::<4>::from_u128(a).gcd_euclidean(Uint::from_u128(b));
    assert_eq!(actual, mine.to_u128().unwrap());
}

fn check_both(a: u128, b: u128) {
    let actual = a.gcd(&b);
    let x = Uint::<4>::from_u128(a);
    let y = Uint::<4>::from_u128(b);
    let euclid = x.gcd_euclidean(y);
    let binary = x.gcd_binary(y);
    assert_eq!(euclid, binary);
    assert_eq!(binary.to_u128(), Some(actual));
    if actual != 0 {
        assert_eq!(x % binary, Uint::zero());
        assert_eq!(y % binary, Uint::zero());
    }
}

#[test]
fn gcm_euclidean() {
    check_gcd(1, 1);
    check_gcd(0, 0);
    check_gcd(1, 0);
    check_gcd(1024, 512);
    check_gcd(2183213, 59521);
    check_gcd(123, 821012);
    check_gcd(55, 912921);

    for _ in 0..1_000 {
        check_gcd(rand::random(), rand::random());
        check_gcd(rand::random::<u64>() as u128, rand::random());
        check_gcd(rand::random(), rand::random::<u64>() as u128);
    }
}

#[test]
fn gcd_binary_scenario() {
    let r = Uint::<4>::from_u32(1024).gcd_binary(Uint::from_u32(512));
    assert_eq!(r, Uint::from_u32(512));
}

#[test]
fn both_methods_agree() {
    check_both(1, 1);
    check_both(0, 0);
    check_both(1, 0);
    check_both(0, 1);
    check_both(0, 96);
    check_both(1024, 512);
    check_both(2183213, 59521);
    check_both(123, 821012);
    check_both(55, 912921);
    check_both(1 << 100, 1 << 37);
    check_both(3 << 64, 9 << 33);
    check_both(u128::MAX, u128::MAX - 1);
    check_both(u128::MAX, 1 << 127);
    for _ in 0..200 {
        check_both(rand::random(), rand::random());
        check_both(rand::random::<u64>() as u128, rand::random());
    }
}

#[test]
fn lcm_exact_values() {
    let a = Uint::<4>::from_u32(21);
    let b = Uint::<4>::from_u32(6);
    assert_eq!(a.lcm(b), Uint::from_u32(42));
    assert_eq!(a.lcm(Uint::zero()), Uint::zero());
    assert_eq!(a.checked_lcm(b), Ok(Uint::from_u32(42)));
    assert_eq!(a.checked_lcm(Uint::zero()), Ok(Uint::zero()));
    assert_eq!(Uint::<4>::zero().checked_lcm(Uint::zero()), Err(ArithmeticError::DivideByZero));
    let big = Uint::<2>::new([1, 0]);
    assert_eq!(big.checked_lcm(big), Err(ArithmeticError::CapacityOverflow));
}
