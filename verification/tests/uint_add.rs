use large::{ArithmeticError, Uint};

#[test]
fn add_sub() {
    let a: Uint<4> = Uint::from_u32(12);
    let b: Uint<4> = Uint::from_u32(24);
    assert_eq!(b - a, Uint::from_u32(12));
    assert_eq!(a + b, b + a);
    assert_eq!(a + a, b);
    assert_eq!(a + b, Uint::from_u32(36));
}

#[test]
fn underflowing_digit() {
    let a = Uint { digits: [0, 1, 0] };
    let b = Uint { digits: [0, 0, 1] };
    assert_eq!(a - b, Uint { digits: [0, 0, u32::MAX] })
}

#[test]
fn add_carries_across_digits() {
    let a = Uint::new([0, u32::MAX, u32::MAX]);
    let b = Uint::new([0, 0, 1]);
    assert_eq!(a + b, Uint::new([1, 0, 0]));
    assert_eq!(a.checked_add(b), Ok(Uint::new([1, 0, 0])));
}

#[test]
fn add_overflow_is_reported() {
    let a: Uint<2> = Uint::max_value();
    let b: Uint<2> = Uint::new([0, 1]);
    assert_eq!(a.checked_add(b), Err(ArithmeticError::CapacityOverflow));
    assert_eq!(a.checked_add(Uint::zero()), Ok(a));
}

#[test]
fn sub_below_zero_is_reported() {
    let a: Uint<2> = Uint::new([0, 1]);
    let b: Uint<2> = Uint::new([1, 0]);
    assert_eq!(a.checked_sub(b), Err(ArithmeticError::CapacityOverflow));
    assert_eq!(b.checked_sub(a), Ok(Uint::new([0, u32::MAX])));
    assert_eq!(a.checked_sub(a), Ok(Uint::zero()));
}
