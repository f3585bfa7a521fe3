use large::{Comparison, Uint};

#[test]
fn trailing_zeros() {
    assert_eq!(Uint::<1>::zero().trailing_zeros(), 32);
    assert_eq!(Uint::<17>::zero().trailing_zeros(), 17 * 32);
    assert_eq!(Uint::<17>::one().trailing_zeros(), 0);
    assert_eq!(Uint::<6>::new([0, 0, 1, 0, 0, 0]).trailing_zeros(), 3 * 32);
    assert_eq!(Uint::<6>::new([0, 0, 2, 0, 0, 0]).trailing_zeros(), 3 * 32 + 1);
}

#[test]
fn trailing_zeros_stop_at_the_lowest_set_bit() {
    assert_eq!(Uint::<3>::new([1, 0x8000_0000, 0]).trailing_zeros(), 32 + 31);
    assert_eq!(Uint::<3>::new([0, 0, 0b1100]).trailing_zeros(), 2);
}

#[test]
fn constants() {
    assert_eq!(Uint::<3>::zero(), Uint::new([0, 0, 0]));
    assert_eq!(Uint::<3>::one(), Uint::new([0, 0, 1]));
    assert_eq!(Uint::<3>::two(), Uint::new([0, 0, 2]));
    assert_eq!(Uint::<3>::max_value(), Uint::new([u32::MAX; 3]));
}

#[test]
fn significant_digits_and_leading_digit() {
    let zero = Uint::<4>::zero();
    assert_eq!(zero.significant_digits(), 1);
    assert_eq!(zero.msd_idx(), 3);
    assert_eq!(zero.msd(), 0);
    assert_eq!(zero.digits_be(), &[0u32][..]);

    let v = Uint::<4>::new([0, 7, 0, 9]);
    assert_eq!(v.significant_digits(), 3);
    assert_eq!(v.msd_idx(), 1);
    assert_eq!(v.msd(), 7);
    assert_eq!(v.digits_be(), &[7u32, 0, 9][..]);

    let full = Uint::<2>::new([1, 0]);
    assert_eq!(full.significant_digits(), 2);
    assert_eq!(full.msd_idx(), 0);
}

#[test]
fn resized_widens_with_zeros_and_narrows_by_truncation() {
    let v = Uint::<3>::new([1, 2, 3]);
    assert_eq!(v.resized::<5>(), Uint::new([0, 0, 1, 2, 3]));
    assert_eq!(v.resized::<3>(), v);
    assert_eq!(v.resized::<2>(), Uint::new([2, 3]));
    assert_eq!(v.resized::<1>(), Uint::new([3]));
}

#[test]
fn digit_shifts() {
    let mut v = Uint::<4>::new([1, 2, 3, 4]);
    v.shl_digits(1);
    assert_eq!(v, Uint::new([2, 3, 4, 0]));
    v.shr_digits(2);
    assert_eq!(v, Uint::new([0, 0, 2, 3]));
    v.shl_digits(0);
    assert_eq!(v, Uint::new([0, 0, 2, 3]));
    v.shl_digits(4);
    assert_eq!(v, Uint::zero());

    let mut w = Uint::<4>::new([1, 2, 3, 4]);
    w.shr_digits(4);
    assert_eq!(w, Uint::zero());
}

#[test]
fn push_lsd_appends_a_digit() {
    let mut v = Uint::<3>::new([0, 1, 2]);
    v.push_lsd(7);
    assert_eq!(v, Uint::new([1, 2, 7]));
    v.push_lsd(9);
    assert_eq!(v, Uint::new([2, 7, 9]));
}

#[test]
fn bit_shifts() {
    let v = Uint::<3>::new([0, 0x8000_0001, 0xf000_000f]);
    assert_eq!(v << 0, v);
    assert_eq!(v << 4, Uint::new([0x8, 0x0000_001f, 0x0000_00f0]));
    assert_eq!(v << 32, Uint::new([0x8000_0001, 0xf000_000f, 0]));
    assert_eq!(v << 36, Uint::new([0x0000_001f, 0x0000_00f0, 0]));
    assert_eq!(v << 96, Uint::zero());
    assert_eq!(v << (1u64 << 40), Uint::zero());

    assert_eq!(v >> 0, v);
    assert_eq!(v >> 4, Uint::new([0, 0x0800_0000, 0x1f00_0000]));
    assert_eq!(v >> 32, Uint::new([0, 0, 0x8000_0001]));
    assert_eq!(v >> 63, Uint::new([0, 0, 1]));
    assert_eq!(v >> 64, Uint::zero());
    assert_eq!(v >> u64::MAX, Uint::zero());
}

#[test]
fn order_is_by_value() {
    let a = Uint::<3>::new([0, 5, 0]);
    let b = Uint::<3>::new([0, 4, u32::MAX]);
    assert!(b < a);
    assert!(a > b);
    assert!(a == a);
    assert!(a != b);
    assert_eq!(a.compare(&b), Comparison::Greater);
    assert_eq!(b.compare(&a), Comparison::Less);
    assert_eq!(a.compare(&a), Comparison::Equal);
    assert!(Uint::<3>::zero().is_zero());
    assert!(!a.is_zero());
}

#[test]
fn conversions_from_machine_integers() {
    assert_eq!(Uint::<4>::from_u8(200), Uint::new([0, 0, 0, 200]));
    assert_eq!(Uint::<4>::from_u16(60000), Uint::new([0, 0, 0, 60000]));
    assert_eq!(Uint::<4>::from_u32(u32::MAX), Uint::new([0, 0, 0, u32::MAX]));
    assert_eq!(Uint::<4>::from_u64(0x1234_5678_9abc_def0), Uint::new([0, 0, 0x1234_5678, 0x9abc_def0]));
    assert_eq!(
        Uint::<5>::from_u128(0x0011_2233_4455_6677_8899_aabb_ccdd_eeff),
        Uint::new([0, 0x0011_2233, 0x4455_6677, 0x8899_aabb, 0xccdd_eeff])
    );
}

#[test]
fn to_u128_reports_what_does_not_fit() {
    assert_eq!(Uint::<6>::from_u128(u128::MAX).to_u128(), Some(u128::MAX));
    assert_eq!(Uint::<6>::zero().to_u128(), Some(0));
    assert_eq!(Uint::<2>::new([1, 2]).to_u128(), Some((1u128 << 32) + 2));
    assert_eq!(Uint::<6>::new([0, 1, 0, 0, 0, 0]).to_u128(), None);
    assert_eq!(Uint::<6>::new([1, 0, 0, 0, 0, 0]).to_u128(), None);
}
