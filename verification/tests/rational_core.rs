use large::{Comparison, Rational, Sign, Uint};

fn parts<const S: usize>(r: Rational<S>) -> (Sign, u128, u128) {
    (r.sign, r.num.to_u128().unwrap(), r.den.to_u128().unwrap())
}

fn ratio(sign: Sign, num: u32, den: u32) -> Rational<4> {
    Rational::new(sign, Uint::from_u32(num), Uint::from_u32(den))
}

#[test]
fn constructors() {
    let r = Rational::<3>::new(Sign::Neg, Uint::from_u32(4), Uint::from_u32(6));
    assert_eq!(r.sign, Sign::Neg);
    assert_eq!(r.num, Uint::from_u32(4));
    assert_eq!(r.den, Uint::from_u32(6));
    assert_eq!(parts(Rational::<3>::zero()), (Sign::Pos, 0, 1));
    assert_eq!(parts(Rational::<3>::one()), (Sign::Pos, 1, 1));
    assert_eq!(parts(Rational::<3>::from_u32(77)), (Sign::Pos, 77, 1));
}

#[test]
fn from_machine_integers() {
    assert_eq!(parts(Rational::<4>::from_u8(200)), (Sign::Pos, 200, 1));
    assert_eq!(parts(Rational::<4>::from_u16(60000)), (Sign::Pos, 60000, 1));
    assert_eq!(parts(Rational::<4>::from_u64(u64::MAX)), (Sign::Pos, u64::MAX as u128, 1));
    assert_eq!(parts(Rational::<4>::from_u128(u128::MAX)), (Sign::Pos, u128::MAX, 1));
    assert_eq!(parts(Rational::<4>::from_i8(-128)), (Sign::Neg, 128, 1));
    assert_eq!(parts(Rational::<4>::from_i8(127)), (Sign::Pos, 127, 1));
    assert_eq!(parts(Rational::<4>::from_i16(i16::MIN)), (Sign::Neg, 32768, 1));
    assert_eq!(parts(Rational::<4>::from_i32(-5)), (Sign::Neg, 5, 1));
    assert_eq!(parts(Rational::<4>::from_i32(0)), (Sign::Pos, 0, 1));
    assert_eq!(parts(Rational::<4>::from_i64(i64::MIN)), (Sign::Neg, 1 << 63, 1));
    assert_eq!(parts(Rational::<4>::from_i128(i128::MIN)), (Sign::Neg, 1 << 127, 1));
    assert_eq!(parts(Rational::<4>::from_i128(i128::MAX)), (Sign::Pos, i128::MAX as u128, 1));
    assert_eq!(parts(Rational::<4>::from_i128(-1)), (Sign::Neg, 1, 1));
}

#[test]
fn reduced_divides_by_the_greatest_common_divisor() {
    assert_eq!(parts(ratio(Sign::Neg, 42, 56).reduced()), (Sign::Neg, 3, 4));
    assert_eq!(parts(ratio(Sign::Pos, 0, 56).reduced()), (Sign::Pos, 0, 1));
    assert_eq!(parts(ratio(Sign::Pos, 56, 0).reduced()), (Sign::Pos, 1, 0));
    assert_eq!(parts(ratio(Sign::Pos, 0, 0).reduced()), (Sign::Pos, 0, 0));
    assert_eq!(parts(ratio(Sign::Pos, 7, 5).reduced()), (Sign::Pos, 7, 5));
}

#[test]
fn resized_keeps_what_fits() {
    let r = Rational::<4>::new(Sign::Neg, Uint::new([0, 0, 1, 2]), Uint::new([0, 0, 0, 3]));
    let wide: Rational<6> = r.resized();
    assert_eq!(wide.sign, Sign::Neg);
    assert_eq!(wide.num, Uint::new([0, 0, 0, 0, 1, 2]));
    assert_eq!(wide.den, Uint::new([0, 0, 0, 0, 0, 3]));
    let narrow: Rational<2> = r.resized();
    assert_eq!(narrow.sign, Sign::Neg);
    assert_eq!(narrow.num, Uint::new([1, 2]));
    assert_eq!(narrow.den, Uint::new([0, 3]));
    let same: Rational<4> = r.resized();
    assert_eq!((same.sign, same.num, same.den), (r.sign, r.num, r.den));
}

#[test]
fn resized_drops_low_digits_of_both() {
    let r = Rational::<4>::new(Sign::Pos, Uint::new([0, 7, 8, 9]), Uint::new([0, 0, 1, 2]));
    let narrow: Rational<2> = r.resized();
    assert_eq!(narrow.num, Uint::new([7, 8]));
    assert_eq!(narrow.den, Uint::new([0, 1]));

    // the longer of the two decides, here the denominator
    let s = Rational::<4>::new(Sign::Neg, Uint::new([0, 0, 0, 9]), Uint::new([5, 6, 7, 8]));
    let one: Rational<1> = s.resized();
    assert_eq!(one.sign, Sign::Neg);
    assert_eq!(one.num, Uint::new([0]));
    assert_eq!(one.den, Uint::new([5]));

    // a denominator can be rounded away
    let t = Rational::<4>::new(Sign::Pos, Uint::new([1, 2, 3, 4]), Uint::new([0, 0, 5, 6]));
    let two: Rational<2> = t.resized();
    assert_eq!(two.num, Uint::new([1, 2]));
    assert_eq!(two.den, Uint::new([0, 0]));
}

#[test]
fn order_goes_by_sign_first() {
    let minus = ratio(Sign::Neg, 1, 1000);
    let plus = ratio(Sign::Pos, 1, 1000);
    assert!(minus < plus);
    assert!(plus > minus);
    assert_eq!(minus.compare(&plus), Comparison::Less);
    assert_eq!(plus.compare(&minus), Comparison::Greater);
    // the two zeros are told apart
    let negative_zero = ratio(Sign::Neg, 0, 1);
    let zero = ratio(Sign::Pos, 0, 1);
    assert!(negative_zero < zero);
    assert!(negative_zero != zero);
}

#[test]
fn order_goes_by_cross_products() {
    let half = ratio(Sign::Pos, 1, 2);
    let two_thirds = ratio(Sign::Pos, 2, 3);
    assert!(half < two_thirds);
    assert!(two_thirds > half);
    assert_eq!(half.compare(&two_thirds), Comparison::Less);
    assert_eq!(half.compare(&half), Comparison::Equal);

    let minus_half = ratio(Sign::Neg, 1, 2);
    let minus_two_thirds = ratio(Sign::Neg, 2, 3);
    assert!(minus_two_thirds < minus_half);
    assert_eq!(minus_half.compare(&minus_two_thirds), Comparison::Greater);
    assert_eq!(minus_half.compare(&minus_half), Comparison::Equal);

    // equal denominators are compared without multiplying
    assert!(ratio(Sign::Pos, 3, 7) < ratio(Sign::Pos, 4, 7));
    assert!(ratio(Sign::Neg, 3, 7) > ratio(Sign::Neg, 4, 7));
}

#[test]
fn equality_is_by_value() {
    assert!(ratio(Sign::Pos, 1, 2) == ratio(Sign::Pos, 2, 4));
    assert!(ratio(Sign::Pos, 1, 2).equals(&ratio(Sign::Pos, 50, 100)));
    assert!(ratio(Sign::Pos, 1, 2) != ratio(Sign::Neg, 1, 2));
    assert!(ratio(Sign::Pos, 1, 2) != ratio(Sign::Pos, 2, 3));
    assert_eq!(ratio(Sign::Neg, 3, 9).compare(&ratio(Sign::Neg, 1, 3)), Comparison::Equal);
}

#[test]
fn order_on_numbers_that_fill_the_width() {
    let a = Rational::<2>::new(Sign::Pos, Uint::max_value(), Uint::new([u32::MAX, u32::MAX - 1]));
    let b = Rational::<2>::new(Sign::Pos, Uint::new([u32::MAX, u32::MAX - 1]), Uint::max_value());
    assert!(b < a);
    assert!(a == a);
    assert_eq!(a.compare(&b), Comparison::Greater);
}

#[test]
fn order_is_transitive_on_examples() {
    let values = [
        ratio(Sign::Neg, 7, 2),
        ratio(Sign::Neg, 10, 3),
        ratio(Sign::Neg, 0, 4),
        ratio(Sign::Pos, 0, 9),
        ratio(Sign::Pos, 2, 6),
        ratio(Sign::Pos, 1, 3),
        ratio(Sign::Pos, 5, 2),
    ];
    for a in values {
        assert_eq!(a.compare(&a), Comparison::Equal);
        for b in values {
            let forth = a.compare(&b);
            let back = b.compare(&a);
            assert_eq!(forth == Comparison::Less, back == Comparison::Greater);
            assert_eq!(forth == Comparison::Equal, back == Comparison::Equal);
            assert_eq!(forth == Comparison::Equal, a == b);
            for c in values {
                if forth == Comparison::Less && b.compare(&c) == Comparison::Less {
                    assert_eq!(a.compare(&c), Comparison::Less);
                }
            }
        }
    }
}
