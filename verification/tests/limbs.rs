use large::limbs::add::{add_with_carry, sub_with_borrow};
use large::limbs::compare::{compare, equal, is_zero};
use large::limbs::div::{correct_d, div_rem, join_u32, push_digit};
use large::limbs::gcd::{gcd_binary, gcd_euclidean};
use large::limbs::mul::{fits, mul_digit};
use large::limbs::shift::{
    shift_left, shift_left_by, shift_left_digits, shift_right, shift_right_by, shift_right_digits,
    trailing_zero_bits, trailing_zero_count,
};
use large::limbs::{
    copy_digits, from_digit, leading_index_of, resize, significant_digits, widen, zeros,
};
use large::rational::fraction::{to_same_denominator, Fraction};
use large::{Comparison, Sign};

#[test]
fn carry_and_borrow_leave_the_top() {
    assert_eq!(add_with_carry(&[u32::MAX, u32::MAX], &[0, 1]), (vec![0, 0], true));
    assert_eq!(add_with_carry(&[1, u32::MAX], &[0, 1]), (vec![2, 0], false));
    assert_eq!(sub_with_borrow(&[0, 0], &[0, 1]), (vec![u32::MAX, u32::MAX], true));
    assert_eq!(sub_with_borrow(&[2, 0], &[0, 1]), (vec![1, u32::MAX], false));
    assert_eq!(add_with_carry(&[], &[]), (vec![], false));
}

#[test]
fn product_with_a_digit_hands_out_the_carry() {
    assert_eq!(mul_digit(&[u32::MAX, u32::MAX], u32::MAX), (vec![u32::MAX, 1], 0xffff_fffe));
    assert_eq!(mul_digit(&[0, 3], 5), (vec![0, 15], 0));
}

#[test]
fn strings_of_digits() {
    assert_eq!(zeros(3), vec![0, 0, 0]);
    assert_eq!(copy_digits(&[1, 2]), vec![1, 2]);
    assert_eq!(widen(&[1, 2], 2), vec![0, 0, 1, 2]);
    assert_eq!(resize(&[1, 2, 3], 5), vec![0, 0, 1, 2, 3]);
    assert_eq!(resize(&[1, 2, 3], 2), vec![2, 3]);
    assert_eq!(resize(&[1, 2, 3], 0), Vec::<u32>::new());
    assert_eq!(from_digit(3, 9), vec![0, 0, 9]);
    assert_eq!(leading_index_of(&[0, 0, 5, 0]), 2);
    assert_eq!(leading_index_of(&[0, 0, 0, 0]), 3);
    assert_eq!(significant_digits(&[0, 0, 5, 0]), 2);
    assert_eq!(significant_digits(&[0, 0, 0, 0]), 1);
    assert!(fits(&[0, 0, 5, 0], 2));
    assert!(!fits(&[0, 0, 5, 0], 1));
    assert!(fits(&[0, 0, 0, 0], 0));
}

#[test]
fn comparison_of_strings() {
    assert_eq!(compare(&[1, 0], &[0, u32::MAX]), Comparison::Greater);
    assert_eq!(compare(&[0, 1], &[0, 2]), Comparison::Less);
    assert_eq!(compare(&[3, 4], &[3, 4]), Comparison::Equal);
    assert!(equal(&[3, 4], &[3, 4]));
    assert!(!equal(&[3, 4], &[4, 3]));
    assert!(is_zero(&[0, 0]));
    assert!(is_zero(&[]));
    assert!(!is_zero(&[0, 1]));
}

#[test]
fn shifts_of_strings() {
    assert_eq!(shift_left_digits(&[1, 2, 3], 2), vec![3, 0, 0]);
    assert_eq!(shift_left_digits(&[1, 2, 3], 7), vec![0, 0, 0]);
    assert_eq!(shift_right_digits(&[1, 2, 3], 2), vec![0, 0, 1]);
    assert_eq!(shift_right_digits(&[1, 2, 3], 3), vec![0, 0, 0]);
    assert_eq!(shift_left_by(&[0, 1], 1, 4), vec![16, 0]);
    assert_eq!(shift_right_by(&[16, 0], 1, 4), vec![0, 1]);
    assert_eq!(shift_left(&[0, 0x8000_0000], 1), vec![1, 0]);
    assert_eq!(shift_right(&[1, 0], 1), vec![0, 0x8000_0000]);
    assert_eq!(shift_left(&[0, 1], 64), vec![0, 0]);
    assert_eq!(shift_right(&[u32::MAX, u32::MAX], 64), vec![0, 0]);
}

#[test]
fn trailing_zero_counts() {
    assert_eq!(trailing_zero_count(&[0, 0, 0]), (3, 0));
    assert_eq!(trailing_zero_count(&[0, 8, 0]), (1, 3));
    assert_eq!(trailing_zero_count(&[0, 0, 1]), (0, 0));
    assert_eq!(trailing_zero_bits(&[0, 8, 0]), 35);
    assert_eq!(trailing_zero_bits(&[0, 0, 0]), 96);
}

#[test]
fn joined_digits() {
    assert_eq!(join_u32(0, 7), 7);
    assert_eq!(join_u32(1, 0), 1 << 32);
    assert_eq!(join_u32(u32::MAX, u32::MAX), u64::MAX);
}

#[test]
fn pushed_digit_goes_to_the_low_end() {
    assert_eq!(push_digit(&[0, 1, 2], 3), vec![1, 2, 3]);
}

#[test]
fn estimate_is_corrected_by_up_to_two() {
    // 100 / 7 = 14
    let divisor = [0, 0, 7];
    let window = [0, 0, 100];
    assert_eq!(correct_d(14, &divisor, &window), (14, vec![0, 0, 98]));
    assert_eq!(correct_d(15, &divisor, &window), (14, vec![0, 0, 98]));
    assert_eq!(correct_d(16, &divisor, &window), (14, vec![0, 0, 98]));
}

#[test]
fn remainder_only_on_demand() {
    // 2^64 + 5 divided by 2^32 + 1
    let a = [1, 0, 5];
    let b = [0, 1, 1];
    let (quotient, remainder) = div_rem(&a, &b, true);
    assert_eq!(quotient, vec![0, 0, u32::MAX]);
    assert_eq!(remainder, vec![0, 0, 6]);
    let (quotient, remainder) = div_rem(&a, &b, false);
    assert_eq!(quotient, vec![0, 0, u32::MAX]);
    assert_eq!(remainder, vec![0, 0, 0]);
    // answered at once: the remainder costs nothing
    assert_eq!(div_rem(&b, &a, false), (vec![0, 0, 0], vec![0, 1, 1]));
    assert_eq!(div_rem(&a, &[0, 0, 1], false), (vec![1, 0, 5], vec![0, 0, 0]));
    assert_eq!(div_rem(&a, &a, false), (vec![0, 0, 1], vec![0, 0, 0]));
}

#[test]
fn division_with_a_scaled_divisor() {
    // the divisor's leading digit is small, so both operands are scaled first
    let a = [0x1234_5678, 0x9abc_def0, 0x0fed_cba9];
    let b = [0, 3, 0x8000_0001];
    let (quotient, remainder) = div_rem(&a, &b, true);
    let n = (0x1234_5678u128 << 64) | (0x9abc_def0u128 << 32) | 0x0fed_cba9u128;
    let d = (3u128 << 32) | 0x8000_0001u128;
    let q = n / d;
    let r = n % d;
    assert_eq!(quotient, vec![(q >> 64) as u32, (q >> 32) as u32, q as u32]);
    assert_eq!(remainder, vec![(r >> 64) as u32, (r >> 32) as u32, r as u32]);
}

#[test]
fn greatest_common_divisors() {
    assert_eq!(gcd_euclidean(&[0, 48], &[0, 180]), vec![0, 12]);
    assert_eq!(gcd_binary(&[0, 48], &[0, 180]), vec![0, 12]);
    assert_eq!(gcd_binary(&[1, 0], &[0, 1 << 31]), vec![0, 1 << 31]);
    assert_eq!(gcd_binary(&[0, 0], &[0, 9]), vec![0, 9]);
    assert_eq!(gcd_binary(&[0, 9], &[0, 0]), vec![0, 9]);
    assert_eq!(gcd_euclidean(&[0, 0], &[0, 0]), vec![0, 0]);
    assert_eq!(gcd_binary(&[0, 0], &[0, 0]), vec![0, 0]);
}

#[test]
fn fractions_of_any_width() {
    let f = Fraction { sign: Sign::Neg, num: vec![0, 0, 12, 0], den: vec![0, 0, 0, 18] };
    let narrow = f.resized(2);
    assert_eq!((narrow.sign, narrow.num, narrow.den), (Sign::Neg, vec![12, 0], vec![0, 18]));
    let tight = f.resized(1);
    assert_eq!((tight.sign, tight.num, tight.den), (Sign::Neg, vec![12], vec![0]));
    let lowest = Fraction { sign: Sign::Pos, num: vec![0, 12], den: vec![0, 18] }.reduced();
    assert_eq!((lowest.sign, lowest.num, lowest.den), (Sign::Pos, vec![0, 2], vec![0, 3]));
}

#[test]
fn fractions_brought_to_one_denominator() {
    let mut a = Fraction { sign: Sign::Pos, num: vec![0, 1], den: vec![0, 6] };
    let mut b = Fraction { sign: Sign::Neg, num: vec![0, 1], den: vec![0, 10] };
    to_same_denominator(&mut a, &mut b);
    assert_eq!((a.sign, a.num, a.den), (Sign::Pos, vec![0, 10], vec![0, 60]));
    assert_eq!((b.sign, b.num, b.den), (Sign::Neg, vec![0, 6], vec![0, 60]));

    // equal denominators are left alone
    let mut c = Fraction { sign: Sign::Pos, num: vec![0, 1], den: vec![0, 6] };
    let mut d = Fraction { sign: Sign::Pos, num: vec![0, 5], den: vec![0, 6] };
    to_same_denominator(&mut c, &mut d);
    assert_eq!((c.num, c.den), (vec![0, 1], vec![0, 6]));
    assert_eq!((d.num, d.den), (vec![0, 5], vec![0, 6]));
}
