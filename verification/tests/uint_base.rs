use large::Uint;

#[test]
fn big() {
    let v = Uint::<100>::new([u32::MAX; 100]);
    assert_eq!(v.to_string_radix(16), "ff".repeat(4 * 100));
}

#[test]
fn zero_has_one_digit() {
    let zero = Uint::<3>::zero();
    assert_eq!(zero.to_base_le(10).collect(), vec![0]);
    assert_eq!(zero.to_base_10_be(), vec![0]);
    assert_eq!(zero.to_string_radix(2), "0");
    assert_eq!(zero.to_string(), "0");
    assert_eq!(zero.to_upper_hex_string(), "0");
}

#[test]
fn digits_come_least_significant_first() {
    let v = Uint::<2>::from_u32(1234);
    assert_eq!(v.to_base_le(10).collect(), vec![4, 3, 2, 1]);
    assert_eq!(v.to_base_le(1000).collect(), vec![234, 1]);
    assert_eq!(v.to_base_le(u32::MAX).collect(), vec![1234]);
    assert_eq!(Uint::<2>::new([1, 0]).to_base_le(u32::MAX).collect(), vec![1, 1]);
}

#[test]
fn digits_are_handed_out_one_at_a_time() {
    let v = Uint::<2>::from_u32(0b101);
    let mut digits = v.to_base_le(2);
    assert_eq!(digits.next(), Some(1));
    assert_eq!(digits.next(), Some(0));
    assert_eq!(digits.next(), Some(1));
    assert_eq!(digits.next(), None);
    assert_eq!(digits.next(), None);
    // a second run starts afresh
    let mut again = v.to_base_le(2);
    assert_eq!(again.next(), Some(1));
    assert_eq!(again.collect(), vec![0, 1]);
}

#[test]
fn decimal_groups_of_nine() {
    let v = Uint::<4>::from_u128(12_000_000_345_000_000_006);
    assert_eq!(v.to_base_10_be(), vec![12, 345, 6]);
    assert_eq!(v.to_string(), "12000000345000000006");
    assert_eq!(Uint::<4>::from_u64(1_000_000_000).to_string(), "1000000000");
    assert_eq!(Uint::<4>::from_u64(999_999_999).to_string(), "999999999");
    assert_eq!(
        Uint::<4>::from_u128(u128::MAX).to_string(),
        "340282366920938463463374607431768211455"
    );
}

#[test]
fn renderers_agree_with_the_digits() {
    let values = [
        Uint::<5>::zero(),
        Uint::<5>::from_u32(7),
        Uint::<5>::from_u128(0xdead_beef_0000_0000_1234_5678_9abc_def0),
        Uint::<5>::new([3, 0, 0, 0, 1_000_000_000]),
        Uint::<5>::max_value(),
    ];
    for v in values {
        for (base, text) in [
            (2, v.to_binary_string()),
            (8, v.to_octal_string()),
            (10, v.to_string()),
            (16, v.to_lower_hex_string()),
        ] {
            let mut digits = v.to_base_le(base).collect();
            digits.reverse();
            let expected: String =
                digits.into_iter().map(|d| char::from_digit(d, base).unwrap()).collect();
            assert_eq!(text, expected);
            assert_eq!(v.to_string_radix(base), expected);
        }
    }
}

#[test]
fn renderers_agree_with_the_machine() {
    let n: u128 = 0xdead_beef_0000_0000_1234_5678_9abc_def0;
    let v = Uint::<4>::from_u128(n);
    assert_eq!(v.to_string(), format!("{}", n));
    assert_eq!(v.to_binary_string(), format!("{:b}", n));
    assert_eq!(v.to_octal_string(), format!("{:o}", n));
    assert_eq!(v.to_lower_hex_string(), format!("{:x}", n));
    assert_eq!(v.to_upper_hex_string(), format!("{:X}", n));
    assert_eq!(v.to_string_radix(36), "d6lbjcggvaq8661yu85lo48a8");
}
