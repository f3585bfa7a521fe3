use large::{Complex, Rational, Sign, Uint};

#[test]
fn sign_product() {
    assert_eq!(Sign::Pos * Sign::Pos, Sign::Pos);
    assert_eq!(Sign::Neg * Sign::Neg, Sign::Pos);
    assert_eq!(Sign::Pos * Sign::Neg, Sign::Neg);
    assert_eq!(Sign::Neg * Sign::Pos, Sign::Neg);
}

#[test]
fn negative_comes_before_positive() {
    assert!(Sign::Neg < Sign::Pos);
    assert!(Sign::Pos > Sign::Neg);
    assert!(Sign::Neg <= Sign::Neg);
    assert_eq!(Sign::Neg.max(Sign::Pos), Sign::Pos);
    assert_eq!(Sign::Neg.cmp(&Sign::Pos), std::cmp::Ordering::Less);
    assert_eq!(Sign::Neg.partial_cmp(&Sign::Neg), Some(std::cmp::Ordering::Equal));
    assert!(Sign::Neg.is_negative());
    assert!(!Sign::Pos.is_negative());
}

#[test]
fn complex_absolute_value_squared() {
    let z = Complex { r: 3i64, i: -4i64 };
    assert_eq!(z.abs_squared(), 25);
}

#[test]
fn complex_sum_and_product() {
    let a = Complex { r: 1i64, i: 2i64 };
    let b = Complex { r: 3i64, i: 4i64 };
    let sum = a + b;
    assert_eq!((sum.r, sum.i), (4, 6));
    let product = a * b;
    assert_eq!((product.r, product.i), (-5, 10));
}

#[test]
fn complex_over_rationals() {
    let part = |v: i32| Rational::<4>::from_i32(v);
    let exact = |r: Rational<4>| (r.sign, r.num, r.den);
    let z = Complex { r: part(1), i: part(2) };
    // (1 + 2j)(1 + 2j) = -3 + 4j
    let square = z * z;
    assert_eq!(exact(square.r), (Sign::Neg, Uint::from_u32(3), Uint::one()));
    assert_eq!(exact(square.i), (Sign::Pos, Uint::from_u32(4), Uint::one()));
    assert_eq!(exact(z.abs_squared()), (Sign::Pos, Uint::from_u32(5), Uint::one()));
    let sum = square + z;
    assert_eq!(exact(sum.r), (Sign::Neg, Uint::from_u32(2), Uint::one()));
    assert_eq!(exact(sum.i), (Sign::Pos, Uint::from_u32(6), Uint::one()));
}
