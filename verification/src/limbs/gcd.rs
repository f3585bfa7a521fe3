//! Greatest common divisors of digit strings, by repeated division and by the
//! binary method, and the arithmetic that both rest on.

use vstd::prelude::*;
use vstd::arithmetic::div_mod::{
    lemma_fundamental_div_mod,
    lemma_fundamental_div_mod_converse,
    lemma_small_mod,
    lemma_truncate_middle,
};
use vstd::arithmetic::power2::{pow2, lemma_pow2_pos, lemma_pow2_unfold, lemma2_to64};
use crate::limbs::{copy_digits, radix_pow, value_of};
use crate::limbs::add::sub_with_borrow;
use crate::limbs::compare::{compare, is_zero, Comparison};
use crate::limbs::div::div_rem;
use crate::limbs::lemmas::lemma_value_bound;
use crate::limbs::shift::{
    lemma_trailing_zeros_of_factors,
    shift_left_by,
    shift_right_by,
    trailing_zero_count,
    trailing_zeros_of,
};

verus! {

/// The greatest common divisor, by Euclid's recursion; `gcd(0, 0)` is 0.
pub open spec fn gcd(a: nat, b: nat) -> nat
    decreases b,
{
    if b == 0 {
        a
    } else {
        gcd(b, a % b)
    }
}

/// `n` is `d` times `k`.
pub open spec fn is_product(n: nat, d: nat, k: nat) -> bool {
    n == d * k
}

/// `d` divides `n`: some multiple of `d` is `n`.
pub open spec fn divides(d: nat, n: nat) -> bool {
    exists|k: nat| is_product(n, d, k)
}

/// Every number divides zero and itself, and one divides every number.
pub proof fn lemma_divides_zero_and_self(d: nat)
    ensures
        divides(d, 0),
        divides(d, d),
        divides(1, d),
{
    assert(is_product(0, d, 0)) by {
        assert(d * 0 == 0);
    }
    assert(is_product(d, d, 1)) by {
        assert(d * 1 == d);
    }
    assert(is_product(d, 1, d)) by {
        assert(1 * d == d);
    }
}

/// A common divisor of two numbers divides their sum.
pub proof fn lemma_divides_sum(d: nat, x: nat, y: nat)
    requires
        divides(d, x),
        divides(d, y),
    ensures
        divides(d, x + y),
{
    let k = choose|k: nat| is_product(x, d, k);
    let m = choose|m: nat| is_product(y, d, m);
    assert(d * (k + m) == d * k + d * m) by (nonlinear_arith);
    assert(is_product(x + y, d, k + m));
}

/// A common divisor of two numbers divides their difference.
pub proof fn lemma_divides_difference(d: nat, x: nat, y: nat)
    requires
        divides(d, x),
        divides(d, y),
        y <= x,
    ensures
        divides(d, (x - y) as nat),
{
    let k = choose|k: nat| is_product(x, d, k);
    let m = choose|m: nat| is_product(y, d, m);
    if d == 0 {
        assert(0 * k == 0 && 0 * m == 0);
        assert(is_product(0, d, 0));
    } else {
        assert(m <= k) by (nonlinear_arith)
            requires
                d * m <= d * k,
                d > 0,
        ;
        assert(d * ((k - m) as nat) == d * k - d * m) by (nonlinear_arith)
            requires
                m <= k,
        ;
        assert(is_product((x - y) as nat, d, (k - m) as nat));
    }
}

/// A divisor of a number divides its multiples.
pub proof fn lemma_divides_multiple(d: nat, x: nat, m: nat)
    requires
        divides(d, x),
    ensures
        divides(d, x * m),
        divides(d, m * x),
{
    let k = choose|k: nat| is_product(x, d, k);
    assert(d * (k * m) == (d * k) * m) by (nonlinear_arith);
    assert(is_product(x * m, d, k * m));
    assert(m * x == x * m) by (nonlinear_arith);
}

/// A divisor of a number that is not zero is not zero and not above it.
pub proof fn lemma_divides_bound(d: nat, n: nat)
    requires
        divides(d, n),
        n > 0,
    ensures
        1 <= d <= n,
{
    let k = choose|k: nat| is_product(n, d, k);
    assert(d >= 1 && k >= 1 && d <= n) by (nonlinear_arith)
        requires
            n == d * k,
            n > 0,
    ;
}

/// Two numbers that divide each other are equal.
pub proof fn lemma_divides_antisymmetric(a: nat, b: nat)
    requires
        divides(a, b),
        divides(b, a),
    ensures
        a == b,
{
    if a == 0 {
        let k = choose|k: nat| is_product(b, a, k);
        assert(0 * k == 0);
    } else if b == 0 {
        let k = choose|k: nat| is_product(a, b, k);
        assert(0 * k == 0);
    } else {
        lemma_divides_bound(a, b);
        lemma_divides_bound(b, a);
    }
}

/// Divisibility, stated with the remainder.
pub proof fn lemma_divides_iff_mod(d: nat, n: nat)
    requires
        d > 0,
    ensures
        divides(d, n) <==> n % d == 0,
{
    if divides(d, n) {
        let k = choose|k: nat| is_product(n, d, k);
        assert(n == k * d + 0) by (nonlinear_arith)
            requires
                n == d * k,
        ;
        lemma_fundamental_div_mod_converse(n as int, d as int, k as int, 0);
    }
    if n % d == 0 {
        lemma_fundamental_div_mod(n as int, d as int);
        assert(is_product(n, d, n / d));
    }
}

proof fn lemma_divides_remainder(d: nat, a: nat, b: nat)
    requires
        b > 0,
        divides(d, b),
    ensures
        divides(d, a) <==> divides(d, a % b),
{
    lemma_fundamental_div_mod(a as int, b as int);
    let q = a / b;
    lemma_divides_multiple(d, b, q);
    assert(b * q == (b * q) as nat);
    if divides(d, a) {
        lemma_divides_difference(d, a, b * q);
        assert((a - b * q) as nat == a % b);
    }
    if divides(d, a % b) {
        lemma_divides_sum(d, b * q, a % b);
    }
}

/// The greatest common divisor divides both numbers.
pub proof fn lemma_gcd_divides(a: nat, b: nat)
    ensures
        divides(gcd(a, b), a),
        divides(gcd(a, b), b),
    decreases b,
{
    if b == 0 {
        lemma_divides_zero_and_self(a);
    } else {
        lemma_gcd_divides(b, a % b);
        lemma_divides_remainder(gcd(a, b), a, b);
    }
}

/// Every common divisor divides the greatest common divisor.
pub proof fn lemma_gcd_greatest(a: nat, b: nat, d: nat)
    requires
        divides(d, a),
        divides(d, b),
    ensures
        divides(d, gcd(a, b)),
    decreases b,
{
    if b != 0 {
        lemma_divides_remainder(d, a, b);
        lemma_gcd_greatest(b, a % b, d);
    }
}

/// Two pairs with the same common divisors have the same greatest common divisor.
proof fn lemma_gcd_equal(a: nat, b: nat, c: nat, d: nat)
    requires
        divides(gcd(a, b), c),
        divides(gcd(a, b), d),
        divides(gcd(c, d), a),
        divides(gcd(c, d), b),
    ensures
        gcd(a, b) == gcd(c, d),
{
    lemma_gcd_greatest(c, d, gcd(a, b));
    lemma_gcd_greatest(a, b, gcd(c, d));
    lemma_divides_antisymmetric(gcd(a, b), gcd(c, d));
}

/// The greatest common divisor does not depend on the order of the two numbers.
pub proof fn lemma_gcd_symmetric(a: nat, b: nat)
    ensures
        gcd(a, b) == gcd(b, a),
{
    lemma_gcd_divides(a, b);
    lemma_gcd_divides(b, a);
    lemma_gcd_equal(a, b, b, a);
}

/// The greatest common divisor of a number and a larger one is that of the number
/// and their difference.
pub proof fn lemma_gcd_difference(u: nat, v: nat)
    requires
        u <= v,
    ensures
        gcd(u, v) == gcd(u, (v - u) as nat),
{
    let w = (v - u) as nat;
    lemma_gcd_divides(u, v);
    lemma_gcd_divides(u, w);
    lemma_divides_difference(gcd(u, v), v, u);
    lemma_divides_sum(gcd(u, w), u, w);
    lemma_gcd_equal(u, v, u, w);
}

/// A common factor of both numbers is a factor of their greatest common divisor.
pub proof fn lemma_gcd_scale(c: nat, x: nat, y: nat)
    ensures
        gcd(c * x, c * y) == c * gcd(x, y),
    decreases y,
{
    if c == 0 {
        assert(0 * x == 0 && 0 * y == 0 && 0 * gcd(x, y) == 0);
    } else if y == 0 {
        assert(c * 0 == 0);
    } else {
        assert(c * y != 0) by (nonlinear_arith)
            requires
                c != 0,
                y != 0,
        ;
        lemma_truncate_middle(x as int, c as int, y as int);
        lemma_gcd_scale(c, y, x % y);
    }
}

/// A divisor of an odd number is odd.
proof fn lemma_divisor_of_odd(d: nat, x: nat)
    requires
        divides(d, x),
        x % 2 == 1,
    ensures
        d % 2 == 1,
{
    let k = choose|k: nat| is_product(x, d, k);
    if d % 2 == 0 {
        let h = d / 2;
        assert(d * k == 2 * (h * k)) by (nonlinear_arith)
            requires
                d == 2 * h,
        ;
    }
}

/// An odd number that divides twice a number divides the number.
proof fn lemma_odd_divides_half(d: nat, y: nat)
    requires
        d % 2 == 1,
        divides(d, 2 * y),
    ensures
        divides(d, y),
{
    let twice = 2 * y;
    let k = choose|k: nat| is_product(twice, d, k);
    if k % 2 == 1 {
        let a = d / 2;
        let b = k / 2;
        assert(d * k == 2 * (2 * a * b + a + b) + 1) by (nonlinear_arith)
            requires
                d == 2 * a + 1,
                k == 2 * b + 1,
        ;
        assert(false);
    }
    let m = k / 2;
    assert(y == d * m) by (nonlinear_arith)
        requires
            2 * y == d * k,
            k == 2 * m,
    ;
    assert(is_product(y, d, m));
}

/// Against an odd number, a factor of two in the other number does not count.
pub proof fn lemma_gcd_odd_drops_two(u: nat, w: nat)
    requires
        u % 2 == 1,
    ensures
        gcd(u, 2 * w) == gcd(u, w),
{
    lemma_gcd_divides(u, 2 * w);
    lemma_gcd_divides(u, w);
    lemma_divisor_of_odd(gcd(u, 2 * w), u);
    lemma_odd_divides_half(gcd(u, 2 * w), w);
    lemma_divides_multiple(gcd(u, w), w, 2);
    lemma_gcd_equal(u, 2 * w, u, w);
}

/// Against an odd number, a power of two in the other number does not count.
pub proof fn lemma_gcd_odd_drops_pow2(u: nat, w: nat, t: nat)
    requires
        u % 2 == 1,
    ensures
        gcd(u, w * pow2(t)) == gcd(u, w),
    decreases t,
{
    lemma2_to64();
    if t == 0 {
        assert(w * 1 == w);
    } else {
        lemma_pow2_unfold(t);
        let h = w * pow2((t - 1) as nat);
        assert(w * (2 * pow2((t - 1) as nat)) == 2 * h) by (nonlinear_arith)
            requires
                h == w * pow2((t - 1) as nat),
        ;
        lemma_gcd_odd_drops_two(u, h);
        lemma_gcd_odd_drops_pow2(u, w, (t - 1) as nat);
    }
}

/// The greatest common divisor of two odd numbers, each times a power of two, is
/// that of the odd numbers times the smaller power.
pub proof fn lemma_gcd_common_pow2(x: nat, y: nat, i: nat, j: nat)
    requires
        x % 2 == 1,
        y % 2 == 1,
    ensures
        gcd(x * pow2(i), y * pow2(j)) == gcd(x, y) * pow2(if i <= j { i } else { j }),
    decreases i + j,
{
    lemma2_to64();
    if i == 0 {
        assert(x * 1 == x);
        assert(gcd(x, y) * 1 == gcd(x, y));
        lemma_gcd_odd_drops_pow2(x, y, j);
    } else if j == 0 {
        assert(y * 1 == y);
        assert(gcd(x, y) * 1 == gcd(x, y));
        lemma_gcd_symmetric(x * pow2(i), y);
        lemma_gcd_odd_drops_pow2(y, x, i);
        lemma_gcd_symmetric(y, x);
    } else {
        lemma_pow2_unfold(i);
        lemma_pow2_unfold(j);
        let k = if i <= j { i } else { j };
        lemma_pow2_unfold(k);
        let hx = x * pow2((i - 1) as nat);
        let hy = y * pow2((j - 1) as nat);
        assert(x * (2 * pow2((i - 1) as nat)) == 2 * hx) by (nonlinear_arith)
            requires
                hx == x * pow2((i - 1) as nat),
        ;
        assert(y * (2 * pow2((j - 1) as nat)) == 2 * hy) by (nonlinear_arith)
            requires
                hy == y * pow2((j - 1) as nat),
        ;
        lemma_gcd_scale(2, hx, hy);
        lemma_gcd_common_pow2(x, y, (i - 1) as nat, (j - 1) as nat);
        let g = gcd(x, y);
        let p = pow2((k - 1) as nat);
        assert(2 * (g * p) == g * (2 * p)) by (nonlinear_arith);
    }
}

/// The greatest common divisor by Euclid's method: `(a, b)` becomes
/// `(b, a mod b)` until `b` is zero.
pub fn gcd_euclidean(a: &[u32], b: &[u32]) -> (r: Vec<u32>)
    requires
        a@.len() == b@.len(),
    ensures
        r@.len() == a@.len(),
        value_of(r@) == gcd(value_of(a@), value_of(b@)),
{
    let mut x = copy_digits(a);
    let mut y = copy_digits(b);
    while !is_zero(y.as_slice())
        invariant
            x@.len() == a@.len(),
            y@.len() == a@.len(),
            gcd(value_of(x@), value_of(y@)) == gcd(value_of(a@), value_of(b@)),
        decreases value_of(y@),
    {
        let (_, rest) = div_rem(x.as_slice(), y.as_slice(), true);
        proof {
            lemma_fundamental_div_mod(value_of(x@) as int, value_of(y@) as int);
            vstd::arithmetic::div_mod::lemma_mod_bound(value_of(x@) as int, value_of(y@) as int);
        }
        x = y;
        y = rest;
    }
    x
}

/// The greatest common divisor by the binary method: the common power of two is
/// set aside, and the two odd numbers are brought together by subtracting the
/// smaller from the larger and halving the difference until it is odd.
pub fn gcd_binary(a: &[u32], b: &[u32]) -> (r: Vec<u32>)
    requires
        a@.len() == b@.len(),
    ensures
        r@.len() == a@.len(),
        value_of(r@) == gcd(value_of(a@), value_of(b@)),
{
    let ghost va = value_of(a@);
    let ghost vb = value_of(b@);
    if is_zero(a) {
        proof {
            lemma_gcd_symmetric(va, vb);
        }
        return copy_digits(b);
    } else if is_zero(b) {
        return copy_digits(a);
    }
    let (ai, aj) = trailing_zero_count(a);
    let (bi, bj) = trailing_zero_count(b);
    let mut u = shift_right_by(a, ai, aj);
    let mut v = shift_right_by(b, bi, bj);
    let a_less: bool = ai < bi || (ai == bi && aj <= bj);
    let (ki, kj) = if a_less {
        (ai, aj)
    } else {
        (bi, bj)
    };
    let ghost k = (32 * ki + kj) as nat;
    proof {
        lemma_trailing_zeros_of_factors(va);
        lemma_trailing_zeros_of_factors(vb);
        lemma_gcd_common_pow2(
            value_of(u@),
            value_of(v@),
            trailing_zeros_of(va),
            trailing_zeros_of(vb),
        );
    }
    loop
        invariant
            u@.len() == a@.len(),
            v@.len() == a@.len(),
            value_of(u@) % 2 == 1,
            value_of(v@) % 2 == 1,
            k == 32 * ki + kj,
            kj < 32,
            va == value_of(a@),
            vb == value_of(b@),
            va > 0,
            gcd(value_of(u@), value_of(v@)) * pow2(k) == gcd(va, vb),
        decreases value_of(u@) + value_of(v@),
    {
        // swap if necessary so that u <= v
        if compare(u.as_slice(), v.as_slice()) == Comparison::Greater {
            proof {
                lemma_gcd_symmetric(value_of(u@), value_of(v@));
            }
            let t = u;
            u = v;
            v = t;
        }
        let ghost before = value_of(v@);
        let (less, borrow) = sub_with_borrow(v.as_slice(), u.as_slice());
        v = less;
        proof {
            lemma_gcd_difference(value_of(u@), before);
        }
        if is_zero(v.as_slice()) {
            proof {
                // gcd(u, 0) = u: put the common power of two back
                let g = gcd(va, vb);
                lemma_gcd_divides(va, vb);
                lemma_divides_bound(g, va);
                lemma_value_bound(a@);
                lemma_small_mod(g, radix_pow(a@.len()));
            }
            return shift_left_by(u.as_slice(), ki, kj);
        }
        let (vi, vj) = trailing_zero_count(v.as_slice());
        let ghost even = value_of(v@);
        v = shift_right_by(v.as_slice(), vi, vj);
        proof {
            lemma_trailing_zeros_of_factors(even);
            let t = trailing_zeros_of(even);
            lemma_gcd_odd_drops_pow2(value_of(u@), value_of(v@), t);
            lemma_pow2_pos(t);
            assert(value_of(v@) <= even) by (nonlinear_arith)
                requires
                    even == value_of(v@) * pow2(t),
                    pow2(t) >= 1,
            ;
        }
    }
}

} // verus!
