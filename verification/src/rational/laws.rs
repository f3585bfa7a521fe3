//! What holds of the arithmetic and the order of rational numbers.

use vstd::prelude::*;
use crate::limbs::radix_pow;
use crate::limbs::compare::{compare_values, Comparison};
use crate::limbs::gcd::{gcd, is_product, lemma_divides_bound, lemma_gcd_divides, lemma_gcd_scale};
use crate::limbs::lemmas::lemma_radix_pow_monotonic;
use crate::rational::model::{digit_count, lemma_digit_count_bounds, Ratio};
use crate::sign::Sign;

verus! {

/// Over denominators that are not zero, numerators brought to the common
/// denominator stand to each other as the cross products do.
pub proof fn lemma_scaled_is_cross(a: Ratio, b: Ratio)
    requires
        a.den != 0,
        b.den != 0,
    ensures
        compare_values(a.scaled_num(b), b.scaled_num(a)) == compare_values(
            a.num * b.den,
            b.num * a.den,
        ),
{
    if a.den == b.den {
        let d = a.den;
        let x = a.num;
        let y = b.num;
        assert(x < y <==> x * d < y * d) by (nonlinear_arith)
            requires
                d > 0,
        ;
        assert(x == y <==> x * d == y * d) by (nonlinear_arith)
            requires
                d > 0,
        ;
    }
}

/// The order is total: of two numbers, either the first is less, or they are
/// equal, or the second is less, and which it is does not depend on the side from
/// which one looks. A number equals itself. Being equal in the order is being
/// equal.
pub proof fn lemma_order_is_total(a: Ratio, b: Ratio)
    requires
        a.den != 0,
        b.den != 0,
    ensures
        a.compare(b) == Comparison::Less <==> b.compare(a) == Comparison::Greater,
        a.compare(b) == Comparison::Equal <==> b.compare(a) == Comparison::Equal,
        a.compare(b) == Comparison::Greater <==> b.compare(a) == Comparison::Less,
        a.compare(b) == Comparison::Equal <==> a.equals(b),
        a.compare(a) == Comparison::Equal,
{
}

/// The order is transitive: less than a number that is less than, or equal to, a
/// third is less than the third, and so for the other combinations.
pub proof fn lemma_order_is_transitive(a: Ratio, b: Ratio, c: Ratio)
    requires
        a.den != 0,
        b.den != 0,
        c.den != 0,
        a.compare(b) != Comparison::Greater,
        b.compare(c) != Comparison::Greater,
    ensures
        a.compare(c) != Comparison::Greater,
        a.compare(b) == Comparison::Less || b.compare(c) == Comparison::Less ==> a.compare(c)
            == Comparison::Less,
        a.compare(b) == Comparison::Equal && b.compare(c) == Comparison::Equal ==> a.compare(c)
            == Comparison::Equal,
{
    lemma_scaled_is_cross(a, b);
    lemma_scaled_is_cross(b, a);
    lemma_scaled_is_cross(b, c);
    lemma_scaled_is_cross(c, b);
    lemma_scaled_is_cross(a, c);
    lemma_scaled_is_cross(c, a);
    if a.sign == b.sign && b.sign == c.sign {
        if a.sign == Sign::Pos {
            lemma_cross_transitive(a.num, a.den, b.num, b.den, c.num, c.den);
        } else {
            lemma_cross_transitive(c.num, c.den, b.num, b.den, a.num, a.den);
        }
    }
}

/// Fractions with positive denominators, compared by cross products: the
/// comparison is transitive.
proof fn lemma_cross_transitive(p1: nat, q1: nat, p2: nat, q2: nat, p3: nat, q3: nat)
    requires
        q1 > 0,
        q2 > 0,
        q3 > 0,
        p1 * q2 <= p2 * q1,
        p2 * q3 <= p3 * q2,
    ensures
        p1 * q3 <= p3 * q1,
        p1 * q2 < p2 * q1 || p2 * q3 < p3 * q2 ==> p1 * q3 < p3 * q1,
        p1 * q2 == p2 * q1 && p2 * q3 == p3 * q2 ==> p1 * q3 == p3 * q1,
{
    // bring both to the denominator q1 * q2 * q3
    let x = p1 * q2 * q3;
    let y = p2 * q1 * q3;
    let z = p3 * q1 * q2;
    assert(x <= y) by (nonlinear_arith)
        requires
            x == p1 * q2 * q3,
            y == p2 * q1 * q3,
            p1 * q2 <= p2 * q1,
            q3 > 0,
    ;
    assert(y <= z) by (nonlinear_arith)
        requires
            y == p2 * q1 * q3,
            z == p3 * q1 * q2,
            p2 * q3 <= p3 * q2,
            q1 > 0,
    ;
    assert(p1 * q2 < p2 * q1 ==> x < y) by (nonlinear_arith)
        requires
            x == p1 * q2 * q3,
            y == p2 * q1 * q3,
            q3 > 0,
    ;
    assert(p2 * q3 < p3 * q2 ==> y < z) by (nonlinear_arith)
        requires
            y == p2 * q1 * q3,
            z == p3 * q1 * q2,
            q1 > 0,
    ;
    assert(p1 * q2 == p2 * q1 ==> x == y) by (nonlinear_arith)
        requires
            x == p1 * q2 * q3,
            y == p2 * q1 * q3,
    ;
    assert(p2 * q3 == p3 * q2 ==> y == z) by (nonlinear_arith)
        requires
            y == p2 * q1 * q3,
            z == p3 * q1 * q2,
    ;
    let l = p1 * q3;
    let r = p3 * q1;
    assert(x == l * q2 && z == r * q2) by (nonlinear_arith)
        requires
            x == p1 * q2 * q3,
            z == p3 * q1 * q2,
            l == p1 * q3,
            r == p3 * q1,
    ;
    assert(l <= r && (x < z ==> l < r) && (x == z ==> l == r)) by (nonlinear_arith)
        requires
            x == l * q2,
            z == r * q2,
            x <= z,
            q2 > 0,
    ;
}

/// Two fractions with whole numerators denote one number.
pub open spec fn same_fraction(n1: int, d1: nat, n2: int, d2: nat) -> bool {
    n1 * d2 == n2 * d1
}

/// Fractions that denote the same number as a third, whose denominator is not zero,
/// denote one number.
proof fn lemma_same_fraction_transitive(n1: int, d1: nat, n2: int, d2: nat, n3: int, d3: nat)
    requires
        d2 != 0,
        same_fraction(n1, d1, n2, d2),
        same_fraction(n2, d2, n3, d3),
    ensures
        same_fraction(n1, d1, n3, d3),
{
    let x = n1 * d3;
    let y = n3 * d1;
    assert(x * d2 == (n1 * d2) * d3) by (nonlinear_arith)
        requires
            x == n1 * d3,
    ;
    assert((n2 * d1) * d3 == (n2 * d3) * d1) by (nonlinear_arith);
    assert((n3 * d2) * d1 == y * d2) by (nonlinear_arith)
        requires
            y == n3 * d1,
    ;
    assert(x == y) by (nonlinear_arith)
        requires
            x * d2 == y * d2,
            d2 != 0,
    ;
}

/// Sums of fractions that denote the same numbers denote one number.
proof fn lemma_same_fraction_sum(
    n1: int,
    d1: nat,
    m1: int,
    e1: nat,
    n2: int,
    d2: nat,
    m2: int,
    e2: nat,
)
    requires
        same_fraction(n1, d1, m1, e1),
        same_fraction(n2, d2, m2, e2),
    ensures
        same_fraction(n1 * d2 + n2 * d1, d1 * d2, m1 * e2 + m2 * e1, e1 * e2),
{
    let a = n1 * e1;
    let b = m1 * d1;
    let c = n2 * e2;
    let d = m2 * d2;
    assert((n1 * d2) * (e1 * e2) == a * (d2 * e2)) by (nonlinear_arith)
        requires
            a == n1 * e1,
    ;
    assert((m1 * e2) * (d1 * d2) == b * (d2 * e2)) by (nonlinear_arith)
        requires
            b == m1 * d1,
    ;
    assert((n2 * d1) * (e1 * e2) == c * (d1 * e1)) by (nonlinear_arith)
        requires
            c == n2 * e2,
    ;
    assert((m2 * e1) * (d1 * d2) == d * (d1 * e1)) by (nonlinear_arith)
        requires
            d == m2 * d2,
    ;
    assert((n1 * d2 + n2 * d1) * (e1 * e2) == (n1 * d2) * (e1 * e2) + (n2 * d1) * (e1 * e2))
        by (nonlinear_arith);
    assert((m1 * e2 + m2 * e1) * (d1 * d2) == (m1 * e2) * (d1 * d2) + (m2 * e1) * (d1 * d2))
        by (nonlinear_arith);
}

/// Products of fractions that denote the same numbers denote one number.
proof fn lemma_same_fraction_product(
    n1: int,
    d1: nat,
    m1: int,
    e1: nat,
    n2: int,
    d2: nat,
    m2: int,
    e2: nat,
)
    requires
        same_fraction(n1, d1, m1, e1),
        same_fraction(n2, d2, m2, e2),
    ensures
        same_fraction(n1 * n2, d1 * d2, m1 * m2, e1 * e2),
{
    let a = n1 * e1;
    let b = m1 * d1;
    let c = n2 * e2;
    let d = m2 * d2;
    assert((n1 * n2) * (e1 * e2) == a * c) by (nonlinear_arith)
        requires
            a == n1 * e1,
            c == n2 * e2,
    ;
    assert((m1 * m2) * (d1 * d2) == b * d) by (nonlinear_arith)
        requires
            b == m1 * d1,
            d == m2 * d2,
    ;
}

/// Reducing changes neither the number nor the sign, and keeps the denominator
/// from zero.
pub proof fn lemma_reduced_same_value(r: Ratio)
    requires
        r.den != 0,
    ensures
        r.reduced().den != 0,
        r.reduced().sign == r.sign,
        r.reduced().num * r.den == r.num * r.reduced().den,
        r.reduced().num == 0 <==> r.num == 0,
        r.reduced().same_value(r),
{
    let g = gcd(r.num, r.den);
    lemma_gcd_divides(r.num, r.den);
    lemma_divides_bound(g, r.den);
    let k = choose|k: nat| is_product(r.num, g, k);
    let m = choose|m: nat| is_product(r.den, g, m);
    vstd::arithmetic::div_mod::lemma_div_multiples_vanish(k as int, g as int);
    vstd::arithmetic::div_mod::lemma_div_multiples_vanish(m as int, g as int);
    assert(g * k == k * g && g * m == m * g) by (nonlinear_arith);
    assert(r.reduced().num == k);
    assert(r.reduced().den == m);
    assert(m != 0) by (nonlinear_arith)
        requires
            r.den == g * m,
            r.den != 0,
    ;
    assert(k * r.den == r.num * m) by (nonlinear_arith)
        requires
            r.num == g * k,
            r.den == g * m,
    ;
    assert(k == 0 <==> r.num == 0) by (nonlinear_arith)
        requires
            r.num == g * k,
            g >= 1,
    ;
    let sk = r.reduced().signed_num();
    let sn = r.signed_num();
    assert(sk * r.den == sn * m) by (nonlinear_arith)
        requires
            k * r.den == r.num * m,
            (sk == k && sn == r.num) || (sk == -k && sn == -r.num),
    ;
}

/// A reduced ratio is in lowest terms: numerator and denominator have no common
/// divisor but one, unless both are zero.
pub proof fn lemma_reduced_is_lowest_terms(r: Ratio)
    requires
        r.num != 0 || r.den != 0,
    ensures
        gcd(r.reduced().num, r.reduced().den) == 1,
        r.reduced().reduced() == r.reduced(),
{
    let g = gcd(r.num, r.den);
    lemma_gcd_divides(r.num, r.den);
    if r.num != 0 {
        lemma_divides_bound(g, r.num);
    } else {
        lemma_divides_bound(g, r.den);
    }
    let k = choose|k: nat| is_product(r.num, g, k);
    let m = choose|m: nat| is_product(r.den, g, m);
    vstd::arithmetic::div_mod::lemma_div_multiples_vanish(k as int, g as int);
    vstd::arithmetic::div_mod::lemma_div_multiples_vanish(m as int, g as int);
    assert(g * k == k * g && g * m == m * g) by (nonlinear_arith);
    lemma_gcd_scale(g, k, m);
    let h = gcd(k, m);
    assert(h == 1) by (nonlinear_arith)
        requires
            g == g * h,
            g >= 1,
    ;
    assert(k / 1 == k && m / 1 == m);
}

/// A ratio that fits a width is not changed by being brought to it.
pub proof fn lemma_resized_keeps_what_fits(r: Ratio, size: nat)
    requires
        r.fits(size),
        size >= 1,
    ensures
        r.resized(size) == r,
{
    lemma_digit_count_bounds(r.num);
    lemma_digit_count_bounds(r.den);
    if digit_count(r.num) > size {
        lemma_radix_pow_monotonic(size, (digit_count(r.num) - 1) as nat);
    }
    if digit_count(r.den) > size {
        lemma_radix_pow_monotonic(size, (digit_count(r.den) - 1) as nat);
    }
}

/// The sum of two magnitudes in lowest terms is positive and denotes the sum.
proof fn lemma_add_positive_exact(x: Ratio, y: Ratio)
    requires
        x.den != 0,
        y.den != 0,
    ensures
        x.add_positive_exact(y).den != 0,
        x.add_positive_exact(y).sign == Sign::Pos,
        same_fraction(
            x.add_positive_exact(y).num as int,
            x.add_positive_exact(y).den,
            (x.num * y.den + y.num * x.den) as int,
            x.den * y.den,
        ),
{
    let raw = Ratio {
        sign: Sign::Pos,
        num: x.scaled_num(y) + y.scaled_num(x),
        den: x.common_den(y),
    };
    let xd = x.den;
    let yd = y.den;
    assert(xd * yd != 0) by (nonlinear_arith)
        requires
            xd != 0,
            yd != 0,
    ;
    lemma_reduced_same_value(raw);
    let r = raw.reduced();
    assert(same_fraction(raw.num as int, raw.den, (x.num * yd + y.num * xd) as int, xd * yd)) by {
        if xd == yd {
            assert((x.num + y.num) * (xd * xd) == (x.num * xd + y.num * xd) * xd)
                by (nonlinear_arith);
        }
    }
    lemma_same_fraction_transitive(
        r.num as int,
        r.den,
        raw.num as int,
        raw.den,
        (x.num * yd + y.num * xd) as int,
        xd * yd,
    );
}

/// The difference of two magnitudes in lowest terms denotes the difference, and is
/// negative only where it is not zero.
proof fn lemma_sub_positive_exact(x: Ratio, y: Ratio)
    requires
        x.den != 0,
        y.den != 0,
    ensures
        x.sub_positive_exact(y).den != 0,
        x.sub_positive_exact(y).sign == Sign::Neg ==> x.sub_positive_exact(y).num != 0,
        same_fraction(
            x.sub_positive_exact(y).signed_num(),
            x.sub_positive_exact(y).den,
            x.num * y.den - y.num * x.den,
            x.den * y.den,
        ),
{
    let xd = x.den;
    let yd = y.den;
    assert(xd * yd != 0) by (nonlinear_arith)
        requires
            xd != 0,
            yd != 0,
    ;
    let swap = y.scaled_num(x) > x.scaled_num(y);
    let raw = if swap {
        Ratio {
            sign: Sign::Neg,
            num: (y.scaled_num(x) - x.scaled_num(y)) as nat,
            den: x.common_den(y),
        }
    } else {
        Ratio {
            sign: Sign::Pos,
            num: (x.scaled_num(y) - y.scaled_num(x)) as nat,
            den: x.common_den(y),
        }
    };
    lemma_reduced_same_value(raw);
    let r = raw.reduced();
    assert(raw.signed_num() == x.scaled_num(y) - y.scaled_num(x));
    assert(same_fraction(raw.signed_num(), raw.den, x.num * yd - y.num * xd, xd * yd)) by {
        if xd == yd {
            assert((x.num - y.num) * (xd * xd) == (x.num * xd - y.num * xd) * xd)
                by (nonlinear_arith);
        }
    }
    lemma_same_fraction_transitive(
        r.signed_num(),
        r.den,
        raw.signed_num(),
        raw.den,
        x.num * yd - y.num * xd,
        xd * yd,
    );
}

/// The sum in lowest terms denotes the sum of the two numbers.
pub proof fn lemma_sum_exact(a: Ratio, b: Ratio)
    requires
        a.den != 0,
        b.den != 0,
    ensures
        a.sum_exact(b).den != 0,
        same_fraction(
            a.sum_exact(b).signed_num(),
            a.sum_exact(b).den,
            a.signed_num() * b.den + b.signed_num() * a.den,
            a.den * b.den,
        ),
        a.sum_exact(b).sign == Sign::Neg && a.sum_exact(b).num == 0 ==> a.sign == Sign::Neg
            && b.sign == Sign::Neg,
{
    lemma_add_positive_exact(a, b);
    lemma_sub_positive_exact(a, b);
    lemma_sub_positive_exact(b, a);
    let qa = a.den;
    let qb = b.den;
    assert(qb * qa == qa * qb) by (nonlinear_arith);
    let pos = a.add_positive_exact(b);
    let t = a.num * qb + b.num * qa;
    assert((-(pos.num as int)) * (qa * qb) == (-t) * pos.den) by (nonlinear_arith)
        requires
            pos.num * (qa * qb) == t * pos.den,
    ;
    assert((-(a.num as int)) * qb == -(a.num * qb)) by (nonlinear_arith);
    assert((-(b.num as int)) * qa == -(b.num * qa)) by (nonlinear_arith);
}

/// The difference in lowest terms denotes the difference of the two numbers.
pub proof fn lemma_difference_exact(a: Ratio, b: Ratio)
    requires
        a.den != 0,
        b.den != 0,
    ensures
        a.difference_exact(b).den != 0,
        same_fraction(
            a.difference_exact(b).signed_num(),
            a.difference_exact(b).den,
            a.signed_num() * b.den - b.signed_num() * a.den,
            a.den * b.den,
        ),
        a.difference_exact(b).sign == Sign::Neg && a.difference_exact(b).num == 0 ==> a.sign
            == Sign::Neg && b.sign == Sign::Pos,
{
    lemma_add_positive_exact(a, b);
    lemma_sub_positive_exact(a, b);
    lemma_sub_positive_exact(b, a);
    let qa = a.den;
    let qb = b.den;
    assert(qb * qa == qa * qb) by (nonlinear_arith);
    let pos = a.add_positive_exact(b);
    let t = a.num * qb + b.num * qa;
    assert((-(pos.num as int)) * (qa * qb) == (-t) * pos.den) by (nonlinear_arith)
        requires
            pos.num * (qa * qb) == t * pos.den,
    ;
    assert((-(a.num as int)) * qb == -(a.num * qb)) by (nonlinear_arith);
    assert((-(b.num as int)) * qa == -(b.num * qa)) by (nonlinear_arith);
}

/// Ratios with one sign, or both zero, that denote one number are equal.
proof fn lemma_same_value_is_equal(x: Ratio, y: Ratio)
    requires
        x.den != 0,
        y.den != 0,
        x.same_value(y),
        y.num == 0 ==> x.sign == y.sign,
    ensures
        x.equals(y),
{
    let xs = x.signed_num();
    let ys = y.signed_num();
    let xd = x.den;
    let yd = y.den;
    if y.num != 0 {
        assert(x.sign == y.sign && x.num * yd == y.num * xd) by (nonlinear_arith)
            requires
                xs * yd == ys * xd,
                xd > 0,
                yd > 0,
                (xs == x.num && x.sign == Sign::Pos) || (xs == -x.num && x.sign == Sign::Neg),
                (ys == y.num && y.sign == Sign::Pos) || (ys == -y.num && y.sign == Sign::Neg),
                y.num > 0,
        ;
    } else {
        assert(x.num == 0) by (nonlinear_arith)
            requires
                xs * yd == 0 * xd,
                yd > 0,
                xs == x.num || xs == -x.num,
        ;
        assert(x.num * yd == y.num * xd) by (nonlinear_arith)
            requires
                x.num == 0,
                y.num == 0,
        ;
    }
    if xd == yd {
        assert(x.num == y.num) by (nonlinear_arith)
            requires
                x.num * yd == y.num * xd,
                xd == yd,
                xd > 0,
        ;
    }
}

/// Adding a number and taking it away again gives back the number one started
/// from: `(a + b) - b == a`. This holds where neither operation overflows and
/// neither has to drop digits to bring its result back to `size` digits, for
/// every `a` but the negative zero, of which the arithmetic makes the positive
/// one.
pub proof fn lemma_add_then_sub(a: Ratio, b: Ratio, size: nat)
    requires
        a.den != 0,
        b.den != 0,
        a.fits(size),
        b.fits(size),
        !(a.sign == Sign::Neg && a.num == 0),
        a.sum(b, size) is Some,
        a.sum_exact(b).fits(size),
        a.sum_exact(b).difference(b, size) is Some,
        a.sum_exact(b).difference_exact(b).fits(size),
    ensures
        a.sum(b, size) == Some(a.sum_exact(b)),
        a.sum(b, size)->Some_0.difference(b, size) == Some(a.sum_exact(b).difference_exact(b)),
        a.sum(b, size)->Some_0.difference(b, size)->Some_0.equals(a),
{
    assert(size >= 1) by {
        if size == 0 {
            assert(radix_pow(0) == 1);
        }
    }
    let s = a.sum_exact(b);
    let d = s.difference_exact(b);
    lemma_resized_keeps_what_fits(s, size);
    lemma_resized_keeps_what_fits(d, size);
    lemma_resized_keeps_what_fits(s.with_sign(Sign::Pos), size);
    lemma_resized_keeps_what_fits(d.with_sign(Sign::Pos), size);
    assert(a.sum(b, size) == Some(s));
    assert(s.difference(b, size) == Some(d));
    lemma_sum_exact(a, b);
    lemma_difference_exact(s, b);
    let pa = a.signed_num();
    let qa = a.den;
    let pb = b.signed_num();
    let qb = b.den;
    let ps = s.signed_num();
    let qs = s.den;
    // d = s - b, and s = a + b
    lemma_same_fraction_sum(ps, qs, pa * qb + pb * qa, qa * qb, -pb, qb, -pb, qb);
    assert(ps * qb + (-pb) * qs == ps * qb - pb * qs) by (nonlinear_arith);
    let n = (pa * qb + pb * qa) * qb + (-pb) * (qa * qb);
    let e = (qa * qb) * qb;
    assert(qs * qb != 0 && e != 0) by (nonlinear_arith)
        requires
            qs != 0,
            qb != 0,
            qa != 0,
            e == (qa * qb) * qb,
    ;
    lemma_same_fraction_transitive(d.signed_num(), d.den, ps * qb - pb * qs, qs * qb, n, e);
    assert(same_fraction(n, e, pa, qa)) by {
        assert(n * qa == pa * e) by (nonlinear_arith)
            requires
                n == (pa * qb + pb * qa) * qb + (-pb) * (qa * qb),
                e == (qa * qb) * qb,
        ;
    }
    lemma_same_fraction_transitive(d.signed_num(), d.den, n, e, pa, qa);
    if a.num == 0 {
        assert(d.num == 0) by (nonlinear_arith)
            requires
                d.signed_num() * qa == 0 * d.den,
                qa > 0,
                d.signed_num() == d.num || d.signed_num() == -d.num,
        ;
    }
    lemma_same_value_is_equal(d, a);
}

/// Dividing by a number and multiplying by it again gives back the number one
/// started from: `(a / b) * b == a` for `b` that is not zero. This holds where
/// neither product has to drop digits to be brought back to `size` digits.
pub proof fn lemma_div_then_mul(a: Ratio, b: Ratio, size: nat)
    requires
        a.den != 0,
        b.den != 0,
        b.num != 0,
        a.fits(size),
        b.fits(size),
        a.product_wide(b.reciprocal()).fits(size),
        a.product_wide(b.reciprocal()).reduced().product_wide(b).fits(size),
    ensures
        a.quotient(b, size) == Some(a.product_wide(b.reciprocal()).reduced()),
        a.quotient(b, size)->Some_0.product(b, size) == a.product_wide(
            b.reciprocal(),
        ).reduced().product_wide(b).reduced(),
        a.quotient(b, size)->Some_0.product(b, size).equals(a),
{
    assert(size >= 1) by {
        if size == 0 {
            assert(radix_pow(0) == 1);
        }
    }
    let w1 = a.product_wide(b.reciprocal());
    let q = w1.reduced();
    let w2 = q.product_wide(b);
    let r = w2.reduced();
    lemma_resized_keeps_what_fits(w1, size);
    lemma_resized_keeps_what_fits(w2, size);
    let qa = a.den;
    let pb = b.num;
    let qb = b.den;
    assert(w1.den != 0) by (nonlinear_arith)
        requires
            w1.den == qa * pb,
            qa != 0,
            pb != 0,
    ;
    lemma_reduced_same_value(w1);
    assert(w2.den != 0) by (nonlinear_arith)
        requires
            w2.den == q.den * qb,
            q.den != 0,
            qb != 0,
    ;
    lemma_reduced_same_value(w2);
    // magnitudes: r = q * b, and q = a / b
    lemma_same_fraction_product(
        q.num as int,
        q.den,
        w1.num as int,
        w1.den,
        pb as int,
        qb,
        pb as int,
        qb,
    );
    let n = w1.num * pb;
    let e = w1.den * qb;
    assert(e != 0) by (nonlinear_arith)
        requires
            e == w1.den * qb,
            w1.den != 0,
            qb != 0,
    ;
    lemma_same_fraction_transitive(r.num as int, r.den, w2.num as int, w2.den, n as int, e);
    assert(same_fraction(n as int, e, a.num as int, qa)) by {
        assert(n * qa == a.num * e) by (nonlinear_arith)
            requires
                n == (a.num * qb) * pb,
                e == (qa * pb) * qb,
        ;
    }
    lemma_same_fraction_transitive(r.num as int, r.den, n as int, e, a.num as int, qa);
    assert(r.sign == a.sign);
    let rs = r.signed_num();
    let sa = a.signed_num();
    assert(rs * qa == sa * r.den) by (nonlinear_arith)
        requires
            r.num * qa == a.num * r.den,
            (rs == r.num && sa == a.num) || (rs == -r.num && sa == -a.num),
    ;
    lemma_same_value_is_equal(r, a);
}

} // verus!
