//! Fractions whose width is chosen at run time: the working form in which
//! rational numbers of fixed width are widened, combined and narrowed again.

use vstd::prelude::*;
use crate::limbs::{copy_digits, radix_pow, resize, significant_digits, value_of};
use crate::limbs::compare::{equal, is_zero};
use crate::limbs::div::div_rem;
use crate::limbs::gcd::gcd_binary;
use crate::limbs::lemmas::{
    lemma_radix_pow_adds,
    lemma_radix_pow_monotonic,
    lemma_radix_pow_positive,
    lemma_value_bound,
    lemma_significant_len_bounds,
};
use crate::limbs::shift::shift_right_digits;
use crate::rational::model::{
    digit_count,
    lemma_digit_count_bounds,
    lemma_significant_len_is_digit_count,
    Ratio,
};
use crate::sign::Sign;

verus! {

/// A sign, a numerator and a denominator, the two of one length in digits.
pub struct Fraction {
    /// The sign.
    pub sign: Sign,
    /// The digits of the numerator, most significant first.
    pub num: Vec<u32>,
    /// The digits of the denominator, most significant first.
    pub den: Vec<u32>,
}

impl View for Fraction {
    type V = Ratio;

    open spec fn view(&self) -> Ratio {
        Ratio { sign: self.sign, num: value_of(self.num@), den: value_of(self.den@) }
    }
}

/// A number below `radix()^(a + b)`, without its `a` low digits, is below
/// `radix()^b`.
proof fn lemma_shifted_fits(v: nat, a: nat, b: nat)
    requires
        v < radix_pow(a + b),
    ensures
        v / radix_pow(a) < radix_pow(b),
{
    lemma_radix_pow_adds(a, b);
    lemma_radix_pow_positive(a);
    let p = radix_pow(a);
    let q = radix_pow(b);
    vstd::arithmetic::div_mod::lemma_fundamental_div_mod(v as int, p as int);
    let h = v / p;
    assert(h < q) by (nonlinear_arith)
        requires
            v == p * h + v % p,
            v % p >= 0,
            v < p * q,
            p >= 1,
    ;
}

impl Fraction {
    /// Numerator and denominator have one length.
    pub open spec fn wf(&self) -> bool {
        self.num@.len() == self.den@.len()
    }

    /// The length of numerator and denominator in digits.
    pub open spec fn width(&self) -> nat {
        self.num@.len()
    }

    /// Brings the fraction to `size` digits. Where numerator or denominator has
    /// more significant digits than that, both are first moved down by the
    /// excess, which rounds the ratio to whole digits.
    pub fn resized(&self, size: usize) -> (r: Fraction)
        requires
            self.wf(),
        ensures
            r.wf(),
            r.width() == size,
            r@ == self@.resized(size as nat),
    {
        let n = self.num.len();
        proof {
            lemma_value_bound(self.num@);
            lemma_value_bound(self.den@);
            lemma_digit_count_bounds(self@.num);
            lemma_digit_count_bounds(self@.den);
            lemma_radix_pow_positive(size as nat);
            if n >= 1 {
                lemma_significant_len_is_digit_count(self.num@);
                lemma_significant_len_is_digit_count(self.den@);
                lemma_significant_len_bounds(self.num@);
                lemma_significant_len_bounds(self.den@);
            } else {
                assert(self@.num == 0 && self@.den == 0);
                if self@.digits() > size {
                    let excess = (self@.digits() - size) as nat;
                    lemma_radix_pow_positive(excess);
                    vstd::arithmetic::div_mod::lemma_div_of0(radix_pow(excess) as int);
                }
            }
        }
        if size < n {
            let sig_num = significant_digits(self.num.as_slice());
            let sig_den = significant_digits(self.den.as_slice());
            let sig = if sig_num >= sig_den {
                sig_num
            } else {
                sig_den
            };
            if size < sig {
                // round down, to whole digits
                let excess = sig - size;
                let num = shift_right_digits(self.num.as_slice(), excess);
                let den = shift_right_digits(self.den.as_slice(), excess);
                proof {
                    lemma_radix_pow_monotonic(sig_num as nat, sig as nat);
                    lemma_radix_pow_monotonic(sig_den as nat, sig as nat);
                    lemma_shifted_fits(self@.num, excess as nat, size as nat);
                    lemma_shifted_fits(self@.den, excess as nat, size as nat);
                    vstd::arithmetic::div_mod::lemma_small_mod(
                        value_of(num@),
                        radix_pow(size as nat),
                    );
                    vstd::arithmetic::div_mod::lemma_small_mod(
                        value_of(den@),
                        radix_pow(size as nat),
                    );
                }
                return Fraction {
                    sign: self.sign,
                    num: resize(num.as_slice(), size),
                    den: resize(den.as_slice(), size),
                };
            }
        }
        proof {
            if n >= 1 {
                lemma_radix_pow_monotonic(digit_count(self@.num), size as nat);
                lemma_radix_pow_monotonic(digit_count(self@.den), size as nat);
            }
            vstd::arithmetic::div_mod::lemma_small_mod(self@.num, radix_pow(size as nat));
            vstd::arithmetic::div_mod::lemma_small_mod(self@.den, radix_pow(size as nat));
        }
        Fraction {
            sign: self.sign,
            num: resize(self.num.as_slice(), size),
            den: resize(self.den.as_slice(), size),
        }
    }

    /// Brings the fraction to lowest terms, by the binary greatest common
    /// divisor. A fraction of two zeros stays as it is.
    pub fn reduced(self) -> (r: Fraction)
        requires
            self.wf(),
        ensures
            r.wf(),
            r.width() == self.width(),
            r@ == self@.reduced(),
    {
        let divisor = gcd_binary(self.num.as_slice(), self.den.as_slice());
        if is_zero(divisor.as_slice()) {
            return self;
        }
        let (num, _) = div_rem(self.num.as_slice(), divisor.as_slice(), false);
        let (den, _) = div_rem(self.den.as_slice(), divisor.as_slice(), false);
        Fraction { sign: self.sign, num, den }
    }
}

/// Brings two fractions to one denominator: each numerator is multiplied by the
/// other's denominator, and both get the product of the denominators. Nothing is
/// done where the denominators are equal already. The fractions must fill at
/// most half their width each, so that the products fit.
pub fn to_same_denominator(a: &mut Fraction, b: &mut Fraction)
    requires
        old(a).wf(),
        old(b).wf(),
        old(a).width() == old(b).width(),
        old(a)@.fits(old(a).width() / 2),
        old(b)@.fits(old(a).width() / 2),
    ensures
        final(a).wf(),
        final(b).wf(),
        final(a).width() == old(a).width(),
        final(b).width() == old(a).width(),
        final(a)@ == (Ratio {
            sign: old(a).sign,
            num: old(a)@.scaled_num(old(b)@),
            den: old(a)@.common_den(old(b)@),
        }),
        final(b)@ == (Ratio {
            sign: old(b).sign,
            num: old(b)@.scaled_num(old(a)@),
            den: old(a)@.common_den(old(b)@),
        }),
{
    if equal(a.den.as_slice(), b.den.as_slice()) {
        return ;
    }
    proof {
        let w = a.width();
        let half = w / 2;
        let p = radix_pow(half);
        lemma_radix_pow_adds(half, half);
        lemma_radix_pow_monotonic(half + half, w);
        lemma_product_fits(a@.num, b@.den, p);
        lemma_product_fits(b@.num, a@.den, p);
        lemma_product_fits(a@.den, b@.den, p);
    }
    let a_num = crate::limbs::mul::mul(a.num.as_slice(), b.den.as_slice());
    let b_num = crate::limbs::mul::mul(b.num.as_slice(), a.den.as_slice());
    let den = crate::limbs::mul::mul(a.den.as_slice(), b.den.as_slice());
    match (a_num, b_num, den) {
        (Some(x), Some(y), Some(d)) => {
            a.num = x;
            b.num = y;
            a.den = copy_digits(d.as_slice());
            b.den = d;
        },
        _ => {},
    }
}

/// The product of two numbers below `p` is below `p * p`.
proof fn lemma_product_fits(x: nat, y: nat, p: nat)
    requires
        x < p,
        y < p,
    ensures
        x * y < p * p,
{
    assert(x * y < p * p) by (nonlinear_arith)
        requires
            x < p,
            y < p,
    ;
}

} // verus!
