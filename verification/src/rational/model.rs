//! What a rational number of fixed width is, and what each operation on it
//! yields, stated over natural numbers.

use vstd::prelude::*;
use crate::limbs::{radix, radix_pow, significant_len, value_of};
use crate::limbs::compare::{compare_values, Comparison};
use crate::limbs::gcd::gcd;
use crate::limbs::lemmas::{lemma_radix_pow_monotonic, lemma_significant_len_bounds};
use crate::sign::Sign;

verus! {

/// The count of digits of `v` to the radix `radix()`; 1 for zero.
pub open spec fn digit_count(v: nat) -> nat
    decreases v,
{
    if v < radix() {
        1
    } else {
        1 + digit_count(v / radix())
    }
}

/// A number with `k` digits lies between `radix()^(k - 1)` and `radix()^k`.
pub proof fn lemma_digit_count_bounds(v: nat)
    ensures
        digit_count(v) >= 1,
        v < radix_pow(digit_count(v)),
        v != 0 ==> radix_pow((digit_count(v) - 1) as nat) <= v,
    decreases v,
{
    crate::limbs::lemmas::lemma_radix_pow_one();
    if v >= radix() {
        let h = v / radix();
        lemma_digit_count_bounds(h);
        let k = digit_count(h);
        vstd::arithmetic::div_mod::lemma_fundamental_div_mod(v as int, radix() as int);
        assert(radix_pow(k + 1) == radix() * radix_pow(k));
        assert(radix_pow(k) == radix() * radix_pow((k - 1) as nat));
        assert(v < radix() * radix_pow(k)) by (nonlinear_arith)
            requires
                v == radix() * h + v % radix(),
                v % radix() < radix(),
                h < radix_pow(k),
        ;
        assert(radix() * radix_pow((k - 1) as nat) <= v) by (nonlinear_arith)
            requires
                v == radix() * h + v % radix(),
                v % radix() >= 0,
                radix_pow((k - 1) as nat) <= h,
        ;
    }
}

/// A number between `radix()^(k - 1)` and `radix()^k` has `k` digits.
pub proof fn lemma_digit_count_unique(v: nat, k: nat)
    requires
        k >= 1,
        v < radix_pow(k),
        v != 0 ==> radix_pow((k - 1) as nat) <= v,
        v == 0 ==> k == 1,
    ensures
        digit_count(v) == k,
{
    lemma_digit_count_bounds(v);
    let c = digit_count(v);
    if v != 0 {
        if c < k {
            lemma_radix_pow_monotonic(c, (k - 1) as nat);
        } else if c > k {
            lemma_radix_pow_monotonic(k, (c - 1) as nat);
        }
    }
}

/// The count of significant digits of a string is the count of digits of its
/// value.
pub proof fn lemma_significant_len_is_digit_count(s: Seq<u32>)
    requires
        s.len() >= 1,
    ensures
        significant_len(s) == digit_count(value_of(s)),
{
    lemma_significant_len_bounds(s);
    crate::limbs::lemmas::lemma_leading_index(s);
    crate::limbs::lemmas::lemma_value_zero_iff(s);
    lemma_digit_count_unique(value_of(s), significant_len(s));
}

/// A rational number as a sign and two natural numbers. A denominator of zero
/// denotes no number; the operations are stated for it all the same.
pub struct Ratio {
    /// The sign.
    pub sign: Sign,
    /// The numerator.
    pub num: nat,
    /// The denominator.
    pub den: nat,
}

impl Ratio {
    /// The larger of the digit counts of numerator and denominator.
    pub open spec fn digits(self) -> nat {
        if digit_count(self.num) >= digit_count(self.den) {
            digit_count(self.num)
        } else {
            digit_count(self.den)
        }
    }

    /// Whether numerator and denominator fit in `size` digits.
    pub open spec fn fits(self, size: nat) -> bool {
        self.num < radix_pow(size) && self.den < radix_pow(size)
    }

    /// The ratio brought to `size` digits. Where numerator or denominator has
    /// more, both lose as many low digits as the longer of them has too many:
    /// the ratio stays about the same, to the precision of whole digits.
    pub open spec fn resized(self, size: nat) -> Ratio {
        if self.digits() > size {
            let excess = (self.digits() - size) as nat;
            Ratio {
                sign: self.sign,
                num: self.num / radix_pow(excess),
                den: self.den / radix_pow(excess),
            }
        } else {
            self
        }
    }

    /// The ratio in lowest terms: numerator and denominator divided by their
    /// greatest common divisor, unless that is zero.
    pub open spec fn reduced(self) -> Ratio {
        let g = gcd(self.num, self.den);
        if g == 0 {
            self
        } else {
            Ratio { sign: self.sign, num: self.num / g, den: self.den / g }
        }
    }

    /// The numerator of `self` over the denominator that `self` and `other` are
    /// brought to: its own where the denominators are equal, else multiplied by
    /// the denominator of `other`.
    pub open spec fn scaled_num(self, other: Ratio) -> nat {
        if self.den == other.den {
            self.num
        } else {
            self.num * other.den
        }
    }

    /// The denominator that `self` and `other` are brought to: their own where
    /// they are equal, else their product.
    pub open spec fn common_den(self, other: Ratio) -> nat {
        if self.den == other.den {
            self.den
        } else {
            self.den * other.den
        }
    }

    /// Equality: the signs are the same and so are the numerators over the
    /// common denominator.
    pub open spec fn equals(self, other: Ratio) -> bool {
        self.sign == other.sign && self.scaled_num(other) == other.scaled_num(self)
    }

    /// How `self` stands to `other`: the sign decides first, then the numerators
    /// over the common denominator, the other way round for negative numbers.
    pub open spec fn compare(self, other: Ratio) -> Comparison {
        if self.sign != other.sign {
            if self.sign == Sign::Neg {
                Comparison::Less
            } else {
                Comparison::Greater
            }
        } else if self.sign == Sign::Neg {
            compare_values(other.scaled_num(self), self.scaled_num(other))
        } else {
            compare_values(self.scaled_num(other), other.scaled_num(self))
        }
    }

    /// The numerator with the sign applied.
    pub open spec fn signed_num(self) -> int {
        if self.sign == Sign::Neg {
            -(self.num as int)
        } else {
            self.num as int
        }
    }

    /// Whether two ratios denote one number: their signed numerators agree over
    /// the product of the denominators.
    pub open spec fn same_value(self, other: Ratio) -> bool {
        self.signed_num() * other.den == other.signed_num() * self.den
    }

    /// The same magnitude with the given sign.
    pub open spec fn with_sign(self, sign: Sign) -> Ratio {
        Ratio { sign, num: self.num, den: self.den }
    }

    /// The sum of two ratios taken as positive, over the common denominator and
    /// in lowest terms.
    pub open spec fn add_positive_exact(self, other: Ratio) -> Ratio {
        Ratio {
            sign: Sign::Pos,
            num: self.scaled_num(other) + other.scaled_num(self),
            den: self.common_den(other),
        }.reduced()
    }

    /// The sum of two ratios taken as positive, at `size` digits: formed over
    /// the common denominator at twice the width, reduced, then brought back to
    /// `size` digits. `None` where the sum of the numerators does not fit twice
    /// the width.
    pub open spec fn add_positive(self, other: Ratio, size: nat) -> Option<Ratio> {
        if self.scaled_num(other) + other.scaled_num(self) >= radix_pow(2 * size) {
            None
        } else {
            Some(self.add_positive_exact(other).resized(size))
        }
    }

    /// The difference of two ratios taken as positive, over the common
    /// denominator and in lowest terms: the smaller is taken from the larger,
    /// and the result is negative where `other` is the larger.
    pub open spec fn sub_positive_exact(self, other: Ratio) -> Ratio {
        if other.scaled_num(self) > self.scaled_num(other) {
            Ratio {
                sign: Sign::Neg,
                num: (other.scaled_num(self) - self.scaled_num(other)) as nat,
                den: self.common_den(other),
            }.reduced()
        } else {
            Ratio {
                sign: Sign::Pos,
                num: (self.scaled_num(other) - other.scaled_num(self)) as nat,
                den: self.common_den(other),
            }.reduced()
        }
    }

    /// The difference of two ratios taken as positive, at `size` digits: formed
    /// at twice the width, reduced, then brought back to `size` digits.
    pub open spec fn sub_positive(self, other: Ratio, size: nat) -> Ratio {
        self.sub_positive_exact(other).resized(size)
    }

    /// The sum in lowest terms, by the signs of the operands, before it is
    /// brought back to any width.
    pub open spec fn sum_exact(self, other: Ratio) -> Ratio {
        match (self.sign, other.sign) {
            (Sign::Pos, Sign::Pos) => self.add_positive_exact(other),
            (Sign::Neg, Sign::Neg) => self.add_positive_exact(other).with_sign(Sign::Neg),
            (Sign::Pos, Sign::Neg) => self.sub_positive_exact(other),
            (Sign::Neg, Sign::Pos) => other.sub_positive_exact(self),
        }
    }

    /// The difference in lowest terms, by the signs of the operands, before it is
    /// brought back to any width.
    pub open spec fn difference_exact(self, other: Ratio) -> Ratio {
        match (self.sign, other.sign) {
            (Sign::Pos, Sign::Pos) => self.sub_positive_exact(other),
            (Sign::Neg, Sign::Neg) => other.sub_positive_exact(self),
            (Sign::Pos, Sign::Neg) => self.add_positive_exact(other),
            (Sign::Neg, Sign::Pos) => self.add_positive_exact(other).with_sign(Sign::Neg),
        }
    }

    /// The sum at `size` digits, by the signs of the operands; `None` where it
    /// overflows.
    pub open spec fn sum(self, other: Ratio, size: nat) -> Option<Ratio> {
        match (self.sign, other.sign) {
            (Sign::Pos, Sign::Pos) => self.add_positive(other, size),
            (Sign::Neg, Sign::Neg) => match self.add_positive(other, size) {
                Some(r) => Some(r.with_sign(Sign::Neg)),
                None => None,
            },
            (Sign::Pos, Sign::Neg) => Some(self.sub_positive(other, size)),
            (Sign::Neg, Sign::Pos) => Some(other.sub_positive(self, size)),
        }
    }

    /// The difference at `size` digits, by the signs of the operands; `None`
    /// where it overflows.
    pub open spec fn difference(self, other: Ratio, size: nat) -> Option<Ratio> {
        match (self.sign, other.sign) {
            (Sign::Pos, Sign::Pos) => Some(self.sub_positive(other, size)),
            (Sign::Neg, Sign::Neg) => Some(other.sub_positive(self, size)),
            (Sign::Pos, Sign::Neg) => self.add_positive(other, size),
            (Sign::Neg, Sign::Pos) => match self.add_positive(other, size) {
                Some(r) => Some(r.with_sign(Sign::Neg)),
                None => None,
            },
        }
    }

    /// The product as it is formed at twice the width: numerator times numerator
    /// over denominator times denominator.
    pub open spec fn product_wide(self, other: Ratio) -> Ratio {
        Ratio {
            sign: self.sign.product(other.sign),
            num: self.num * other.num,
            den: self.den * other.den,
        }
    }

    /// The product at `size` digits: formed at twice the width, brought back to
    /// `size` digits, then reduced.
    pub open spec fn product(self, other: Ratio, size: nat) -> Ratio {
        self.product_wide(other).resized(size).reduced()
    }

    /// Numerator and denominator exchanged.
    pub open spec fn reciprocal(self) -> Ratio {
        Ratio { sign: self.sign, num: self.den, den: self.num }
    }

    /// The quotient at `size` digits: the product with the reciprocal of `other`;
    /// `None` where the numerator of `other` is zero.
    pub open spec fn quotient(self, other: Ratio, size: nat) -> Option<Ratio> {
        if other.num == 0 {
            None
        } else {
            Some(self.product(other.reciprocal(), size))
        }
    }
}

} // verus!
