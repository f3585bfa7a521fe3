//! Rational numbers from the machine's integers.

use vstd::prelude::*;
use crate::rational::model::Ratio;
use crate::rational::Rational;
use crate::sign::Sign;
use crate::uint::Uint;

verus! {

/// The magnitude of a number.
pub open spec fn magnitude(v: int) -> nat {
    if v < 0 {
        (-v) as nat
    } else {
        v as nat
    }
}

/// The sign of a number; zero counts as positive.
pub open spec fn sign_of(v: int) -> Sign {
    if v < 0 {
        Sign::Neg
    } else {
        Sign::Pos
    }
}

/// The whole number `v` as a ratio over one.
pub open spec fn whole(v: int) -> Ratio {
    Ratio { sign: sign_of(v), num: magnitude(v), den: 1 }
}

/// The magnitude of `v`, which always fits the unsigned type of the same width.
fn unsigned_magnitude(v: i128) -> (r: u128)
    ensures
        r == magnitude(v as int),
{
    if v == i128::MIN {
        0x8000_0000_0000_0000_0000_0000_0000_0000u128
    } else if v < 0 {
        (-v) as u128
    } else {
        v as u128
    }
}

impl<const S: usize> Rational<S> {
    /// The whole number `v`.
    pub fn from_u8(v: u8) -> (r: Self)
        requires
            S >= 1,
        ensures
            r@ == whole(v as int),
    {
        Rational { sign: Sign::Pos, num: Uint::from_u8(v), den: Uint::from_u32(1) }
    }

    /// The whole number `v`.
    pub fn from_u16(v: u16) -> (r: Self)
        requires
            S >= 1,
        ensures
            r@ == whole(v as int),
    {
        Rational { sign: Sign::Pos, num: Uint::from_u16(v), den: Uint::from_u32(1) }
    }

    /// The whole number `v`.
    pub fn from_u32(v: u32) -> (r: Self)
        requires
            S >= 1,
        ensures
            r@ == whole(v as int),
    {
        Rational { sign: Sign::Pos, num: Uint::from_u32(v), den: Uint::from_u32(1) }
    }

    /// The whole number `v`.
    pub fn from_u64(v: u64) -> (r: Self)
        requires
            S >= 2,
        ensures
            r@ == whole(v as int),
    {
        Rational { sign: Sign::Pos, num: Uint::from_u64(v), den: Uint::from_u32(1) }
    }

    /// The whole number `v`.
    pub fn from_u128(v: u128) -> (r: Self)
        requires
            S >= 4,
        ensures
            r@ == whole(v as int),
    {
        Rational { sign: Sign::Pos, num: Uint::from_u128(v), den: Uint::from_u32(1) }
    }

    /// The whole number `v`: its magnitude as the numerator, with its sign.
    pub fn from_i8(v: i8) -> (r: Self)
        requires
            S >= 1,
        ensures
            r@ == whole(v as int),
    {
        Rational {
            sign: if v < 0 {
                Sign::Neg
            } else {
                Sign::Pos
            },
            num: Uint::from_u8(unsigned_magnitude(v as i128) as u8),
            den: Uint::from_u32(1),
        }
    }

    /// The whole number `v`: its magnitude as the numerator, with its sign.
    pub fn from_i16(v: i16) -> (r: Self)
        requires
            S >= 1,
        ensures
            r@ == whole(v as int),
    {
        Rational {
            sign: if v < 0 {
                Sign::Neg
            } else {
                Sign::Pos
            },
            num: Uint::from_u16(unsigned_magnitude(v as i128) as u16),
            den: Uint::from_u32(1),
        }
    }

    /// The whole number `v`: its magnitude as the numerator, with its sign.
    pub fn from_i32(v: i32) -> (r: Self)
        requires
            S >= 1,
        ensures
            r@ == whole(v as int),
    {
        Rational {
            sign: if v < 0 {
                Sign::Neg
            } else {
                Sign::Pos
            },
            num: Uint::from_u32(unsigned_magnitude(v as i128) as u32),
            den: Uint::from_u32(1),
        }
    }

    /// The whole number `v`: its magnitude as the numerator, with its sign.
    pub fn from_i64(v: i64) -> (r: Self)
        requires
            S >= 2,
        ensures
            r@ == whole(v as int),
    {
        Rational {
            sign: if v < 0 {
                Sign::Neg
            } else {
                Sign::Pos
            },
            num: Uint::from_u64(unsigned_magnitude(v as i128) as u64),
            den: Uint::from_u32(1),
        }
    }

    /// The whole number `v`: its magnitude as the numerator, with its sign.
    pub fn from_i128(v: i128) -> (r: Self)
        requires
            S >= 4,
        ensures
            r@ == whole(v as int),
    {
        Rational {
            sign: if v < 0 {
                Sign::Neg
            } else {
                Sign::Pos
            },
            num: Uint::from_u128(unsigned_magnitude(v)),
            den: Uint::from_u32(1),
        }
    }
}

} // verus!
