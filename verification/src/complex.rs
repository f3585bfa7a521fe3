//! Complex numbers over any type that can be added, subtracted and multiplied.

use core::ops::{Add, Mul, Sub};
use vstd::prelude::*;
use vstd::std_specs::ops::{AddSpec, AddSpecImpl, MulSpec, MulSpecImpl, SubSpec};

verus! {

/// A complex number with real part `r` and imaginary part `i`.
#[derive(Clone, Copy, Debug)]
pub struct Complex<T> {
    /// The real part.
    pub r: T,
    /// The imaginary part.
    pub i: T,
}

impl<T: Add<Output = T> + Mul<Output = T> + Copy> Complex<T> {
    /// The square of the absolute value, `r*r + i*i`.
    pub fn abs_squared(self) -> (out: T)
        requires
            T::obeys_add_spec(),
            T::obeys_mul_spec(),
            self.r.mul_req(self.r),
            self.i.mul_req(self.i),
            self.r.mul_spec(self.r).add_req(self.i.mul_spec(self.i)),
        ensures
            out == self.r.mul_spec(self.r).add_spec(self.i.mul_spec(self.i)),
    {
        self.r * self.r + self.i * self.i
    }
}

impl<T: Add<Output = T>> Add for Complex<T> {
    type Output = Self;

    /// The sum, part by part.
    fn add(self, rhs: Self) -> (out: Self) {
        Complex { r: self.r + rhs.r, i: self.i + rhs.i }
    }
}

impl<T: Add<Output = T>> AddSpecImpl for Complex<T> {
    open spec fn obeys_add_spec() -> bool {
        T::obeys_add_spec()
    }

    open spec fn add_req(self, rhs: Self) -> bool {
        self.r.add_req(rhs.r) && self.i.add_req(rhs.i)
    }

    open spec fn add_spec(self, rhs: Self) -> Self {
        Complex { r: self.r.add_spec(rhs.r), i: self.i.add_spec(rhs.i) }
    }
}

impl<T: Mul<Output = T> + Add<Output = T> + Sub<Output = T> + Copy> Mul for Complex<T> {
    type Output = Self;

    /// The product: with `j` for the imaginary unit,
    /// `(a + b*j)(x + y*j) = (a*x - b*y) + (b*x + a*y)*j`.
    fn mul(self, rhs: Self) -> (out: Self) {
        Complex { r: self.r * rhs.r - self.i * rhs.i, i: self.i * rhs.r + self.r * rhs.i }
    }
}

impl<T: Mul<Output = T> + Add<Output = T> + Sub<Output = T> + Copy> MulSpecImpl for Complex<T> {
    open spec fn obeys_mul_spec() -> bool {
        T::obeys_add_spec() && T::obeys_sub_spec() && T::obeys_mul_spec()
    }

    open spec fn mul_req(self, rhs: Self) -> bool {
        &&& T::obeys_mul_spec()
        &&& self.r.mul_req(rhs.r)
        &&& self.i.mul_req(rhs.i)
        &&& self.i.mul_req(rhs.r)
        &&& self.r.mul_req(rhs.i)
        &&& self.r.mul_spec(rhs.r).sub_req(self.i.mul_spec(rhs.i))
        &&& self.i.mul_spec(rhs.r).add_req(self.r.mul_spec(rhs.i))
    }

    open spec fn mul_spec(self, rhs: Self) -> Self {
        Complex {
            r: self.r.mul_spec(rhs.r).sub_spec(self.i.mul_spec(rhs.i)),
            i: self.i.mul_spec(rhs.r).add_spec(self.r.mul_spec(rhs.i)),
        }
    }
}

} // verus!
