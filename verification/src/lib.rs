//! Fixed-width unsigned integers of many digits, and rational numbers over them.

pub mod complex;
pub mod error;
pub mod limbs;
pub mod rational;
pub mod sign;
pub mod uint;

pub use complex::Complex;
pub use error::ArithmeticError;
pub use limbs::compare::Comparison;
pub use rational::Rational;
pub use sign::Sign;
pub use uint::Uint;
