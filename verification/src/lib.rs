//! Software IEEE-754 binary64 arithmetic on raw bit patterns.
//!
//! Every operation is a total, deterministic function from 64-bit encodings to
//! a 64-bit encoding, built from integer shifts, masks and multiplication only.

pub mod add;
pub mod div;
pub mod laws;
pub mod mul;
pub mod reciprocal;
pub mod rounding;
pub mod soft_f64;
pub mod sticky;
pub mod widen;

pub use soft_f64::SoftF64;
