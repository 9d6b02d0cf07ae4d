//! Verified helpers for media plugins.
//!
//! - [`utils`]: the greatest common divisor of two numbers, the approximation
//!   of a binary64 value by a fraction of two 32-bit integers, and two small
//!   types of the media framework's C interface.
//! - [`rgb2grey`]: the conversion of BGRx video frames to grey.
//! - [`continued_fraction`], [`binary64`], [`number_theory`], [`rational`]:
//!   what the approximation is defined by and computed with.

pub mod binary64;
pub mod continued_fraction;
pub mod number_theory;
pub mod rational;
pub mod rgb2grey;
pub mod utils;
