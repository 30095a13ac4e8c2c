//! Exact decimal rounding for reporting a measured value with its uncertainty.
//!
//! - [`digit`]: signs, base-ten digits, and digit sequences read as unsigned integers.
//! - [`digits`]: finite decimal numbers as digits and a dot, with rounding to a digit or a
//!   place, parsing and rendering.
//! - [`rounding`]: a value and its uncertainty rounded to one or two significant figures.
//! - [`err`]: the error types.

pub mod digit;
pub mod digits;
pub mod err;
pub mod rounding;
