//! Parsing, reduction and solving of polynomial equations in one variable.
//!
//! Coefficients are exact decimals held as whole millionths (see
//! [`poly::UNIT`]), so that cancellation is exact and every step can be
//! stated over integers.

pub mod poly;
pub mod reduce;
pub mod parse;
pub mod format;
pub mod solve;
