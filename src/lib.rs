//! Fixed-point scaled-decimal prices: a signed raw integer scaled by 10^9 together
//! with a decimal precision tag, with exact construction, parsing, formatting and
//! checked arithmetic.

pub mod error;
pub mod fixed;
pub mod laws;
pub mod outside;
pub mod price;
pub mod text;
