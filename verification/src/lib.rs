//! Fixed-width signed integers in two's-complement form, built over an
//! external fixed-width unsigned word type (`ruint::Uint`).
//!
//! The word type supplies carry-aware unsigned arithmetic, radix parsing and
//! byte conversions; everything signed — overflow detection, sign-magnitude
//! decomposition, truncating and Euclidean division, shifts, parsing and
//! formatting — lives here and is verified against a mathematical model of
//! the word as a little-endian sequence of 64-bit limbs.

pub mod aliases;
pub mod errors;
pub mod laws;
pub mod model;
pub mod sign;
pub mod signed;
pub mod text;
pub mod words;
