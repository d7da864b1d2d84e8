//! Errors reported by fallible conversions and parsers.

use vstd::prelude::*;

verus! {

/// Error from parsing a decimal or hexadecimal string.
#[derive(Clone, Copy, Debug, PartialEq, Eq)]
pub enum ParseSignedError {
    /// The word parser rejected the digit string; carries its error.
    Ruint(ruint::ParseError),
    /// The parsed magnitude, combined with its sign, does not fit the width.
    IntegerOverflow,
}

/// Error from a value-preserving conversion between a native integer and a
/// fixed-width signed integer whose value would not be preserved.
#[derive(Clone, Copy, Debug, PartialEq, Eq, Structural)]
pub struct BigIntConversionError;

} // verus!
