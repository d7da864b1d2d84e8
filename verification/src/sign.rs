//! The sign of a signed integer.

use vstd::prelude::*;

verus! {

/// Direction of a signed value. `Positive` is the multiplicative identity;
/// `Negative` is its own inverse. Zero reports `Positive` by convention.
#[derive(Clone, Copy, Debug, PartialEq, Eq, Hash, Structural)]
pub enum Sign {
    /// Greater than or equal to zero.
    Positive,
    /// Less than zero.
    Negative,
}

impl Sign {
    /// The sign of a product: equal signs give `Positive`, unequal signs
    /// give `Negative`.
    pub fn product(self, other: Sign) -> (r: Sign)
        ensures
            r == (if self == other {
                Sign::Positive
            } else {
                Sign::Negative
            }),
    {
        match (self, other) {
            (Sign::Positive, Sign::Positive) => Sign::Positive,
            (Sign::Negative, Sign::Negative) => Sign::Positive,
            _ => Sign::Negative,
        }
    }

    /// The opposite sign.
    pub fn flipped(self) -> (r: Sign)
        ensures
            r != self,
    {
        match self {
            Sign::Positive => Sign::Negative,
            Sign::Negative => Sign::Positive,
        }
    }

    /// Whether this is `Negative`.
    pub fn is_negative(self) -> (r: bool)
        ensures
            r == (self == Sign::Negative),
    {
        matches!(self, Sign::Negative)
    }

    /// Whether this is `Positive`.
    pub fn is_positive(self) -> (r: bool)
        ensures
            r == (self == Sign::Positive),
    {
        matches!(self, Sign::Positive)
    }

    /// The string this sign prefixes a magnitude with: empty for `Positive`,
    /// `"-"` for `Negative`.
    pub fn as_prefix(self) -> (r: &'static str)
        ensures
            self == Sign::Positive ==> r@ == Seq::<char>::empty(),
            self == Sign::Negative ==> r@ == seq!['-'],
    {
        proof {
            reveal_strlit("");
            reveal_strlit("-");
        }
        match self {
            Sign::Positive => "",
            Sign::Negative => "-",
        }
    }

    /// The prefix in "show plus" mode: `"+"` for `Positive`, `"-"` for
    /// `Negative`.
    pub fn as_prefix_with_plus(self) -> (r: &'static str)
        ensures
            self == Sign::Positive ==> r@ == seq!['+'],
            self == Sign::Negative ==> r@ == seq!['-'],
    {
        proof {
            reveal_strlit("+");
            reveal_strlit("-");
        }
        match self {
            Sign::Positive => "+",
            Sign::Negative => "-",
        }
    }
}

} // verus!
