//! Named widths of the signed integer type, one for each bit width the
//! tests and typical callers use. The second parameter is the limb count,
//! `ceil(bits / 64)`.

use crate::signed::Signed;
use vstd::prelude::*;

verus! {

/// Zero bits: the only inhabitant is zero.
pub type I0 = Signed<0, 0>;

/// One bit: the inhabitants are zero and minus one.
pub type I1 = Signed<1, 1>;

/// 96 bits.
pub type I96 = Signed<96, 2>;

/// 128 bits.
pub type I128 = Signed<128, 2>;

/// 160 bits.
pub type I160 = Signed<160, 3>;

/// 192 bits.
pub type I192 = Signed<192, 3>;

/// 256 bits.
pub type I256 = Signed<256, 4>;

} // verus!
