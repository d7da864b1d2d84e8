//! Trusted boundary to the external unsigned word type (`ruint::Uint`).
//!
//! The library stores a word as its plain array of little-endian `u64`
//! limbs. Each function here converts such an array to a `ruint::Uint`,
//! makes one call into `ruint`, and converts the result back. The contracts
//! state, over [`crate::model::uval`], what `ruint`'s source documents for
//! the call; Verus believes them without proof.
//!
//! Every function requires `word_ok`: the limb count matches the bit width
//! (`LIMBS == ceil(BITS / 64)`) and the value is reduced modulo `2^BITS`,
//! which is exactly the invariant `ruint::Uint::from_limbs` asserts (unused
//! high bits of the top limb are zero).

use crate::model::{full, limbs_for, uval};
use crate::text::{digits_of, digits_ok, digits_val};
use vstd::arithmetic::power2::pow2;
use vstd::prelude::*;

verus! {

/// Error type of `ruint`'s string parser, carried through opaquely.
#[verifier::external_type_specification]
#[verifier::external_body]
pub struct ExParseError(ruint::ParseError);

/// A limb array that `ruint::Uint::from_limbs` accepts for width `BITS`.
pub open spec fn word_ok(s: Seq<u64>, bits: nat) -> bool {
    &&& s.len() == limbs_for(bits)
    &&& uval(s) < full(bits)
}

/// Outcome of the word parser, with `ruint`'s overflow report told apart
/// from its digit errors; other errors keep the parser's own value.
pub enum WordStrError {
    /// The digit string is valid but its value does not fit the width.
    Overflow,
    /// The digit string is malformed; carries the parser's error.
    Digit(ruint::ParseError),
}

/// Relies on `ruint::Uint::from_str_radix` for radix 10 or 16 on the byte
/// tail of `s` after its first `skip` bytes: it accepts exactly strings of
/// case-insensitive digits of the radix with underscores ignored (an empty
/// tail reads as zero), and reports an overflow error when the digits are
/// valid but their value needs more than `BITS` bits. The skipped prefix
/// must be ASCII so that the byte tail is exactly the character tail.
#[verifier::external_body]
pub(crate) fn word_from_str_radix<const BITS: usize, const LIMBS: usize>(
    s: &str,
    skip: usize,
    radix: u64,
) -> (r: Result<[u64; LIMBS], WordStrError>)
    requires
        LIMBS == limbs_for(BITS as nat),
        radix == 10 || radix == 16,
        skip <= s@.len(),
        forall|i: int| 0 <= i < skip ==> (#[trigger] s@[i]) <= '\u{7f}',
    ensures
        (r is Ok) == (digits_ok(s@.skip(skip as int), radix as nat) && digits_val(
            s@.skip(skip as int),
            radix as nat,
        ) < full(BITS as nat)),
        r matches Ok(w) ==> word_ok(w@, BITS as nat) && uval(w@) == digits_val(
            s@.skip(skip as int),
            radix as nat,
        ),
        r matches Err(e) ==> ((digits_ok(s@.skip(skip as int), radix as nat) && digits_val(
            s@.skip(skip as int),
            radix as nat,
        ) >= full(BITS as nat)) ==> e == WordStrError::Overflow),
{
    match ruint::Uint::<BITS, LIMBS>::from_str_radix(&s[skip..], radix) {
        Ok(u) => Ok(u.into_limbs()),
        Err(ruint::ParseError::BaseConvertError(ruint::BaseConvertError::Overflow)) => Err(
            WordStrError::Overflow,
        ),
        Err(e) => Err(WordStrError::Digit(e)),
    }
}

/// Relies on `ruint::Uint`'s `Display` implementation: the minimal decimal
/// digits of the value, `"0"` for zero.
#[verifier::external_body]
pub(crate) fn word_to_dec_str<const BITS: usize, const LIMBS: usize>(a: &[u64; LIMBS]) -> (r:
    String)
    requires
        LIMBS == limbs_for(BITS as nat),
        word_ok(a@, BITS as nat),
    ensures
        r@ == digits_of(uval(a@), 10),
{
    format!("{}", ruint::Uint::<BITS, LIMBS>::from_limbs(*a))
}

/// Relies on `ruint::Uint`'s `LowerHex` implementation: the minimal
/// lower-case hexadecimal digits of the value, `"0"` for zero, without a
/// `0x` prefix.
#[verifier::external_body]
pub(crate) fn word_to_hex_str<const BITS: usize, const LIMBS: usize>(a: &[u64; LIMBS]) -> (r:
    String)
    requires
        LIMBS == limbs_for(BITS as nat),
        word_ok(a@, BITS as nat),
    ensures
        r@ == digits_of(uval(a@), 16),
{
    format!("{:x}", ruint::Uint::<BITS, LIMBS>::from_limbs(*a))
}

/// Relies on `ruint::Uint::ZERO`: the all-zero word.
#[verifier::external_body]
pub(crate) fn word_zero<const BITS: usize, const LIMBS: usize>() -> (r: [u64; LIMBS])
    requires
        LIMBS == limbs_for(BITS as nat),
    ensures
        word_ok(r@, BITS as nat),
        uval(r@) == 0,
{
    ruint::Uint::<BITS, LIMBS>::ZERO.into_limbs()
}

/// Relies on `ruint::Uint::ONE`: the unsigned value one, reduced modulo
/// `2^BITS` (zero when `BITS == 0`).
#[verifier::external_body]
pub(crate) fn word_one<const BITS: usize, const LIMBS: usize>() -> (r: [u64; LIMBS])
    requires
        LIMBS == limbs_for(BITS as nat),
    ensures
        word_ok(r@, BITS as nat),
        uval(r@) == if BITS == 0 {
            0nat
        } else {
            1nat
        },
{
    ruint::Uint::<BITS, LIMBS>::ONE.into_limbs()
}

/// Relies on `ruint::Uint::MAX`: the all-ones word, `2^BITS - 1`.
#[verifier::external_body]
pub(crate) fn word_max<const BITS: usize, const LIMBS: usize>() -> (r: [u64; LIMBS])
    requires
        LIMBS == limbs_for(BITS as nat),
    ensures
        word_ok(r@, BITS as nat),
        uval(r@) == (full(BITS as nat) - 1) as nat,
{
    ruint::Uint::<BITS, LIMBS>::MAX.into_limbs()
}

/// Relies on `ruint::Uint::overflowing_add`: the sum modulo `2^BITS`, with
/// the carry-out as the flag.
#[verifier::external_body]
pub(crate) fn word_overflowing_add<const BITS: usize, const LIMBS: usize>(
    a: &[u64; LIMBS],
    b: &[u64; LIMBS],
) -> (r: ([u64; LIMBS], bool))
    requires
        word_ok(a@, BITS as nat),
        word_ok(b@, BITS as nat),
    ensures
        word_ok(r.0@, BITS as nat),
        uval(r.0@) == (uval(a@) + uval(b@)) % full(BITS as nat),
        r.1 == (uval(a@) + uval(b@) >= full(BITS as nat)),
{
    let (s, o) = ruint::Uint::<BITS, LIMBS>::from_limbs(*a).overflowing_add(
        ruint::Uint::from_limbs(*b),
    );
    (s.into_limbs(), o)
}

/// Relies on `ruint::Uint::overflowing_sub`: the difference modulo `2^BITS`,
/// with the borrow as the flag.
#[verifier::external_body]
pub(crate) fn word_overflowing_sub<const BITS: usize, const LIMBS: usize>(
    a: &[u64; LIMBS],
    b: &[u64; LIMBS],
) -> (r: ([u64; LIMBS], bool))
    requires
        word_ok(a@, BITS as nat),
        word_ok(b@, BITS as nat),
    ensures
        word_ok(r.0@, BITS as nat),
        uval(r.0@) == (uval(a@) - uval(b@)) % (full(BITS as nat) as int),
        r.1 == (uval(a@) < uval(b@)),
{
    let (s, o) = ruint::Uint::<BITS, LIMBS>::from_limbs(*a).overflowing_sub(
        ruint::Uint::from_limbs(*b),
    );
    (s.into_limbs(), o)
}

/// Relies on `ruint::Uint::overflowing_mul`: the product modulo `2^BITS`,
/// flagged when the true product does not fit.
#[verifier::external_body]
pub(crate) fn word_overflowing_mul<const BITS: usize, const LIMBS: usize>(
    a: &[u64; LIMBS],
    b: &[u64; LIMBS],
) -> (r: ([u64; LIMBS], bool))
    requires
        word_ok(a@, BITS as nat),
        word_ok(b@, BITS as nat),
    ensures
        word_ok(r.0@, BITS as nat),
        uval(r.0@) == (uval(a@) * uval(b@)) % full(BITS as nat),
        r.1 == (uval(a@) * uval(b@) >= full(BITS as nat)),
{
    let (p, o) = ruint::Uint::<BITS, LIMBS>::from_limbs(*a).overflowing_mul(
        ruint::Uint::from_limbs(*b),
    );
    (p.into_limbs(), o)
}

/// Relies on `ruint::Uint::wrapping_neg`: the additive inverse modulo
/// `2^BITS`, i.e. the two's complement `(~x) + 1` of the word.
#[verifier::external_body]
pub(crate) fn word_wrapping_neg<const BITS: usize, const LIMBS: usize>(a: &[u64; LIMBS]) -> (r: [
    u64;
    LIMBS
])
    requires
        word_ok(a@, BITS as nat),
    ensures
        word_ok(r@, BITS as nat),
        uval(r@) == (full(BITS as nat) - uval(a@)) % (full(BITS as nat) as int),
{
    ruint::Uint::<BITS, LIMBS>::from_limbs(*a).wrapping_neg().into_limbs()
}

/// Relies on `ruint::Uint::not`: the bitwise complement, `2^BITS - 1 - x`.
#[verifier::external_body]
pub(crate) fn word_not<const BITS: usize, const LIMBS: usize>(a: &[u64; LIMBS]) -> (r: [
    u64;
    LIMBS
])
    requires
        word_ok(a@, BITS as nat),
    ensures
        word_ok(r@, BITS as nat),
        uval(r@) == (full(BITS as nat) - 1 - uval(a@)) as nat,
{
    ruint::Uint::<BITS, LIMBS>::from_limbs(*a).not().into_limbs()
}

/// Relies on `ruint::Uint::div_rem`: Euclidean quotient and remainder of the
/// unsigned values. The divisor must be non-zero (`div_rem` panics on zero).
#[verifier::external_body]
pub(crate) fn word_div_rem<const BITS: usize, const LIMBS: usize>(
    a: &[u64; LIMBS],
    b: &[u64; LIMBS],
) -> (r: ([u64; LIMBS], [u64; LIMBS]))
    requires
        word_ok(a@, BITS as nat),
        word_ok(b@, BITS as nat),
        uval(b@) != 0,
    ensures
        word_ok(r.0@, BITS as nat),
        word_ok(r.1@, BITS as nat),
        uval(r.0@) == uval(a@) / uval(b@),
        uval(r.1@) == uval(a@) % uval(b@),
{
    let (q, rem) = ruint::Uint::<BITS, LIMBS>::from_limbs(*a).div_rem(
        ruint::Uint::from_limbs(*b),
    );
    (q.into_limbs(), rem.into_limbs())
}

/// Relies on `ruint`'s `TryFrom<u128>` for `Uint`: succeeds exactly when
/// the value fits `BITS` bits.
#[verifier::external_body]
pub(crate) fn word_try_from_u128<const BITS: usize, const LIMBS: usize>(v: u128) -> (r: Option<
    [u64; LIMBS],
>)
    requires
        LIMBS == limbs_for(BITS as nat),
    ensures
        (r is Some) == ((v as nat) < full(BITS as nat)),
        r matches Some(w) ==> word_ok(w@, BITS as nat) && uval(w@) == v,
{
    match ruint::Uint::<BITS, LIMBS>::try_from(v) {
        Ok(u) => Some(u.into_limbs()),
        Err(_) => None,
    }
}

/// Relies on `ruint`'s `TryFrom<&Uint>` for `u128`: succeeds exactly when
/// the value fits 128 bits.
#[verifier::external_body]
pub(crate) fn word_try_to_u128<const BITS: usize, const LIMBS: usize>(a: &[u64; LIMBS]) -> (r:
    Option<u128>)
    requires
        word_ok(a@, BITS as nat),
    ensures
        (r is Some) == (uval(a@) < 0x1_0000_0000_0000_0000_0000_0000_0000_0000nat),
        r matches Some(v) ==> v == uval(a@),
{
    match u128::try_from(&ruint::Uint::<BITS, LIMBS>::from_limbs(*a)) {
        Ok(v) => Some(v),
        Err(_) => None,
    }
}

/// Relies on `ruint::Uint::to_be_bytes`: the fixed-width big-endian
/// encoding of the value (the byte count must match the width).
#[verifier::external_body]
pub(crate) fn word_to_be_bytes<const BITS: usize, const LIMBS: usize, const BYTES: usize>(
    a: &[u64; LIMBS],
) -> (r: [u8; BYTES])
    requires
        word_ok(a@, BITS as nat),
        BYTES == (BITS + 7) / 8,
    ensures
        crate::model::bytes_be_val(r@) == uval(a@),
{
    ruint::Uint::<BITS, LIMBS>::from_limbs(*a).to_be_bytes::<BYTES>()
}

/// Relies on `ruint::Uint::to_le_bytes`: the fixed-width little-endian
/// encoding of the value (the byte count must match the width).
#[verifier::external_body]
pub(crate) fn word_to_le_bytes<const BITS: usize, const LIMBS: usize, const BYTES: usize>(
    a: &[u64; LIMBS],
) -> (r: [u8; BYTES])
    requires
        word_ok(a@, BITS as nat),
        BYTES == (BITS + 7) / 8,
    ensures
        crate::model::bytes_le_val(r@) == uval(a@),
{
    ruint::Uint::<BITS, LIMBS>::from_limbs(*a).to_le_bytes::<BYTES>()
}

/// Relies on `ruint::Uint::try_from_be_slice`: reads a big-endian byte
/// slice, `None` when the slice is longer than the width's byte count or
/// the value does not fit the width.
#[verifier::external_body]
pub(crate) fn word_try_from_be_slice<const BITS: usize, const LIMBS: usize>(bytes: &[u8]) -> (r:
    Option<[u64; LIMBS]>)
    requires
        LIMBS == limbs_for(BITS as nat),
    ensures
        (r is Some) == (bytes@.len() <= (BITS + 7) / 8 && crate::model::bytes_be_val(bytes@)
            < full(BITS as nat)),
        r matches Some(w) ==> word_ok(w@, BITS as nat) && uval(w@) == crate::model::bytes_be_val(
            bytes@,
        ),
{
    match ruint::Uint::<BITS, LIMBS>::try_from_be_slice(bytes) {
        Some(u) => Some(u.into_limbs()),
        None => None,
    }
}

/// Relies on `ruint::Uint::try_from_le_slice`: reads a little-endian byte
/// slice, `None` when the slice is longer than the width's byte count or
/// the value does not fit the width.
#[verifier::external_body]
pub(crate) fn word_try_from_le_slice<const BITS: usize, const LIMBS: usize>(bytes: &[u8]) -> (r:
    Option<[u64; LIMBS]>)
    requires
        LIMBS == limbs_for(BITS as nat),
    ensures
        (r is Some) == (bytes@.len() <= (BITS + 7) / 8 && crate::model::bytes_le_val(bytes@)
            < full(BITS as nat)),
        r matches Some(w) ==> word_ok(w@, BITS as nat) && uval(w@) == crate::model::bytes_le_val(
            bytes@,
        ),
{
    match ruint::Uint::<BITS, LIMBS>::try_from_le_slice(bytes) {
        Some(u) => Some(u.into_limbs()),
        None => None,
    }
}

/// Relies on `ruint::Uint::bit_len`: the minimal number of bits needed for
/// the unsigned value, i.e. the least `k` with `value < 2^k`.
#[verifier::external_body]
pub(crate) fn word_bit_len<const BITS: usize, const LIMBS: usize>(a: &[u64; LIMBS]) -> (r: usize)
    requires
        word_ok(a@, BITS as nat),
    ensures
        r <= BITS,
        uval(a@) < pow2(r as nat),
        r >= 1 ==> uval(a@) >= pow2((r - 1) as nat),
        r == 0 ==> uval(a@) == 0,
{
    ruint::Uint::<BITS, LIMBS>::from_limbs(*a).bit_len()
}

/// Relies on `ruint::Uint::count_ones`: the number of one bits.
#[verifier::external_body]
pub(crate) fn word_count_ones<const BITS: usize, const LIMBS: usize>(a: &[u64; LIMBS]) -> (r:
    usize)
    requires
        word_ok(a@, BITS as nat),
    ensures
        r == crate::model::pop_count(uval(a@)),
{
    ruint::Uint::<BITS, LIMBS>::from_limbs(*a).count_ones()
}

/// Relies on `ruint::Uint::count_zeros`: the number of zero bits among the
/// `BITS` bits of the word.
#[verifier::external_body]
pub(crate) fn word_count_zeros<const BITS: usize, const LIMBS: usize>(a: &[u64; LIMBS]) -> (r:
    usize)
    requires
        word_ok(a@, BITS as nat),
    ensures
        r + crate::model::pop_count(uval(a@)) == BITS,
{
    ruint::Uint::<BITS, LIMBS>::from_limbs(*a).count_zeros()
}

/// Relies on `ruint::Uint::leading_zeros`: the number of zero bits above
/// the highest one bit, `BITS` for zero.
#[verifier::external_body]
pub(crate) fn word_leading_zeros<const BITS: usize, const LIMBS: usize>(a: &[u64; LIMBS]) -> (r:
    usize)
    requires
        word_ok(a@, BITS as nat),
    ensures
        r <= BITS,
        uval(a@) < pow2((BITS - r) as nat),
        r < BITS ==> uval(a@) >= pow2((BITS - r - 1) as nat),
        r == BITS ==> uval(a@) == 0,
{
    ruint::Uint::<BITS, LIMBS>::from_limbs(*a).leading_zeros()
}

/// Relies on `ruint::Uint::trailing_zeros`: the number of zero bits below
/// the lowest one bit, `BITS` for zero.
#[verifier::external_body]
pub(crate) fn word_trailing_zeros<const BITS: usize, const LIMBS: usize>(a: &[u64; LIMBS]) -> (r:
    usize)
    requires
        word_ok(a@, BITS as nat),
    ensures
        r <= BITS,
        uval(a@) % pow2(r as nat) == 0,
        r < BITS ==> uval(a@) / pow2(r as nat) % 2 == 1,
        r == BITS ==> uval(a@) == 0,
        uval(a@) == 0 ==> r == BITS,
{
    ruint::Uint::<BITS, LIMBS>::from_limbs(*a).trailing_zeros()
}

/// Relies on `ruint::Uint::trailing_ones`: the number of one bits below the
/// lowest zero bit.
#[verifier::external_body]
pub(crate) fn word_trailing_ones<const BITS: usize, const LIMBS: usize>(a: &[u64; LIMBS]) -> (r:
    usize)
    requires
        word_ok(a@, BITS as nat),
    ensures
        r <= BITS,
        uval(a@) % pow2(r as nat) == pow2(r as nat) - 1,
        r < BITS ==> uval(a@) / pow2(r as nat) % 2 == 0,
{
    ruint::Uint::<BITS, LIMBS>::from_limbs(*a).trailing_ones()
}

/// Relies on `ruint::Uint::bit`: whether bit `index` of the value is set
/// (bit zero is the least significant).
#[verifier::external_body]
pub(crate) fn word_bit<const BITS: usize, const LIMBS: usize>(a: &[u64; LIMBS], index: usize) -> (r:
    bool)
    requires
        word_ok(a@, BITS as nat),
        index < BITS,
    ensures
        r == (uval(a@) / pow2(index as nat) % 2 == 1),
{
    ruint::Uint::<BITS, LIMBS>::from_limbs(*a).bit(index)
}

/// Relies on `ruint::Uint::wrapping_shl`: `x * 2^n` modulo `2^BITS`; shifting
/// by `n >= BITS` clears the word.
#[verifier::external_body]
pub(crate) fn word_wrapping_shl<const BITS: usize, const LIMBS: usize>(
    a: &[u64; LIMBS],
    n: usize,
) -> (r: [u64; LIMBS])
    requires
        word_ok(a@, BITS as nat),
    ensures
        word_ok(r@, BITS as nat),
        uval(r@) == (uval(a@) * pow2(n as nat)) % full(BITS as nat),
{
    ruint::Uint::<BITS, LIMBS>::from_limbs(*a).wrapping_shl(n).into_limbs()
}

/// Relies on `ruint::Uint::wrapping_shr`: the floor of `x / 2^n`; shifting
/// by `n >= BITS` clears the word.
#[verifier::external_body]
pub(crate) fn word_wrapping_shr<const BITS: usize, const LIMBS: usize>(
    a: &[u64; LIMBS],
    n: usize,
) -> (r: [u64; LIMBS])
    requires
        word_ok(a@, BITS as nat),
    ensures
        word_ok(r@, BITS as nat),
        uval(r@) == uval(a@) / pow2(n as nat),
{
    ruint::Uint::<BITS, LIMBS>::from_limbs(*a).wrapping_shr(n).into_limbs()
}

} // verus!
