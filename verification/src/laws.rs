//! General laws of the library, stated over the mathematical model that the
//! executable functions' contracts use.

use crate::model::{
    abs_of, as_signed, euclid_div, euclid_rem, from_sign_abs, full, in_srange, lemma_euclid_props,
    lemma_euclid_range, lemma_full_half, lemma_sval_props, limbs_for, sign_of, signed_intent, smax,
    smin, sval, uval,
};
use crate::sign::Sign;
use crate::text::{
    dec_ok, dec_value, digits_of, digits_ok, digits_val, hex_body_of, hex_ok, hex_value,
    lemma_digits_of_len, lemma_digits_of_val, sign_body_of, sign_prefix_of, signed_dec_str,
    signed_hex_str,
};
use vstd::prelude::*;

verus! {

/// The zero word reads as the value zero at every width, and zero is
/// neither positive nor negative while its sign reads `Positive`: what
/// `zero`, `is_zero`, `is_positive`, `is_negative` and `sign` return.
pub proof fn law_zero(s: Seq<u64>, bits: nat)
    requires
        s.len() == limbs_for(bits),
        uval(s) == 0,
    ensures
        sval(s, bits) == 0,
        !(sval(s, bits) > 0),
        !(sval(s, bits) < 0),
        sign_of(sval(s, bits)) == Sign::Positive,
{
    vstd::arithmetic::power2::lemma2_to64();
    if bits >= 1 {
        lemma_full_half(bits);
    }
    assert(sval(s, bits) == as_signed(0, bits));
}

/// Splitting a value into sign and absolute value and recombining them
/// yields the original word back, without overflow: the round trip of
/// `into_sign_and_abs` through `overflowing_from_sign_and_abs`.
pub proof fn law_sign_abs_round_trip(s: Seq<u64>, bits: nat)
    requires
        s.len() == limbs_for(bits),
        uval(s) < full(bits),
    ensures
        from_sign_abs(sign_of(sval(s, bits)), abs_of(sval(s, bits)), bits) == uval(s),
        in_srange(signed_intent(sign_of(sval(s, bits)), abs_of(sval(s, bits))), bits),
{
    vstd::arithmetic::power2::lemma2_to64();
    let x = sval(s, bits);
    if bits == 0 {
        assert(uval(s) == 0);
    } else {
        lemma_full_half(bits);
        lemma_sval_props(s, bits);
        assert(signed_intent(sign_of(x), abs_of(x)) == x);
        if x < 0 {
            assert(uval(s) == x + full(bits));
            assert(abs_of(x) != 0);
            assert(from_sign_abs(Sign::Negative, abs_of(x), bits) == (full(bits) - abs_of(
                x,
            )) as nat);
        }
    }
}

/// The Euclidean division law: for any representable dividend and non-zero
/// representable divisor — excepting the overflowing pair of the most
/// negative value and minus one — the quotient and remainder returned by
/// `div_euclid` and `rem_euclid` are representable, satisfy the division
/// identity, and the remainder is non-negative and below the divisor's
/// magnitude.
pub proof fn law_euclidean_division(d: int, v: int, bits: nat)
    requires
        bits >= 1,
        in_srange(d, bits),
        in_srange(v, bits),
        v != 0,
        !(d == smin(bits) && v == -1),
    ensures
        d == v * euclid_div(d, v) + euclid_rem(d, v),
        0 <= euclid_rem(d, v) < abs_of(v),
        in_srange(euclid_div(d, v), bits),
        in_srange(euclid_rem(d, v), bits),
{
    lemma_euclid_props(d, v);
    lemma_euclid_range(d, v, bits);
}

/// Decimal round trip: rendering any representable value and parsing the
/// rendering yields the value back, i.e. `from_dec_str` succeeds on what
/// `to_dec_string` produced and returns the original value.
pub proof fn law_dec_round_trip(x: int, bits: nat)
    requires
        in_srange(x, bits),
    ensures
        dec_ok(signed_dec_str(x)),
        dec_value(signed_dec_str(x)) == x,
{
    lemma_digits_of_val(abs_of(x), 10);
    let digits = digits_of(abs_of(x), 10);
    let s = signed_dec_str(x);
    if x < 0 {
        assert(s == seq!['-'] + digits);
        assert(s[0] == '-');
        assert(s.len() >= 1);
        assert(sign_prefix_of(s) == Sign::Negative);
        assert(sign_body_of(s) =~= digits);
        assert(dec_value(s) == -(digits_val(digits, 10) as int));
    } else {
        assert(s == digits);
        assert(s.len() >= 1);
        assert(crate::text::is_digit(s[0], 10));
        assert(s[0] != '-' && s[0] != '+');
        assert(sign_prefix_of(s) == Sign::Positive);
        assert(sign_body_of(s) =~= digits);
    }
}

/// Hexadecimal round trip, for widths up to 256 bits (wider magnitudes
/// would exceed the parser's 64-digit bound): rendering any representable
/// value and parsing the rendering yields the value back.
pub proof fn law_hex_round_trip(x: int, bits: nat)
    requires
        in_srange(x, bits),
        bits <= 256,
    ensures
        hex_ok(signed_hex_str(x)),
        hex_body_of(signed_hex_str(x)).len() <= 64,
        hex_value(signed_hex_str(x)) == x,
{
    lemma_digits_of_val(abs_of(x), 16);
    let digits = digits_of(abs_of(x), 16);
    let s = signed_hex_str(x);
    // the magnitude is below 16^64 = 2^256, so at most 64 digits
    assert(abs_of(x) < vstd::arithmetic::power::pow(16, 64)) by {
        vstd::arithmetic::power2::lemma2_to64();
        vstd::arithmetic::power::lemma_pow_multiplies(2, 4, 64);
        vstd::arithmetic::power2::lemma_pow2(256);
        vstd::arithmetic::power2::lemma_pow2(4);
        if bits >= 1 {
            lemma_full_half(bits);
            if bits < 256 {
                vstd::arithmetic::power2::lemma_pow2_strictly_increases((bits - 1) as nat, 256);
            } else {
                vstd::arithmetic::power2::lemma_pow2_strictly_increases(255, 256);
            }
        } else {
            vstd::arithmetic::power2::lemma_pow2_strictly_increases(0, 256);
        }
    }
    lemma_digits_of_len(abs_of(x), 16, 64);
    if x < 0 {
        assert(s == seq!['-', '0', 'x'] + digits);
        assert(s[0] == '-');
        assert(sign_prefix_of(s) == Sign::Negative);
        let b = sign_body_of(s);
        assert(b =~= seq!['0', 'x'] + digits);
        assert(b[0] == '0' && b[1] == 'x');
        assert(hex_body_of(s) =~= digits);
        assert(hex_value(s) == -(digits_val(digits, 16) as int));
    } else {
        assert(s == seq!['0', 'x'] + digits);
        assert(s[0] == '0');
        assert(sign_prefix_of(s) == Sign::Positive);
        let b = sign_body_of(s);
        assert(b =~= s);
        assert(b[0] == '0' && b[1] == 'x');
        assert(hex_body_of(s) =~= digits);
    }
}

} // verus!
