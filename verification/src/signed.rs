//! The fixed-width two's-complement signed integer type.

use crate::errors::{BigIntConversionError, ParseSignedError};
use crate::model::{
    abs_of, as_signed, from_sign_abs, full, half, in_srange, lemma_congruence_add,
    lemma_congruence_mul, lemma_full_half, lemma_limb_dims,
    lemma_mod_reduce, lemma_sign_bit, lemma_sval_props, lemma_sval_wrap, lemma_trunc_div_rem,
    lemma_uval_parity, lemma_uval_zero_iff, lemma_wrap_shift, lemma_wrap_signed_congruent,
    lemma_wrap_signed_in_range, lemma_wrap_signed_props, limbs_for, sign_of, signed_intent, smax,
    smin, sval, trunc_div, trunc_rem, twos_comp, uval, wrap_signed,
};
use crate::sign::Sign;
use crate::text::{
    dec_ok, dec_value, digits_of, digits_ok, digits_val, hex_body_of, hex_ok, hex_value,
    sign_body_of, sign_prefix_of, signed_dec_str, signed_hex_str,
};
use crate::words::{
    word_bit, word_bit_len, word_count_ones, word_count_zeros, word_div_rem, word_from_str_radix,
    word_leading_zeros, word_max, word_not, word_ok, word_one, word_trailing_ones,
    word_trailing_zeros, word_try_from_u128, word_try_to_u128,
    word_overflowing_add, word_overflowing_mul, word_overflowing_sub, word_to_dec_str,
    word_to_hex_str, word_wrapping_neg, word_wrapping_shl, word_wrapping_shr, word_zero,
    WordStrError,
};
use vstd::string::{StrSliceExecFns, StringExecFns};
use vstd::arithmetic::div_mod::{
    lemma_fundamental_div_mod, lemma_fundamental_div_mod_converse, lemma_mod_equivalence,
};
use vstd::arithmetic::power2::{lemma_pow2_strictly_increases, pow2};
use vstd::prelude::*;

verus! {

/// A signed integer of `BITS` bits in two's-complement form, stored as
/// `LIMBS = ceil(BITS / 64)` little-endian 64-bit limbs of the underlying
/// unsigned word. Bit `BITS - 1`, when it exists, is the sign bit; for
/// `BITS == 0` the only inhabitant is zero.
#[derive(Clone, Copy, Debug, Hash)]
#[verifier::ext_equal]
pub struct Signed<const BITS: usize, const LIMBS: usize> {
    limbs: [u64; LIMBS],
}

impl<const BITS: usize, const LIMBS: usize> Signed<BITS, LIMBS> {
    /// Validity of the representation: the limb count matches the width and
    /// the stored word is reduced modulo `2^BITS`.
    #[verifier::type_invariant]
    pub closed spec fn wf(self) -> bool {
        &&& LIMBS == limbs_for(BITS as nat)
        &&& word_ok(self.limbs@, BITS as nat)
    }

    /// The unsigned value of the underlying word.
    pub closed spec fn spec_uval(self) -> nat {
        uval(self.limbs@)
    }

    /// The signed value: the two's-complement reading of the word.
    pub closed spec fn val(self) -> int {
        sval(self.limbs@, BITS as nat)
    }

    /// The signed value is congruent to the unsigned word modulo `2^BITS`,
    /// lies in `[smin, smax]`, and is negative exactly when the word
    /// reaches the sign-bit weight `2^(BITS-1)`.
    pub proof fn lemma_val(self)
        requires
            self.wf(),
        ensures
            in_srange(self.val(), BITS as nat),
            self.val() == wrap_signed(self.spec_uval() as int, BITS as nat) || BITS == 0,
            BITS == 0 ==> self.val() == 0,
            self.val() < 0 <==> self.spec_uval() >= half(BITS as nat) && BITS >= 1,
            self.val() == as_signed(self.spec_uval(), BITS as nat),
            self.spec_uval() < full(BITS as nat),
            BITS >= 1 ==> (self.spec_uval() - self.val()) % (full(BITS as nat) as int) == 0,
    {
        if BITS == 0 {
            assert(full(0) == 1) by {
                vstd::arithmetic::power2::lemma2_to64();
            }
        } else {
            lemma_sval_props(self.limbs@, BITS as nat);
            lemma_full_half(BITS as nat);
        }
    }

    /// Wrap a limb array whose validity is already known.
    fn from_word(limbs: [u64; LIMBS]) -> (r: Self)
        requires
            LIMBS == limbs_for(BITS as nat),
            word_ok(limbs@, BITS as nat),
        ensures
            r.wf(),
            r.spec_uval() == uval(limbs@),
            r.val() == sval(limbs@, BITS as nat),
    {
        Signed { limbs }
    }

    /// The additive identity: all bits zero.
    pub fn zero() -> (r: Self)
        requires
            LIMBS == limbs_for(BITS as nat),
        ensures
            r.wf(),
            r.val() == 0,
            r.spec_uval() == 0,
    {
        let w = word_zero::<BITS, LIMBS>();
        let r = Self::from_word(w);
        proof {
            r.lemma_val();
        }
        r
    }

    /// The bit pattern of unsigned one. Its signed value is `1` for
    /// `BITS >= 2`; for `BITS == 1` unsigned one reads as `-1`, and for
    /// `BITS == 0` it is zero.
    pub fn one() -> (r: Self)
        requires
            LIMBS == limbs_for(BITS as nat),
        ensures
            r.wf(),
            r.val() == if BITS == 0 {
                0int
            } else if BITS == 1 {
                -1int
            } else {
                1int
            },
    {
        let w = word_one::<BITS, LIMBS>();
        let r = Self::from_word(w);
        proof {
            r.lemma_val();
            vstd::arithmetic::power2::lemma2_to64();
            if BITS >= 3 {
                vstd::arithmetic::power2::lemma_pow2_strictly_increases(1, (BITS - 1) as nat);
            }
        }
        r
    }

    /// All bits one: the signed value `-1` (zero when `BITS == 0`).
    pub fn minus_one() -> (r: Self)
        requires
            LIMBS == limbs_for(BITS as nat),
        ensures
            r.wf(),
            r.val() == if BITS == 0 {
                0int
            } else {
                -1int
            },
    {
        let w = word_max::<BITS, LIMBS>();
        let r = Self::from_word(w);
        proof {
            r.lemma_val();
            if BITS >= 1 {
                lemma_full_half(BITS as nat);
            }
        }
        r
    }

    /// The most positive value: sign bit clear, all other bits one, i.e.
    /// `2^(BITS-1) - 1` (zero when `BITS == 0`).
    pub fn max_value() -> (r: Self)
        requires
            LIMBS == limbs_for(BITS as nat),
        ensures
            r.wf(),
            r.val() == smax(BITS as nat),
            r.spec_uval() == smax(BITS as nat),
    {
        let w = word_max::<BITS, LIMBS>();
        let v = word_wrapping_shr::<BITS, LIMBS>(&w, 1);
        let r = Self::from_word(v);
        proof {
            vstd::arithmetic::power2::lemma2_to64();
            if BITS >= 1 {
                lemma_full_half(BITS as nat);
            }
            assert(uval(v@) == (full(BITS as nat) - 1) as nat / 2);
            r.lemma_val();
        }
        r
    }

    /// The most negative value: only the sign bit set, i.e. `-2^(BITS-1)`
    /// (zero when `BITS == 0`).
    pub fn min_value() -> (r: Self)
        requires
            LIMBS == limbs_for(BITS as nat),
        ensures
            r.wf(),
            r.val() == smin(BITS as nat),
            r.spec_uval() == (full(BITS as nat) - 1 - smax(BITS as nat)) as nat,
    {
        let m = Self::max_value();
        let o = word_one::<BITS, LIMBS>();
        let (w, _carry) = word_overflowing_add::<BITS, LIMBS>(&m.limbs, &o);
        let r = Self::from_word(w);
        proof {
            vstd::arithmetic::power2::lemma2_to64();
            if BITS >= 1 {
                lemma_full_half(BITS as nat);
                vstd::arithmetic::div_mod::lemma_small_mod(
                    half(BITS as nat),
                    full(BITS as nat),
                );
            } else {
                vstd::arithmetic::div_mod::lemma_small_mod(0nat, 1nat);
            }
            r.lemma_val();
        }
        r
    }

    /// Instantiate from a little-endian limb array. The array must be a
    /// reduced representation: unused high bits of the top limb are zero.
    pub fn from_limbs(limbs: [u64; LIMBS]) -> (r: Self)
        requires
            LIMBS == limbs_for(BITS as nat),
            word_ok(limbs@, BITS as nat),
        ensures
            r.wf(),
            r.spec_uval() == uval(limbs@),
            r.val() == sval(limbs@, BITS as nat),
    {
        Self::from_word(limbs)
    }

    /// Reinterpret a raw unsigned word (given as its limb array) in two's
    /// complement: values with the sign bit set become negative.
    pub fn from_raw(limbs: [u64; LIMBS]) -> (r: Self)
        requires
            LIMBS == limbs_for(BITS as nat),
            word_ok(limbs@, BITS as nat),
        ensures
            r.wf(),
            r.spec_uval() == uval(limbs@),
            r.val() == sval(limbs@, BITS as nat),
    {
        Self::from_word(limbs)
    }

    /// The raw unsigned word: a negative value yields the two's complement
    /// of its absolute value.
    pub fn into_raw(self) -> (r: [u64; LIMBS])
        ensures
            uval(r@) == self.spec_uval(),
            word_ok(r@, BITS as nat),
    {
        proof {
            use_type_invariant(&self);
        }
        self.limbs
    }

    /// The underlying limbs, least significant first.
    pub fn into_limbs(self) -> (r: [u64; LIMBS])
        ensures
            uval(r@) == self.spec_uval(),
            word_ok(r@, BITS as nat),
    {
        proof {
            use_type_invariant(&self);
        }
        self.limbs
    }

    /// A reference to the underlying limbs, least significant first.
    pub fn as_limbs(&self) -> (r: &[u64; LIMBS])
        ensures
            uval(r@) == self.spec_uval(),
            word_ok(r@, BITS as nat),
    {
        proof {
            use_type_invariant(self);
        }
        &self.limbs
    }

    /// The sign of the value: `Negative` exactly when the sign bit is set;
    /// zero and zero-width values report `Positive`.
    pub fn sign(self) -> (r: Sign)
        ensures
            r == if self.val() < 0 {
                Sign::Negative
            } else {
                Sign::Positive
            },
    {
        proof {
            use_type_invariant(&self);
            self.lemma_val();
        }
        if BITS == 0 {
            Sign::Positive
        } else {
            proof {
                lemma_limb_dims(BITS as nat);
                lemma_sign_bit(self.limbs@, BITS as nat);
                vstd::bits::lemma_u64_pow2_no_overflow((((BITS - 1) as usize) % 64) as nat);
                vstd::bits::lemma_u64_shl_is_mul(1u64, (((BITS - 1) as usize) % 64) as u64);
            }
            let k: usize = (BITS - 1) % 64;
            let mask: u64 = 1u64 << (k as u64);
            if self.limbs[LIMBS - 1] >= mask {
                Sign::Negative
            } else {
                Sign::Positive
            }
        }
    }

    /// Whether the value is zero.
    pub fn is_zero(self) -> (r: bool)
        ensures
            r == (self.val() == 0),
    {
        proof {
            use_type_invariant(&self);
            self.lemma_val();
            lemma_uval_zero_iff(self.limbs@);
        }
        let mut i: usize = 0;
        let mut all_zero: bool = true;
        while i < LIMBS
            invariant
                i <= LIMBS,
                self.limbs@.len() == LIMBS,
                all_zero == (forall|j: int| 0 <= j < i ==> self.limbs@[j] == 0),
            decreases LIMBS - i,
        {
            if self.limbs[i] != 0 {
                all_zero = false;
            }
            i = i + 1;
        }
        proof {
            if self.spec_uval() == 0 {
                assert(self.val() == 0);
            } else {
                assert(self.val() != 0);
            }
        }
        all_zero
    }

    /// Whether the value is strictly positive (zero is neither positive nor
    /// negative).
    pub fn is_positive(self) -> (r: bool)
        ensures
            r == (self.val() > 0),
    {
        let nonzero = !self.is_zero();
        nonzero && self.sign().is_positive()
    }

    /// Whether the value is strictly negative.
    pub fn is_negative(self) -> (r: bool)
        ensures
            r == (self.val() < 0),
    {
        self.sign().is_negative()
    }

    /// Whether the value is odd.
    pub fn is_odd(self) -> (r: bool)
        ensures
            r == (self.val() % 2 == 1),
    {
        proof {
            use_type_invariant(&self);
            self.lemma_val();
        }
        if BITS == 0 {
            false
        } else {
            proof {
                lemma_limb_dims(BITS as nat);
                lemma_uval_parity(self.limbs@);
                lemma_full_half(BITS as nat);
                if BITS >= 1 {
                    vstd::arithmetic::power2::lemma_pow2_adds(1, (BITS - 1) as nat);
                    vstd::arithmetic::power2::lemma2_to64();
                    if self.val() < 0 {
                        assert(self.val() == self.spec_uval() - 2 * half(BITS as nat));
                        assert(self.val() % 2 == (self.spec_uval() - 2 * half(
                            BITS as nat,
                        ) as int) % 2);
                        assert((self.spec_uval() - 2 * half(BITS as nat) as int) % 2 == (
                        self.spec_uval() as int) % 2) by (nonlinear_arith);
                    }
                }
            }
            self.limbs[0] % 2 == 1
        }
    }

    /// The absolute value as an unsigned word (limb array): the raw word for
    /// non-negative values, its two's complement for negative ones.
    pub fn unsigned_abs(self) -> (r: [u64; LIMBS])
        ensures
            uval(r@) == abs_of(self.val()),
            word_ok(r@, BITS as nat),
    {
        proof {
            use_type_invariant(&self);
            self.lemma_val();
        }
        if self.is_negative() {
            let w = word_wrapping_neg::<BITS, LIMBS>(&self.limbs);
            proof {
                lemma_full_half(BITS as nat);
                vstd::arithmetic::div_mod::lemma_small_mod(
                    (full(BITS as nat) - self.spec_uval()) as nat,
                    full(BITS as nat),
                );
            }
            w
        } else {
            self.limbs
        }
    }

    /// The unsigned word carrying the two's complement of the value: its
    /// absolute value's bit pattern. Equal to [`Self::unsigned_abs`].
    pub fn twos_complement(self) -> (r: [u64; LIMBS])
        ensures
            uval(r@) == abs_of(self.val()),
            word_ok(r@, BITS as nat),
    {
        self.unsigned_abs()
    }

    /// Split into sign and absolute value.
    pub fn into_sign_and_abs(self) -> (r: (Sign, [u64; LIMBS]))
        ensures
            r.0 == sign_of(self.val()),
            uval(r.1@) == abs_of(self.val()),
            word_ok(r.1@, BITS as nat),
    {
        let sign = self.sign();
        let abs = self.unsigned_abs();
        (sign, abs)
    }

    /// Build a value from a sign and an absolute value given as an unsigned
    /// word: the word itself for `Positive`, its two's complement for
    /// `Negative`. The flag reports overflow: the magnitude does not fit the
    /// width once the sign is applied (`Negative` with magnitude zero still
    /// yields zero and is not an overflow).
    pub fn overflowing_from_sign_and_abs(sign: Sign, abs: [u64; LIMBS]) -> (r: (Self, bool))
        requires
            LIMBS == limbs_for(BITS as nat),
            word_ok(abs@, BITS as nat),
        ensures
            r.0.wf(),
            r.0.spec_uval() == from_sign_abs(sign, uval(abs@), BITS as nat),
            r.0.val() == wrap_signed(signed_intent(sign, uval(abs@)), BITS as nat),
            r.1 == !in_srange(signed_intent(sign, uval(abs@)), BITS as nat),
    {
        let ghost a = uval(abs@);
        let ghost bits = BITS as nat;
        let value = match sign {
            Sign::Positive => Self::from_word(abs),
            Sign::Negative => {
                let w = word_wrapping_neg::<BITS, LIMBS>(&abs);
                proof {
                    vstd::arithmetic::power2::lemma2_to64();
                    if a == 0 {
                        vstd::arithmetic::div_mod::lemma_mod_self_0(full(bits) as int);
                    } else {
                        vstd::arithmetic::div_mod::lemma_small_mod(
                            (full(bits) - a) as nat,
                            full(bits),
                        );
                    }
                    assert(uval(w@) == twos_comp(a, bits));
                }
                Self::from_word(w)
            },
        };
        let vsign = value.sign();
        let vzero = value.is_zero();
        let o = vsign != sign && !vzero;
        proof {
            value.lemma_val();
            vstd::arithmetic::power2::lemma2_to64();
            let x = signed_intent(sign, a);
            if BITS == 0 {
                assert(a == 0);
                assert(value.val() == 0 && x == 0);
            } else {
                lemma_full_half(bits);
                // the built word is congruent to the intended value
                if sign is Negative && a != 0 {
                    vstd::arithmetic::div_mod::lemma_mod_self_0(full(bits) as int);
                    lemma_mod_equivalence(value.spec_uval() as int, x, full(bits) as int);
                } else {
                    vstd::arithmetic::div_mod::lemma_small_mod(0, full(bits));
                }
                lemma_sval_wrap(value.limbs@, x, bits);
            }
        }
        (value, o)
    }

    /// As [`Self::overflowing_from_sign_and_abs`], returning `None` on
    /// overflow.
    pub fn checked_from_sign_and_abs(sign: Sign, abs: [u64; LIMBS]) -> (r: Option<Self>)
        requires
            LIMBS == limbs_for(BITS as nat),
            word_ok(abs@, BITS as nat),
        ensures
            r is Some <==> in_srange(signed_intent(sign, uval(abs@)), BITS as nat),
            r matches Some(v) ==> v.wf() && v.val() == signed_intent(sign, uval(abs@)),
    {
        let (value, overflow) = Self::overflowing_from_sign_and_abs(sign, abs);
        proof {
            if !overflow && BITS >= 1 {
                lemma_wrap_signed_in_range(signed_intent(sign, uval(abs@)), BITS as nat);
            }
        }
        if overflow {
            None
        } else {
            Some(value)
        }
    }

    /// Sum with wraparound, and whether the mathematical sum overflowed the
    /// width.
    pub fn overflowing_add(self, rhs: Self) -> (r: (Self, bool))
        ensures
            r.0.wf(),
            r.0.val() == wrap_signed(self.val() + rhs.val(), BITS as nat),
            r.1 == !in_srange(self.val() + rhs.val(), BITS as nat),
    {
        proof {
            use_type_invariant(&self);
            use_type_invariant(&rhs);
            self.lemma_val();
            rhs.lemma_val();
        }
        let (w, _carry) = word_overflowing_add::<BITS, LIMBS>(&self.limbs, &rhs.limbs);
        let out = Self::from_word(w);
        let sa = self.sign();
        let sb = rhs.sign();
        let sr = out.sign();
        let o = sa == sb && sr != sa;
        proof {
            let ua = self.spec_uval() as int;
            let ub = rhs.spec_uval() as int;
            let va = self.val();
            let vb = rhs.val();
            let f = full(BITS as nat) as int;
            if BITS >= 1 {
                lemma_full_half(BITS as nat);
                crate::model::lemma_congruence_add(ua, ub, va, vb, f);
                lemma_mod_reduce(ua + ub, f);
                crate::model::lemma_congruence_trans(uval(w@) as int, ua + ub, va + vb, f);
            }
            Self::lemma_wrap_flag(va, vb, va + vb, out);
            if BITS >= 1 && in_srange(va + vb, BITS as nat) {
                lemma_wrap_signed_in_range(va + vb, BITS as nat);
            }
        }
        (out, o)
    }

    /// Difference with wraparound, and whether the mathematical difference
    /// overflowed the width.
    pub fn overflowing_sub(self, rhs: Self) -> (r: (Self, bool))
        ensures
            r.0.wf(),
            r.0.val() == wrap_signed(self.val() - rhs.val(), BITS as nat),
            r.1 == !in_srange(self.val() - rhs.val(), BITS as nat),
    {
        proof {
            use_type_invariant(&self);
            use_type_invariant(&rhs);
            self.lemma_val();
            rhs.lemma_val();
        }
        let (w, _borrow) = word_overflowing_sub::<BITS, LIMBS>(&self.limbs, &rhs.limbs);
        let out = Self::from_word(w);
        let sa = self.sign();
        let sb = rhs.sign();
        let sr = out.sign();
        let o = sa != sb && sr != sa;
        proof {
            let ua = self.spec_uval() as int;
            let ub = rhs.spec_uval() as int;
            let va = self.val();
            let vb = rhs.val();
            let f = full(BITS as nat) as int;
            if BITS >= 1 {
                lemma_full_half(BITS as nat);
                lemma_mod_equivalence(ub, vb, f);
                lemma_mod_equivalence(vb, ub, f);
                crate::model::lemma_congruence_add(ua, -ub, va, -vb, f);
                lemma_mod_reduce(ua - ub, f);
                crate::model::lemma_congruence_trans(uval(w@) as int, ua - ub, va - vb, f);
            }
            Self::lemma_wrap_flag_sub(va, vb, out);
            if BITS >= 1 && in_srange(va - vb, BITS as nat) {
                lemma_wrap_signed_in_range(va - vb, BITS as nat);
            }
        }
        (out, o)
    }

    /// Sum, returning `None` when it overflows the width.
    pub fn checked_add(self, rhs: Self) -> (r: Option<Self>)
        ensures
            r is Some <==> in_srange(self.val() + rhs.val(), BITS as nat),
            r matches Some(v) ==> v.wf() && v.val() == self.val() + rhs.val(),
    {
        let (out, o) = self.overflowing_add(rhs);
        proof {
            if !o && BITS >= 1 {
                lemma_wrap_signed_in_range(self.val() + rhs.val(), BITS as nat);
            }
        }
        if o {
            None
        } else {
            Some(out)
        }
    }

    /// Sum with silent wraparound.
    pub fn wrapping_add(self, rhs: Self) -> (r: Self)
        ensures
            r.wf(),
            r.val() == wrap_signed(self.val() + rhs.val(), BITS as nat),
    {
        self.overflowing_add(rhs).0
    }

    /// Sum, clamped to the bound the mathematical sum exceeded.
    pub fn saturating_add(self, rhs: Self) -> (r: Self)
        ensures
            r.val() == if self.val() + rhs.val() > smax(BITS as nat) {
                smax(BITS as nat)
            } else if self.val() + rhs.val() < smin(BITS as nat) {
                smin(BITS as nat)
            } else {
                self.val() + rhs.val()
            },
    {
        proof {
            use_type_invariant(&self);
            use_type_invariant(&rhs);
            self.lemma_val();
            rhs.lemma_val();
        }
        let (out, o) = self.overflowing_add(rhs);
        proof {
            if !o && BITS >= 1 {
                lemma_wrap_signed_in_range(self.val() + rhs.val(), BITS as nat);
            }
        }
        if !o {
            out
        } else if self.is_negative() {
            Self::min_value()
        } else {
            Self::max_value()
        }
    }

    /// Sum; the mathematical result must fit the width. Callers that
    /// cannot guarantee the bound should use the checked form.
    pub fn strict_add(self, rhs: Self) -> (r: Self)
        requires
            in_srange(self.val() + rhs.val(), BITS as nat),
        ensures
            r.wf(),
            r.val() == self.val() + rhs.val(),
    {
        let (out, _o) = self.overflowing_add(rhs);
        proof {
            if BITS >= 1 {
                lemma_wrap_signed_in_range(self.val() + rhs.val(), BITS as nat);
            }
        }
        out
    }

    /// Difference, returning `None` when it overflows the width.
    pub fn checked_sub(self, rhs: Self) -> (r: Option<Self>)
        ensures
            r is Some <==> in_srange(self.val() - rhs.val(), BITS as nat),
            r matches Some(v) ==> v.wf() && v.val() == self.val() - rhs.val(),
    {
        let (out, o) = self.overflowing_sub(rhs);
        proof {
            if !o && BITS >= 1 {
                lemma_wrap_signed_in_range(self.val() - rhs.val(), BITS as nat);
            }
        }
        if o {
            None
        } else {
            Some(out)
        }
    }

    /// Difference with silent wraparound.
    pub fn wrapping_sub(self, rhs: Self) -> (r: Self)
        ensures
            r.wf(),
            r.val() == wrap_signed(self.val() - rhs.val(), BITS as nat),
    {
        self.overflowing_sub(rhs).0
    }

    /// Difference, clamped to the bound the mathematical difference
    /// exceeded.
    pub fn saturating_sub(self, rhs: Self) -> (r: Self)
        ensures
            r.val() == if self.val() - rhs.val() > smax(BITS as nat) {
                smax(BITS as nat)
            } else if self.val() - rhs.val() < smin(BITS as nat) {
                smin(BITS as nat)
            } else {
                self.val() - rhs.val()
            },
    {
        proof {
            use_type_invariant(&self);
            use_type_invariant(&rhs);
            self.lemma_val();
            rhs.lemma_val();
        }
        let (out, o) = self.overflowing_sub(rhs);
        proof {
            if !o && BITS >= 1 {
                lemma_wrap_signed_in_range(self.val() - rhs.val(), BITS as nat);
            }
        }
        if !o {
            out
        } else if self.is_negative() {
            Self::min_value()
        } else {
            Self::max_value()
        }
    }

    /// Difference; the mathematical result must fit the width.
    pub fn strict_sub(self, rhs: Self) -> (r: Self)
        requires
            in_srange(self.val() - rhs.val(), BITS as nat),
        ensures
            r.wf(),
            r.val() == self.val() - rhs.val(),
    {
        let (out, _o) = self.overflowing_sub(rhs);
        proof {
            if BITS >= 1 {
                lemma_wrap_signed_in_range(self.val() - rhs.val(), BITS as nat);
            }
        }
        out
    }

    /// Negation (`0 - self`) with wraparound; overflows exactly for the most
    /// negative value, whose positive counterpart does not fit.
    pub fn overflowing_neg(self) -> (r: (Self, bool))
        ensures
            r.0.wf(),
            r.0.val() == wrap_signed(-self.val(), BITS as nat),
            r.1 == !in_srange(-self.val(), BITS as nat),
    {
        proof {
            use_type_invariant(&self);
        }
        Self::zero().overflowing_sub(self)
    }

    /// Negation, `None` for the most negative value.
    pub fn checked_neg(self) -> (r: Option<Self>)
        ensures
            r is Some <==> in_srange(-self.val(), BITS as nat),
            r matches Some(v) ==> v.wf() && v.val() == -self.val(),
    {
        proof {
            use_type_invariant(&self);
        }
        Self::zero().checked_sub(self)
    }

    /// Negation with silent wraparound: the most negative value negates to
    /// itself.
    pub fn wrapping_neg(self) -> (r: Self)
        ensures
            r.wf(),
            r.val() == wrap_signed(-self.val(), BITS as nat),
    {
        self.overflowing_neg().0
    }

    /// Negation, clamped: the most negative value saturates to the most
    /// positive.
    pub fn saturating_neg(self) -> (r: Self)
        ensures
            r.val() == if -self.val() > smax(BITS as nat) {
                smax(BITS as nat)
            } else {
                -self.val()
            },
    {
        proof {
            use_type_invariant(&self);
            self.lemma_val();
        }
        Self::zero().saturating_sub(self)
    }

    /// Negation; the value must not be the most negative one.
    pub fn strict_neg(self) -> (r: Self)
        requires
            in_srange(-self.val(), BITS as nat),
        ensures
            r.wf(),
            r.val() == -self.val(),
    {
        proof {
            use_type_invariant(&self);
        }
        Self::zero().strict_sub(self)
    }

    /// Absolute value with wraparound; overflows exactly for the most
    /// negative value, which it leaves unchanged.
    pub fn overflowing_abs(self) -> (r: (Self, bool))
        ensures
            r.0.wf(),
            r.0.val() == wrap_signed(abs_of(self.val()) as int, BITS as nat),
            r.1 == !in_srange(abs_of(self.val()) as int, BITS as nat),
    {
        proof {
            use_type_invariant(&self);
            self.lemma_val();
        }
        if self.is_negative() {
            self.overflowing_neg()
        } else {
            proof {
                if BITS >= 1 {
                    lemma_wrap_signed_in_range(self.val(), BITS as nat);
                }
            }
            (self, false)
        }
    }

    /// Absolute value, `None` for the most negative value.
    pub fn checked_abs(self) -> (r: Option<Self>)
        ensures
            r is Some <==> in_srange(abs_of(self.val()) as int, BITS as nat),
            r matches Some(v) ==> v.wf() && v.val() == abs_of(self.val()),
    {
        let (out, o) = self.overflowing_abs();
        proof {
            if !o && BITS >= 1 {
                lemma_wrap_signed_in_range(abs_of(self.val()) as int, BITS as nat);
            }
        }
        if o {
            None
        } else {
            Some(out)
        }
    }

    /// Absolute value with silent wraparound: the most negative value is its
    /// own absolute value.
    pub fn wrapping_abs(self) -> (r: Self)
        ensures
            r.wf(),
            r.val() == wrap_signed(abs_of(self.val()) as int, BITS as nat),
    {
        self.overflowing_abs().0
    }

    /// Absolute value, clamped to the most positive value.
    pub fn saturating_abs(self) -> (r: Self)
        ensures
            r.val() == if abs_of(self.val()) > smax(BITS as nat) {
                smax(BITS as nat)
            } else {
                abs_of(self.val()) as int
            },
    {
        proof {
            use_type_invariant(&self);
            self.lemma_val();
        }
        let (out, o) = self.overflowing_abs();
        proof {
            if !o && BITS >= 1 {
                lemma_wrap_signed_in_range(abs_of(self.val()) as int, BITS as nat);
            }
        }
        if !o {
            out
        } else {
            Self::max_value()
        }
    }

    /// Absolute value; the value must not be the most negative one.
    pub fn abs(self) -> (r: Self)
        requires
            in_srange(abs_of(self.val()) as int, BITS as nat),
        ensures
            r.wf(),
            r.val() == abs_of(self.val()),
    {
        let (out, _o) = self.overflowing_abs();
        proof {
            if BITS >= 1 {
                lemma_wrap_signed_in_range(abs_of(self.val()) as int, BITS as nat);
            }
        }
        out
    }

    /// Product with wraparound, and whether the mathematical product
    /// overflowed: the absolute values are multiplied as unsigned words and
    /// the signs' product is reapplied.
    pub fn overflowing_mul(self, rhs: Self) -> (r: (Self, bool))
        ensures
            r.0.wf(),
            r.0.val() == wrap_signed(self.val() * rhs.val(), BITS as nat),
            r.1 == !in_srange(self.val() * rhs.val(), BITS as nat),
    {
        proof {
            use_type_invariant(&self);
            use_type_invariant(&rhs);
            self.lemma_val();
            rhs.lemma_val();
        }
        let (sa, aa) = self.into_sign_and_abs();
        let (sb, ab) = rhs.into_sign_and_abs();
        let sign = sa.product(sb);
        let (p, word_overflow) = word_overflowing_mul::<BITS, LIMBS>(&aa, &ab);
        let (value, sign_overflow) = Self::overflowing_from_sign_and_abs(sign, p);
        proof {
            let va = self.val();
            let vb = rhs.val();
            let x = va * vb;
            let a = abs_of(va) as int;
            let b = abs_of(vb) as int;
            let bits = BITS as nat;
            let f = full(bits) as int;
            assert(x == if (va < 0) == (vb < 0) {
                a * b
            } else {
                -(a * b)
            }) by (nonlinear_arith)
                requires
                    x == va * vb,
                    a == if va < 0 {
                        -va
                    } else {
                        va
                    },
                    b == if vb < 0 {
                        -vb
                    } else {
                        vb
                    },
            ;
            if BITS == 0 {
                assert(va == 0 && vb == 0);
                assert(x == 0) by (nonlinear_arith)
                    requires
                        x == va * vb,
                        va == 0,
                ;
                assert(value.val() == 0);
            } else {
                lemma_full_half(bits);
                let up = uval(p@) as int;
                lemma_mod_reduce(a * b, f);
                let intent = signed_intent(sign, uval(p@));
                // the built value is congruent to the true product
                if sign is Negative {
                    lemma_mod_equivalence(up, a * b, f);
                    lemma_mod_equivalence(a * b, up, f);
                    vstd::arithmetic::div_mod::lemma_small_mod(0, f as nat);
                    crate::model::lemma_congruence_add(0, -up, 0, -(a * b), f);
                    assert(intent == -up);
                    assert((intent - x) % f == 0);
                } else {
                    assert(intent == up && x == a * b);
                    assert((intent - x) % f == 0);
                }
                lemma_wrap_signed_congruent(intent, x, bits);
                // flag: word-level overflow already puts the product far out
                // of range; otherwise the magnitude is exact and the sign
                // recombination flag decides
                if word_overflow {
                    assert(a * b >= f);
                    assert(!in_srange(x, bits));
                } else {
                    vstd::arithmetic::div_mod::lemma_small_mod((a * b) as nat, f as nat);
                    assert(up == a * b);
                    assert(intent == x);
                }
            }
        }
        (value, word_overflow || sign_overflow)
    }

    /// Product, returning `None` when it overflows the width.
    pub fn checked_mul(self, rhs: Self) -> (r: Option<Self>)
        ensures
            r is Some <==> in_srange(self.val() * rhs.val(), BITS as nat),
            r matches Some(v) ==> v.wf() && v.val() == self.val() * rhs.val(),
    {
        let (out, o) = self.overflowing_mul(rhs);
        proof {
            if !o && BITS >= 1 {
                lemma_wrap_signed_in_range(self.val() * rhs.val(), BITS as nat);
            }
        }
        if o {
            None
        } else {
            Some(out)
        }
    }

    /// Product with silent wraparound.
    pub fn wrapping_mul(self, rhs: Self) -> (r: Self)
        ensures
            r.wf(),
            r.val() == wrap_signed(self.val() * rhs.val(), BITS as nat),
    {
        self.overflowing_mul(rhs).0
    }

    /// Product, clamped to the bound the mathematical product exceeded.
    pub fn saturating_mul(self, rhs: Self) -> (r: Self)
        ensures
            r.val() == if self.val() * rhs.val() > smax(BITS as nat) {
                smax(BITS as nat)
            } else if self.val() * rhs.val() < smin(BITS as nat) {
                smin(BITS as nat)
            } else {
                self.val() * rhs.val()
            },
    {
        proof {
            use_type_invariant(&self);
            use_type_invariant(&rhs);
            self.lemma_val();
            rhs.lemma_val();
        }
        let (out, o) = self.overflowing_mul(rhs);
        proof {
            let va = self.val();
            let vb = rhs.val();
            if !o && BITS >= 1 {
                lemma_wrap_signed_in_range(va * vb, BITS as nat);
            }
            if o {
                if BITS == 0 {
                    assert(va * vb == 0) by (nonlinear_arith)
                        requires
                            va == 0,
                    ;
                }
                assert(BITS >= 1);
                lemma_full_half(BITS as nat);
                let lo = smin(BITS as nat);
                let hi = smax(BITS as nat);
                assert(va != 0 && vb != 0) by (nonlinear_arith)
                    requires
                        va * vb < lo || va * vb > hi,
                        lo <= 0 <= hi,
                ;
                assert((va < 0) != (vb < 0) ==> va * vb < 0) by (nonlinear_arith)
                    requires
                        va != 0,
                        vb != 0,
                ;
                assert((va < 0) == (vb < 0) ==> va * vb > 0) by (nonlinear_arith)
                    requires
                        va != 0,
                        vb != 0,
                ;
            }
        }
        if !o {
            out
        } else if self.is_negative() != rhs.is_negative() {
            Self::min_value()
        } else {
            Self::max_value()
        }
    }

    /// Product; the mathematical result must fit the width.
    pub fn strict_mul(self, rhs: Self) -> (r: Self)
        requires
            in_srange(self.val() * rhs.val(), BITS as nat),
        ensures
            r.wf(),
            r.val() == self.val() * rhs.val(),
    {
        let (out, _o) = self.overflowing_mul(rhs);
        proof {
            if BITS >= 1 {
                lemma_wrap_signed_in_range(self.val() * rhs.val(), BITS as nat);
            }
        }
        out
    }

    /// Truncating division (rounding toward zero) with wraparound. The
    /// divisor must be non-zero; the sole overflow, flagged, is the most
    /// negative value divided by minus one, which wraps to itself.
    pub fn overflowing_div(self, rhs: Self) -> (r: (Self, bool))
        requires
            rhs.val() != 0,
        ensures
            r.0.wf(),
            r.0.val() == wrap_signed(trunc_div(self.val(), rhs.val()), BITS as nat),
            r.1 == (self.val() == smin(BITS as nat) && rhs.val() == -1),
    {
        proof {
            use_type_invariant(&self);
            use_type_invariant(&rhs);
            self.lemma_val();
            rhs.lemma_val();
        }
        let (sa, aa) = self.into_sign_and_abs();
        let (sb, ab) = rhs.into_sign_and_abs();
        let sign = sa.product(sb);
        let (q, _r) = word_div_rem::<BITS, LIMBS>(&aa, &ab);
        let (value, o) = Self::overflowing_from_sign_and_abs(sign, q);
        proof {
            let va = self.val();
            let vb = rhs.val();
            let bits = BITS as nat;
            lemma_trunc_div_rem(va, vb);
            crate::model::lemma_trunc_div_range(va, vb, bits);
            assert(signed_intent(sign, uval(q@)) == trunc_div(va, vb));
        }
        (value, o)
    }

    /// Truncating division, `None` for a zero divisor or for the overflow
    /// of the most negative value divided by minus one.
    pub fn checked_div(self, rhs: Self) -> (r: Option<Self>)
        ensures
            r is Some <==> rhs.val() != 0 && !(self.val() == smin(BITS as nat) && rhs.val()
                == -1),
            r matches Some(v) ==> v.wf() && v.val() == trunc_div(self.val(), rhs.val()),
    {
        proof {
            use_type_invariant(&self);
            use_type_invariant(&rhs);
            self.lemma_val();
            rhs.lemma_val();
        }
        if rhs.is_zero() {
            return None;
        }
        let (out, o) = self.overflowing_div(rhs);
        proof {
            if !o {
                crate::model::lemma_trunc_div_range(self.val(), rhs.val(), BITS as nat);
                lemma_wrap_signed_in_range(trunc_div(self.val(), rhs.val()), BITS as nat);
            }
        }
        if o {
            None
        } else {
            Some(out)
        }
    }

    /// Truncating division with silent wraparound on the sole overflow case.
    pub fn wrapping_div(self, rhs: Self) -> (r: Self)
        requires
            rhs.val() != 0,
        ensures
            r.wf(),
            r.val() == wrap_signed(trunc_div(self.val(), rhs.val()), BITS as nat),
    {
        self.overflowing_div(rhs).0
    }

    /// Truncating division, clamped: the sole overflow saturates to the most
    /// positive value.
    pub fn saturating_div(self, rhs: Self) -> (r: Self)
        requires
            rhs.val() != 0,
        ensures
            r.val() == if trunc_div(self.val(), rhs.val()) > smax(BITS as nat) {
                smax(BITS as nat)
            } else {
                trunc_div(self.val(), rhs.val())
            },
    {
        proof {
            use_type_invariant(&self);
            use_type_invariant(&rhs);
            self.lemma_val();
            rhs.lemma_val();
        }
        let (out, o) = self.overflowing_div(rhs);
        proof {
            crate::model::lemma_trunc_div_range(self.val(), rhs.val(), BITS as nat);
            if !o {
                lemma_wrap_signed_in_range(trunc_div(self.val(), rhs.val()), BITS as nat);
            }
        }
        if o {
            Self::max_value()
        } else {
            out
        }
    }

    /// Truncating division; the divisor must be non-zero and the quotient
    /// must fit the width.
    pub fn strict_div(self, rhs: Self) -> (r: Self)
        requires
            rhs.val() != 0,
            !(self.val() == smin(BITS as nat) && rhs.val() == -1),
        ensures
            r.wf(),
            r.val() == trunc_div(self.val(), rhs.val()),
    {
        proof {
            use_type_invariant(&self);
            use_type_invariant(&rhs);
            self.lemma_val();
            rhs.lemma_val();
        }
        let (out, _o) = self.overflowing_div(rhs);
        proof {
            crate::model::lemma_trunc_div_range(self.val(), rhs.val(), BITS as nat);
            lemma_wrap_signed_in_range(trunc_div(self.val(), rhs.val()), BITS as nat);
        }
        out
    }

    /// Truncating remainder (carrying the dividend's sign) for a non-zero
    /// divisor. The remainder itself always fits; the flag reports the
    /// division overflow of the most negative value by minus one, whose
    /// remainder wraps to zero.
    pub fn overflowing_rem(self, rhs: Self) -> (r: (Self, bool))
        requires
            rhs.val() != 0,
        ensures
            r.0.wf(),
            r.0.val() == trunc_rem(self.val(), rhs.val()),
            r.1 == (self.val() == smin(BITS as nat) && rhs.val() == -1),
    {
        proof {
            use_type_invariant(&self);
            use_type_invariant(&rhs);
            self.lemma_val();
            rhs.lemma_val();
        }
        let (sa, aa) = self.into_sign_and_abs();
        let (sb, ab) = rhs.into_sign_and_abs();
        let sign = sa.product(sb);
        let (q, rem) = word_div_rem::<BITS, LIMBS>(&aa, &ab);
        let (_qv, o) = Self::overflowing_from_sign_and_abs(sign, q);
        let (value, _ro) = Self::overflowing_from_sign_and_abs(sa, rem);
        proof {
            let va = self.val();
            let vb = rhs.val();
            let bits = BITS as nat;
            lemma_trunc_div_rem(va, vb);
            crate::model::lemma_trunc_div_range(va, vb, bits);
            assert(signed_intent(sign, uval(q@)) == trunc_div(va, vb));
            assert(signed_intent(sa, uval(rem@)) == trunc_rem(va, vb));
            lemma_wrap_signed_in_range(trunc_rem(va, vb), bits);
        }
        (value, o)
    }

    /// Truncating remainder, `None` for a zero divisor or for the overflow
    /// of the most negative value divided by minus one.
    pub fn checked_rem(self, rhs: Self) -> (r: Option<Self>)
        ensures
            r is Some <==> rhs.val() != 0 && !(self.val() == smin(BITS as nat) && rhs.val()
                == -1),
            r matches Some(v) ==> v.wf() && v.val() == trunc_rem(self.val(), rhs.val()),
    {
        proof {
            use_type_invariant(&self);
            use_type_invariant(&rhs);
            self.lemma_val();
            rhs.lemma_val();
        }
        if rhs.is_zero() {
            return None;
        }
        let (out, o) = self.overflowing_rem(rhs);
        if o {
            None
        } else {
            Some(out)
        }
    }

    /// Truncating remainder with the overflow case wrapping to zero.
    pub fn wrapping_rem(self, rhs: Self) -> (r: Self)
        requires
            rhs.val() != 0,
        ensures
            r.wf(),
            r.val() == trunc_rem(self.val(), rhs.val()),
    {
        self.overflowing_rem(rhs).0
    }

    /// Truncating remainder, with saturation a no-op: the remainder itself
    /// always fits the width (the sole flagged case wraps to zero, which is
    /// the true remainder).
    pub fn saturating_rem(self, rhs: Self) -> (r: Self)
        requires
            rhs.val() != 0,
        ensures
            r.wf(),
            r.val() == trunc_rem(self.val(), rhs.val()),
    {
        self.overflowing_rem(rhs).0
    }

    /// Truncating remainder; the divisor must be non-zero and the overflow
    /// case of the most negative value by minus one is excluded.
    pub fn strict_rem(self, rhs: Self) -> (r: Self)
        requires
            rhs.val() != 0,
            !(self.val() == smin(BITS as nat) && rhs.val() == -1),
        ensures
            r.wf(),
            r.val() == trunc_rem(self.val(), rhs.val()),
    {
        self.overflowing_rem(rhs).0
    }

    /// Facts connecting truncating and Euclidean division of representable
    /// values; see [`crate::model::lemma_euclid_range`].
    proof fn lemma_euclid_from_trunc(va: int, vb: int)
        requires
            BITS >= 1,
            in_srange(va, BITS as nat),
            in_srange(vb, BITS as nat),
            vb != 0,
        ensures
            trunc_rem(va, vb) >= 0 ==> crate::model::euclid_div(va, vb) == trunc_div(va, vb)
                && crate::model::euclid_rem(va, vb) == trunc_rem(va, vb),
            trunc_rem(va, vb) < 0 && vb > 0 ==> crate::model::euclid_div(va, vb) == trunc_div(
                va,
                vb,
            ) - 1 && crate::model::euclid_rem(va, vb) == trunc_rem(va, vb) + vb,
            trunc_rem(va, vb) < 0 && vb < 0 ==> crate::model::euclid_div(va, vb) == trunc_div(
                va,
                vb,
            ) + 1 && crate::model::euclid_rem(va, vb) == trunc_rem(va, vb) - vb,
            in_srange(crate::model::euclid_rem(va, vb), BITS as nat),
            in_srange(crate::model::euclid_div(va, vb), BITS as nat) <==> !(va == smin(
                BITS as nat,
            ) && vb == -1),
            va == smin(BITS as nat) && vb == -1 ==> crate::model::euclid_div(va, vb) == half(
                BITS as nat,
            ),
    {
        crate::model::lemma_euclid_range(va, vb, BITS as nat);
    }

    /// Euclidean division (non-negative remainder) with wraparound; the
    /// divisor must be non-zero, and the sole overflow, flagged, is the
    /// most negative value divided by minus one.
    pub fn overflowing_div_euclid(self, rhs: Self) -> (r: (Self, bool))
        requires
            rhs.val() != 0,
        ensures
            r.0.wf(),
            r.0.val() == wrap_signed(crate::model::euclid_div(self.val(), rhs.val()), BITS as nat),
            r.1 == (self.val() == smin(BITS as nat) && rhs.val() == -1),
    {
        proof {
            use_type_invariant(&self);
            use_type_invariant(&rhs);
            self.lemma_val();
            rhs.lemma_val();
            Self::lemma_euclid_from_trunc(self.val(), rhs.val());
            crate::model::lemma_trunc_div_range(self.val(), rhs.val(), BITS as nat);
        }
        let (q, o) = self.overflowing_div(rhs);
        let (rem, _ro) = self.overflowing_rem(rhs);
        let ghost va = self.val();
        let ghost vb = rhs.val();
        let ghost bits = BITS as nat;
        if rem.is_negative() {
            proof {
                lemma_full_half(bits);
                assert(!(va == smin(bits) && vb == -1));
                lemma_wrap_signed_in_range(trunc_div(va, vb), bits);
                assert(q.val() == trunc_div(va, vb));
                lemma_wrap_signed_in_range(crate::model::euclid_div(va, vb), bits);
                assert(BITS >= 2) by {
                    if BITS == 1 {
                        assert(half(1) == 1) by {
                            vstd::arithmetic::power2::lemma2_to64();
                        }
                        assert(abs_of(vb) == 1);
                        lemma_fundamental_div_mod_converse(abs_of(va) as int, 1, abs_of(va) as int, 0);
                    }
                }
            }
            let one = Self::one();
            let adjusted = if rhs.is_negative() {
                q.wrapping_add(one)
            } else {
                q.wrapping_sub(one)
            };
            proof {
                lemma_wrap_signed_in_range(crate::model::euclid_div(va, vb), bits);
            }
            (adjusted, o)
        } else {
            proof {
                if BITS >= 1 {
                    if va == smin(bits) && vb == -1 {
                        lemma_full_half(bits);
                        lemma_wrap_shift(
                            crate::model::euclid_div(va, vb) - full(bits),
                            bits,
                        );
                        lemma_wrap_signed_in_range(
                            crate::model::euclid_div(va, vb) - full(bits),
                            bits,
                        );
                        lemma_wrap_shift(trunc_div(va, vb) - full(bits), bits);
                        lemma_wrap_signed_in_range(trunc_div(va, vb) - full(bits), bits);
                    }
                }
            }
            (q, o)
        }
    }

    /// Euclidean division, `None` for a zero divisor or the overflow case.
    pub fn checked_div_euclid(self, rhs: Self) -> (r: Option<Self>)
        ensures
            r is Some <==> rhs.val() != 0 && !(self.val() == smin(BITS as nat) && rhs.val()
                == -1),
            r matches Some(v) ==> v.wf() && v.val() == crate::model::euclid_div(
                self.val(),
                rhs.val(),
            ),
    {
        proof {
            use_type_invariant(&self);
            use_type_invariant(&rhs);
            self.lemma_val();
            rhs.lemma_val();
        }
        if rhs.is_zero() {
            return None;
        }
        let (out, o) = self.overflowing_div_euclid(rhs);
        proof {
            if !o {
                Self::lemma_euclid_from_trunc(self.val(), rhs.val());
                lemma_wrap_signed_in_range(
                    crate::model::euclid_div(self.val(), rhs.val()),
                    BITS as nat,
                );
            }
        }
        if o {
            None
        } else {
            Some(out)
        }
    }

    /// Euclidean division with the overflow case wrapping to the most
    /// negative value.
    pub fn wrapping_div_euclid(self, rhs: Self) -> (r: Self)
        requires
            rhs.val() != 0,
        ensures
            r.wf(),
            r.val() == wrap_signed(crate::model::euclid_div(self.val(), rhs.val()), BITS as nat),
    {
        self.overflowing_div_euclid(rhs).0
    }

    /// Euclidean division, clamped: the sole overflow saturates to the most
    /// positive value.
    pub fn saturating_div_euclid(self, rhs: Self) -> (r: Self)
        requires
            rhs.val() != 0,
        ensures
            r.val() == if crate::model::euclid_div(self.val(), rhs.val()) > smax(BITS as nat) {
                smax(BITS as nat)
            } else {
                crate::model::euclid_div(self.val(), rhs.val())
            },
    {
        proof {
            use_type_invariant(&self);
            use_type_invariant(&rhs);
            self.lemma_val();
            rhs.lemma_val();
            Self::lemma_euclid_from_trunc(self.val(), rhs.val());
        }
        let (out, o) = self.overflowing_div_euclid(rhs);
        proof {
            if !o {
                lemma_wrap_signed_in_range(
                    crate::model::euclid_div(self.val(), rhs.val()),
                    BITS as nat,
                );
            }
        }
        if o {
            Self::max_value()
        } else {
            out
        }
    }

    /// Euclidean division; the divisor must be non-zero and the overflow
    /// case is excluded.
    pub fn div_euclid(self, rhs: Self) -> (r: Self)
        requires
            rhs.val() != 0,
            !(self.val() == smin(BITS as nat) && rhs.val() == -1),
        ensures
            r.wf(),
            r.val() == crate::model::euclid_div(self.val(), rhs.val()),
    {
        proof {
            use_type_invariant(&self);
            use_type_invariant(&rhs);
            self.lemma_val();
            rhs.lemma_val();
        }
        let (out, _o) = self.overflowing_div_euclid(rhs);
        proof {
            Self::lemma_euclid_from_trunc(self.val(), rhs.val());
            lemma_wrap_signed_in_range(
                crate::model::euclid_div(self.val(), rhs.val()),
                BITS as nat,
            );
        }
        out
    }

    /// Euclidean remainder, in `[0, |divisor|)`; always representable, with
    /// the flag reporting the division overflow of the most negative value
    /// by minus one (whose remainder is zero).
    pub fn overflowing_rem_euclid(self, rhs: Self) -> (r: (Self, bool))
        requires
            rhs.val() != 0,
        ensures
            r.0.wf(),
            r.0.val() == crate::model::euclid_rem(self.val(), rhs.val()),
            r.1 == (self.val() == smin(BITS as nat) && rhs.val() == -1),
    {
        proof {
            use_type_invariant(&self);
            use_type_invariant(&rhs);
            self.lemma_val();
            rhs.lemma_val();
            Self::lemma_euclid_from_trunc(self.val(), rhs.val());
        }
        let (rem, o) = self.overflowing_rem(rhs);
        let ghost va = self.val();
        let ghost vb = rhs.val();
        let ghost bits = BITS as nat;
        if rem.is_negative() {
            proof {
                lemma_full_half(bits);
                lemma_wrap_signed_in_range(crate::model::euclid_rem(va, vb), bits);
            }
            let adjusted = if rhs.is_negative() {
                rem.wrapping_sub(rhs)
            } else {
                rem.wrapping_add(rhs)
            };
            (adjusted, o)
        } else {
            (rem, o)
        }
    }

    /// Euclidean remainder, `None` for a zero divisor or the overflow case.
    pub fn checked_rem_euclid(self, rhs: Self) -> (r: Option<Self>)
        ensures
            r is Some <==> rhs.val() != 0 && !(self.val() == smin(BITS as nat) && rhs.val()
                == -1),
            r matches Some(v) ==> v.wf() && v.val() == crate::model::euclid_rem(
                self.val(),
                rhs.val(),
            ),
    {
        proof {
            use_type_invariant(&self);
            use_type_invariant(&rhs);
            self.lemma_val();
            rhs.lemma_val();
        }
        if rhs.is_zero() {
            return None;
        }
        let (out, o) = self.overflowing_rem_euclid(rhs);
        if o {
            None
        } else {
            Some(out)
        }
    }

    /// Euclidean remainder with the overflow case wrapping to zero.
    pub fn wrapping_rem_euclid(self, rhs: Self) -> (r: Self)
        requires
            rhs.val() != 0,
        ensures
            r.wf(),
            r.val() == crate::model::euclid_rem(self.val(), rhs.val()),
    {
        self.overflowing_rem_euclid(rhs).0
    }

    /// Euclidean remainder, with saturation a no-op: the remainder itself
    /// always fits the width.
    pub fn saturating_rem_euclid(self, rhs: Self) -> (r: Self)
        requires
            rhs.val() != 0,
        ensures
            r.wf(),
            r.val() == crate::model::euclid_rem(self.val(), rhs.val()),
    {
        self.overflowing_rem_euclid(rhs).0
    }

    /// Euclidean remainder; the divisor must be non-zero and the overflow
    /// case is excluded.
    pub fn rem_euclid(self, rhs: Self) -> (r: Self)
        requires
            rhs.val() != 0,
            !(self.val() == smin(BITS as nat) && rhs.val() == -1),
        ensures
            r.wf(),
            r.val() == crate::model::euclid_rem(self.val(), rhs.val()),
    {
        self.overflowing_rem_euclid(rhs).0
    }

    /// Whether the limb count parameter matches the bit width, checked at
    /// run time for constructors that cannot assume it.
    fn dims_match() -> (r: bool)
        ensures
            r == (LIMBS == limbs_for(BITS as nat)),
    {
        proof {
            if BITS >= 1 {
                lemma_limb_dims(BITS as nat);
            } else {
                assert(limbs_for(0) == 0);
            }
        }
        let l_big: u128 = LIMBS as u128;
        let b_big: u128 = BITS as u128;
        l_big * 64 >= b_big && (LIMBS == 0 || (l_big - 1) * 64 < b_big)
    }

    /// Read the optional leading sign token: the sign it names and how many
    /// characters it occupies.
    fn parse_sign(s: &str) -> (r: (Sign, usize))
        ensures
            r.0 == sign_prefix_of(s@),
            r.1 == if s@.len() >= 1 && (s@[0] == '+' || s@[0] == '-') {
                1int
            } else {
                0int
            },
            s@.skip(r.1 as int) == sign_body_of(s@),
            forall|i: int| 0 <= i < r.1 ==> (#[trigger] s@[i]) <= '\u{7f}',
    {
        proof {
            assert(s@.skip(0) =~= s@);
        }
        if s.is_empty() {
            (Sign::Positive, 0)
        } else {
            let c = s.get_char(0);
            if c == '+' {
                (Sign::Positive, 1)
            } else if c == '-' {
                (Sign::Negative, 1)
            } else {
                (Sign::Positive, 0)
            }
        }
    }

    /// Parse a decimal string: an optional `+` or `-`, then decimal digits
    /// with underscores ignored. Succeeds exactly when the digits are valid
    /// and the signed value fits the width; a malformed digit string yields
    /// the word parser's error, an unrepresentable value the overflow error.
    pub fn from_dec_str(value: &str) -> (r: Result<Self, ParseSignedError>)
        requires
            LIMBS == limbs_for(BITS as nat),
        ensures
            r is Ok <==> dec_ok(value@) && in_srange(dec_value(value@), BITS as nat),
            r matches Ok(v) ==> v.wf() && v.val() == dec_value(value@),
            dec_ok(value@) && !in_srange(dec_value(value@), BITS as nat) ==> r == Result::<
                Self,
                ParseSignedError,
            >::Err(ParseSignedError::IntegerOverflow),
            !dec_ok(value@) ==> r is Err,
    {
        let (sign, skip) = Self::parse_sign(value);
        proof {
            Self::lemma_abs_fits(sign, digits_val(sign_body_of(value@), 10));
        }
        match word_from_str_radix::<BITS, LIMBS>(value, skip, 10) {
            Ok(w) => {
                match Self::checked_from_sign_and_abs(sign, w) {
                    Some(v) => Ok(v),
                    None => Err(ParseSignedError::IntegerOverflow),
                }
            },
            Err(WordStrError::Overflow) => Err(ParseSignedError::IntegerOverflow),
            Err(WordStrError::Digit(e)) => Err(ParseSignedError::Ruint(e)),
        }
    }

    /// A representable signed value has a magnitude below `2^BITS`: the
    /// link between the parser's word-level overflow report and the signed
    /// range check.
    proof fn lemma_abs_fits(sign: Sign, a: nat)
        ensures
            in_srange(signed_intent(sign, a), BITS as nat) ==> a < full(BITS as nat),
    {
        vstd::arithmetic::power2::lemma2_to64();
        if BITS >= 1 {
            lemma_full_half(BITS as nat);
        }
    }

    /// Render as decimal: `-` for negative values, then the minimal decimal
    /// digits of the absolute value.
    pub fn to_dec_string(self) -> (r: String)
        ensures
            r@ == signed_dec_str(self.val()),
    {
        proof {
            use_type_invariant(&self);
            self.lemma_val();
        }
        let (sign, abs) = self.into_sign_and_abs();
        let digits = word_to_dec_str::<BITS, LIMBS>(&abs);
        let mut out = String::from_str(sign.as_prefix());
        out.append(digits.as_str());
        proof {
            if self.val() < 0 {
                assert(out@ =~= signed_dec_str(self.val()));
            } else {
                assert(out@ =~= signed_dec_str(self.val()));
            }
        }
        out
    }

    /// Parse a hexadecimal string: an optional sign, an optional `0x`, then
    /// hexadecimal digits with underscores ignored. Digit strings longer
    /// than 64 characters are rejected as overflow before parsing.
    pub fn from_hex_str(value: &str) -> (r: Result<Self, ParseSignedError>)
        requires
            LIMBS == limbs_for(BITS as nat),
        ensures
            r is Ok <==> hex_ok(value@) && hex_body_of(value@).len() <= 64 && in_srange(
                hex_value(value@),
                BITS as nat,
            ),
            r matches Ok(v) ==> v.wf() && v.val() == hex_value(value@),
            hex_ok(value@) && (hex_body_of(value@).len() > 64 || !in_srange(
                hex_value(value@),
                BITS as nat,
            )) ==> r == Result::<Self, ParseSignedError>::Err(ParseSignedError::IntegerOverflow),
            !hex_ok(value@) ==> r is Err,
    {
        let (sign, sign_skip) = Self::parse_sign(value);
        let char_len = value.unicode_len();
        let skip: usize = if char_len >= 2 && sign_skip + 2 <= char_len && value.get_char(
            sign_skip,
        ) == '0' && value.get_char(sign_skip + 1) == 'x' {
            sign_skip + 2
        } else {
            sign_skip
        };
        proof {
            assert(value@.skip(skip as int) =~= hex_body_of(value@));
            Self::lemma_abs_fits(sign, digits_val(hex_body_of(value@), 16));
        }
        if char_len > skip + 64 {
            return Err(ParseSignedError::IntegerOverflow);
        }
        match word_from_str_radix::<BITS, LIMBS>(value, skip, 16) {
            Ok(w) => {
                match Self::checked_from_sign_and_abs(sign, w) {
                    Some(v) => Ok(v),
                    None => Err(ParseSignedError::IntegerOverflow),
                }
            },
            Err(WordStrError::Overflow) => Err(ParseSignedError::IntegerOverflow),
            Err(WordStrError::Digit(e)) => Err(ParseSignedError::Ruint(e)),
        }
    }

    /// The number of one bits in the two's-complement representation.
    pub fn count_ones(&self) -> (r: usize)
        ensures
            r == crate::model::pop_count(self.spec_uval()),
    {
        proof {
            use_type_invariant(self);
        }
        word_count_ones::<BITS, LIMBS>(&self.limbs)
    }

    /// The number of zero bits in the two's-complement representation.
    pub fn count_zeros(&self) -> (r: usize)
        ensures
            r + crate::model::pop_count(self.spec_uval()) == BITS,
    {
        proof {
            use_type_invariant(self);
        }
        word_count_zeros::<BITS, LIMBS>(&self.limbs)
    }

    /// The number of zero bits above the highest one bit of the raw word:
    /// `BITS` less its unsigned bit length.
    pub fn leading_zeros(&self) -> (r: usize)
        ensures
            r == BITS - crate::model::ubits(self.spec_uval()),
    {
        proof {
            use_type_invariant(self);
        }
        let r = word_leading_zeros::<BITS, LIMBS>(&self.limbs);
        proof {
            crate::model::lemma_ubits_unique(self.spec_uval(), (BITS - r) as nat);
        }
        r
    }

    /// The number of zero bits below the lowest one bit of the raw word
    /// (`BITS` for zero).
    pub fn trailing_zeros(&self) -> (r: usize)
        ensures
            r <= BITS,
            self.spec_uval() % pow2(r as nat) == 0,
            r < BITS ==> self.spec_uval() / pow2(r as nat) % 2 == 1,
            r == BITS <==> self.spec_uval() == 0,
    {
        proof {
            use_type_invariant(self);
        }
        word_trailing_zeros::<BITS, LIMBS>(&self.limbs)
    }

    /// The number of one bits below the lowest zero bit of the raw word.
    pub fn trailing_ones(&self) -> (r: usize)
        ensures
            r <= BITS,
            self.spec_uval() % pow2(r as nat) == pow2(r as nat) - 1,
            r < BITS ==> self.spec_uval() / pow2(r as nat) % 2 == 0,
    {
        proof {
            use_type_invariant(self);
        }
        word_trailing_ones::<BITS, LIMBS>(&self.limbs)
    }

    /// Whether bit `index` of the two's-complement representation is set;
    /// the index must lie below the width.
    pub fn bit(&self, index: usize) -> (r: bool)
        requires
            index < BITS,
        ensures
            r == (self.spec_uval() / pow2(index as nat) % 2 == 1),
    {
        proof {
            use_type_invariant(self);
        }
        word_bit::<BITS, LIMBS>(&self.limbs, index)
    }

    /// The byte at big-endian position `index` of the two's-complement
    /// representation: position zero is the most significant of the
    /// `BITS / 8` bytes. The index must lie below the byte width.
    pub fn byte(&self, index: usize) -> (r: u8)
        requires
            index < BITS / 8,
        ensures
            r == self.spec_uval() / pow2((8 * (BITS / 8 - 1 - index)) as nat) % 256,
    {
        proof {
            use_type_invariant(self);
            lemma_limb_dims(BITS as nat);
        }
        let j: usize = BITS / 8 - 1 - index;
        let limb_index: usize = j / 8;
        let shift: usize = 8 * (j % 8);
        proof {
            assert(limb_index < LIMBS && shift <= 56 && 8 * j == 64 * limb_index + shift)
                by (nonlinear_arith)
                requires
                    j < BITS / 8,
                    limb_index == j / 8,
                    shift == 8 * (j % 8),
                    BITS <= 64 * LIMBS,
            ;
        }
        let limb: u64 = self.limbs[limb_index];
        let b: u64 = (limb >> (shift as u64)) & 0xff;
        proof {
            let s = self.limbs@;
            let u = self.spec_uval() as int;
            let c: int = 0x1_0000_0000_0000_0000;
            crate::model::lemma_limb_extract(s, limb_index as int);
            let rest = uval(s.skip(limb_index as int + 1)) as int;
            let dlow = pow2(shift as nat) as int;
            let dhigh = pow2((64 - shift) as nat) as int;
            vstd::arithmetic::power2::lemma_pow2_adds(shift as nat, (64 - shift) as nat);
            vstd::arithmetic::power2::lemma2_to64();
            vstd::arithmetic::power2::lemma_pow2_pos(shift as nat);
            vstd::arithmetic::power2::lemma_pow2_pos((64 - shift) as nat);
            vstd::arithmetic::power2::lemma_pow2_pos((64 * limb_index) as nat);
            assert(c == dlow * dhigh);
            // split the division at the limb boundary, then within the limb
            vstd::arithmetic::div_mod::lemma_div_denominator(
                u,
                pow2((64 * limb_index) as nat) as int,
                dlow,
            );
            vstd::arithmetic::power2::lemma_pow2_adds((64 * limb_index) as nat, shift as nat);
            assert((8 * j) as nat == (64 * limb_index) as nat + shift as nat);
            assert(u / pow2((8 * j) as nat) as int == (limb + c * rest) / dlow);
            assert(limb + c * rest == limb + dlow * (dhigh * rest)) by (nonlinear_arith)
                requires
                    c == dlow * dhigh,
            ;
            vstd::arithmetic::div_mod::lemma_hoist_over_denominator(
                limb as int,
                dhigh * rest,
                dlow as nat,
            );
            assert(dlow * (dhigh * rest) == (dhigh * rest) * dlow) by (nonlinear_arith);
            assert((limb + dlow * (dhigh * rest)) / dlow == limb as int / dlow + dhigh * rest);
            // the part above the limb vanishes modulo one byte
            let dq = pow2((56 - shift) as nat) as int;
            vstd::arithmetic::power2::lemma_pow2_adds(8, (56 - shift) as nat);
            assert(dhigh == 256 * dq);
            assert((limb as int / dlow + dhigh * rest) % 256 == (limb as int / dlow) % 256) by {
                assert(dhigh * rest == 256 * (dq * rest)) by (nonlinear_arith)
                    requires
                        dhigh == 256 * dq,
                ;
                vstd::arithmetic::div_mod::lemma_mod_multiples_vanish(
                    dq * rest,
                    limb as int / dlow,
                    256,
                );
            }
            // the machine shift and mask compute exactly that byte
            vstd::bits::lemma_u64_shr_is_div(limb, shift as u64);
            vstd::bits::lemma_u64_low_bits_mask_is_mod(limb >> (shift as u64), 8);
            vstd::bits::lemma_low_bits_mask_values();
            assert(b == (limb >> (shift as u64)) % 256);
        }
        b as u8
    }

    /// The fixed-width 32-byte big-endian two's-complement encoding; the
    /// type's width must be 256 bits.
    pub fn to_be_bytes(self) -> (r: [u8; 32])
        requires
            (BITS + 7) / 8 == 32,
        ensures
            crate::model::bytes_be_val(r@) == self.spec_uval(),
    {
        proof {
            use_type_invariant(&self);
        }
        crate::words::word_to_be_bytes::<BITS, LIMBS, 32>(&self.limbs)
    }

    /// The fixed-width 32-byte little-endian two's-complement encoding; the
    /// type's width must be 256 bits.
    pub fn to_le_bytes(self) -> (r: [u8; 32])
        requires
            (BITS + 7) / 8 == 32,
        ensures
            crate::model::bytes_le_val(r@) == self.spec_uval(),
    {
        proof {
            use_type_invariant(&self);
        }
        crate::words::word_to_le_bytes::<BITS, LIMBS, 32>(&self.limbs)
    }

    /// Read a big-endian byte array of exactly the width's byte count; the
    /// encoded value must fit the width.
    pub fn from_be_bytes<const BYTES: usize>(bytes: [u8; BYTES]) -> (r: Self)
        requires
            LIMBS == limbs_for(BITS as nat),
            BYTES == (BITS + 7) / 8,
            crate::model::bytes_be_val(bytes@) < full(BITS as nat),
        ensures
            r.wf(),
            r.spec_uval() == crate::model::bytes_be_val(bytes@),
    {
        let w = crate::words::word_try_from_be_slice::<BITS, LIMBS>(bytes.as_slice());
        match w {
            Some(word) => Self::from_word(word),
            None => {
                proof {
                    assert(false);
                }
                Self::from_word(word_zero::<BITS, LIMBS>())
            },
        }
    }

    /// Read a little-endian byte array of exactly the width's byte count;
    /// the encoded value must fit the width.
    pub fn from_le_bytes<const BYTES: usize>(bytes: [u8; BYTES]) -> (r: Self)
        requires
            LIMBS == limbs_for(BITS as nat),
            BYTES == (BITS + 7) / 8,
            crate::model::bytes_le_val(bytes@) < full(BITS as nat),
        ensures
            r.wf(),
            r.spec_uval() == crate::model::bytes_le_val(bytes@),
    {
        let w = crate::words::word_try_from_le_slice::<BITS, LIMBS>(bytes.as_slice());
        match w {
            Some(word) => Self::from_word(word),
            None => {
                proof {
                    assert(false);
                }
                Self::from_word(word_zero::<BITS, LIMBS>())
            },
        }
    }

    /// Read a big-endian byte slice of any length up to the width's byte
    /// count, `None` when it is longer or its value does not fit the width.
    pub fn try_from_be_slice(slice: &[u8]) -> (r: Option<Self>)
        requires
            LIMBS == limbs_for(BITS as nat),
        ensures
            (r is Some) == (slice@.len() <= (BITS + 7) / 8 && crate::model::bytes_be_val(slice@)
                < full(BITS as nat)),
            r matches Some(v) ==> v.wf() && v.spec_uval() == crate::model::bytes_be_val(slice@),
    {
        match crate::words::word_try_from_be_slice::<BITS, LIMBS>(slice) {
            Some(word) => Some(Self::from_word(word)),
            None => None,
        }
    }

    /// Read a little-endian byte slice of any length up to the width's byte
    /// count, `None` when it is longer or its value does not fit the width.
    pub fn try_from_le_slice(slice: &[u8]) -> (r: Option<Self>)
        requires
            LIMBS == limbs_for(BITS as nat),
        ensures
            (r is Some) == (slice@.len() <= (BITS + 7) / 8 && crate::model::bytes_le_val(slice@)
                < full(BITS as nat)),
            r matches Some(v) ==> v.wf() && v.spec_uval() == crate::model::bytes_le_val(slice@),
    {
        match crate::words::word_try_from_le_slice::<BITS, LIMBS>(slice) {
            Some(word) => Some(Self::from_word(word)),
            None => None,
        }
    }

    /// The least number of bits a signed integer type needs to hold the
    /// value: zero for zero, the magnitude's unsigned bit length for a
    /// negative power of two, one more than it otherwise.
    pub fn bits(self) -> (r: u32)
        requires
            BITS < 0xFFFF_FFFF,
        ensures
            r == crate::model::sbits(self.val()),
    {
        proof {
            use_type_invariant(&self);
            self.lemma_val();
        }
        if self.is_zero() {
            return 0;
        }
        let (sign, abs) = self.into_sign_and_abs();
        let ub = word_bit_len::<BITS, LIMBS>(&abs);
        let tz = word_trailing_zeros::<BITS, LIMBS>(&abs);
        let ghost x = self.val();
        let ghost a = abs_of(x);
        proof {
            assert(a >= 1);
            assert(ub >= 1);
            crate::model::lemma_ubits_unique(a, ub as nat);
            vstd::arithmetic::power2::lemma_pow2_unfold(ub as nat);
            vstd::arithmetic::power2::lemma_pow2_pos((ub - 1) as nat);
            assert(tz < BITS);
            if tz == ub - 1 {
                // divisible by 2^(ub-1) and below 2^ub: the magnitude is
                // exactly that power of two
                lemma_fundamental_div_mod(a as int, pow2((ub - 1) as nat) as int);
                let c = a as int / (pow2((ub - 1) as nat) as int);
                assert(a == pow2((ub - 1) as nat) * c + 0);
                assert(1 <= c < 2) by (nonlinear_arith)
                    requires
                        a == pow2((ub - 1) as nat) * c,
                        pow2((ub - 1) as nat) <= a,
                        a < 2 * pow2((ub - 1) as nat),
                        pow2((ub - 1) as nat) >= 1,
                ;
                assert(a == pow2((ub - 1) as nat)) by (nonlinear_arith)
                    requires
                        a == pow2((ub - 1) as nat) * c,
                        c == 1,
                ;
            } else {
                // the magnitude is no power of two: a power's trailing
                // zeros are exactly one less than its bit length
                if a == pow2((ub - 1) as nat) {
                    if tz < ub - 1 {
                        vstd::arithmetic::power2::lemma_pow2_subtracts(
                            tz as nat,
                            (ub - 1) as nat,
                        );
                        assert(a / pow2(tz as nat) == pow2((ub - 1 - tz) as nat));
                        vstd::arithmetic::power2::lemma_pow2_unfold((ub - 1 - tz) as nat);
                        vstd::arithmetic::div_mod::lemma_mod_multiples_basic(
                            pow2((ub - 1 - tz - 1) as nat) as int,
                            2,
                        );
                        assert(pow2((ub - 1 - tz) as nat) % 2 == 0);
                        assert(false);
                    } else {
                        assert(tz >= ub);
                        lemma_pow2_strictly_increases((ub - 1) as nat, tz as nat);
                        vstd::arithmetic::div_mod::lemma_small_mod(a, pow2(tz as nat));
                        assert(a % pow2(tz as nat) == a);
                        assert(false);
                    }
                }
            }
        }
        if sign.is_negative() && tz == ub - 1 {
            ub as u32
        } else {
            (ub + 1) as u32
        }
    }

    /// Value-preserving conversion from a native 128-bit signed integer:
    /// fails when the value does not fit the width.
    pub fn try_from_i128(value: i128) -> (r: Result<Self, BigIntConversionError>)
        requires
            LIMBS == limbs_for(BITS as nat),
        ensures
            (r is Ok) == in_srange(value as int, BITS as nat),
            r matches Ok(v) ==> v.wf() && v.val() == value,
    {
        let negative = value < 0;
        let magnitude: u128 = if value >= 0 {
            value as u128
        } else {
            ((-1 - value) as u128) + 1
        };
        let sign = if negative {
            Sign::Negative
        } else {
            Sign::Positive
        };
        proof {
            assert(magnitude == abs_of(value as int));
            Self::lemma_abs_fits(sign, magnitude as nat);
            assert(signed_intent(sign, magnitude as nat) == value as int);
        }
        match word_try_from_u128::<BITS, LIMBS>(magnitude) {
            Some(w) => {
                match Self::checked_from_sign_and_abs(sign, w) {
                    Some(v) => Ok(v),
                    None => Err(BigIntConversionError),
                }
            },
            None => Err(BigIntConversionError),
        }
    }

    /// Value-preserving conversion from a native 128-bit unsigned integer:
    /// fails when the value exceeds the most positive representable value.
    pub fn try_from_u128(value: u128) -> (r: Result<Self, BigIntConversionError>)
        requires
            LIMBS == limbs_for(BITS as nat),
        ensures
            (r is Ok) == (value <= smax(BITS as nat)),
            r matches Ok(v) ==> v.wf() && v.val() == value,
    {
        proof {
            Self::lemma_abs_fits(Sign::Positive, value as nat);
        }
        match word_try_from_u128::<BITS, LIMBS>(value) {
            Some(w) => {
                match Self::checked_from_sign_and_abs(Sign::Positive, w) {
                    Some(v) => Ok(v),
                    None => Err(BigIntConversionError),
                }
            },
            None => Err(BigIntConversionError),
        }
    }

    /// Conversion from a native 128-bit signed integer whose value is
    /// known to fit the width.
    pub fn unchecked_from(value: i128) -> (r: Self)
        requires
            LIMBS == limbs_for(BITS as nat),
            in_srange(value as int, BITS as nat),
        ensures
            r.wf(),
            r.val() == value,
    {
        match Self::try_from_i128(value) {
            Ok(v) => v,
            Err(_) => {
                proof {
                    assert(false);
                }
                Self::zero()
            },
        }
    }

    /// Conversion to a native 128-bit signed integer whose value is known
    /// to fit that type.
    pub fn unchecked_into(self) -> (r: i128)
        requires
            i128::MIN <= self.val() <= i128::MAX,
        ensures
            r == self.val(),
    {
        match self.try_to_i128() {
            Ok(v) => v,
            Err(_) => {
                proof {
                    assert(false);
                }
                0
            },
        }
    }

    /// Value-preserving conversion to a native 128-bit signed integer:
    /// fails when the value lies outside that type's range.
    pub fn try_to_i128(self) -> (r: Result<i128, BigIntConversionError>)
        ensures
            (r is Ok) == (i128::MIN <= self.val() <= i128::MAX),
            r matches Ok(v) ==> v == self.val(),
    {
        proof {
            use_type_invariant(&self);
            self.lemma_val();
        }
        let (sign, abs) = self.into_sign_and_abs();
        match word_try_to_u128::<BITS, LIMBS>(&abs) {
            Some(m) => {
                if sign.is_negative() {
                    if m > 0x8000_0000_0000_0000_0000_0000_0000_0000u128 {
                        Err(BigIntConversionError)
                    } else if m == 0x8000_0000_0000_0000_0000_0000_0000_0000u128 {
                        Ok(i128::MIN)
                    } else {
                        Ok(-(m as i128))
                    }
                } else {
                    if m > i128::MAX as u128 {
                        Err(BigIntConversionError)
                    } else {
                        Ok(m as i128)
                    }
                }
            },
            None => Err(BigIntConversionError),
        }
    }

    /// Value-preserving conversion to a native 128-bit unsigned integer:
    /// fails for negative values and for values above that type's range.
    pub fn try_to_u128(self) -> (r: Result<u128, BigIntConversionError>)
        ensures
            (r is Ok) == (0 <= self.val() <= u128::MAX),
            r matches Ok(v) ==> v == self.val(),
    {
        proof {
            use_type_invariant(&self);
            self.lemma_val();
        }
        if self.is_negative() {
            return Err(BigIntConversionError);
        }
        let (_sign, abs) = self.into_sign_and_abs();
        match word_try_to_u128::<BITS, LIMBS>(&abs) {
            Some(m) => Ok(m),
            None => Err(BigIntConversionError),
        }
    }

    /// Unsigned word comparison of two limb arrays.
    fn word_le(a: &[u64; LIMBS], b: &[u64; LIMBS]) -> (r: bool)
        ensures
            r == (uval(a@) <= uval(b@)),
    {
        let mut i: usize = LIMBS;
        let mut decided: Option<bool> = None;
        while i > 0
            invariant
                i <= LIMBS,
                a@.len() == LIMBS,
                b@.len() == LIMBS,
                decided is None ==> forall|j: int| i <= j < LIMBS ==> a@[j] == b@[j],
                decided == Some(true) ==> uval(a@) < uval(b@),
                decided == Some(false) ==> uval(b@) < uval(a@),
            decreases i,
        {
            i = i - 1;
            if decided.is_none() {
                if a[i] < b[i] {
                    proof {
                        crate::model::lemma_uval_lex(a@, b@, i as int);
                    }
                    decided = Some(true);
                } else if a[i] > b[i] {
                    proof {
                        crate::model::lemma_uval_lex(b@, a@, i as int);
                    }
                    decided = Some(false);
                }
            }
        }
        proof {
            if decided is None {
                assert(a@ =~= b@);
            }
        }
        match decided {
            None => true,
            Some(x) => x,
        }
    }

    /// The wrapped value of `self` to the power `exp`, by binary
    /// exponentiation over wrapping multiplications.
    fn pow_wrapped(self, exp: usize) -> (r: Self)
        ensures
            r.wf(),
            r.val() == wrap_signed(crate::model::spow(self.val(), exp as nat), BITS as nat),
    {
        proof {
            use_type_invariant(&self);
            self.lemma_val();
        }
        let ghost v = self.val();
        let ghost bits = BITS as nat;
        let ghost f = full(bits) as int;
        let mut result = Self::one();
        let mut base = self;
        let mut e: usize = exp;
        proof {
            if BITS >= 1 {
                lemma_full_half(bits);
                result.lemma_val();
                vstd::arithmetic::power2::lemma2_to64();
                let s = crate::model::spow(v, exp as nat);
                // the initial accumulator carries (the wrap of) one
                if BITS >= 2 {
                    vstd::arithmetic::power2::lemma_pow2_strictly_increases(0, (BITS - 1) as nat);
                    lemma_wrap_signed_in_range(1, bits);
                }
                assert(result.val() == wrap_signed(1, bits));
                lemma_wrap_signed_props(1, bits);
                crate::model::lemma_congruent_sym(1, result.val(), f);
                vstd::arithmetic::div_mod::lemma_small_mod(0, f as nat);
                crate::model::lemma_congruence_mul(result.val(), s, 1, s, f);
                assert(1 * s == s) by (nonlinear_arith);
                crate::model::lemma_congruent_sym(result.val() * s, s, f);
            }
        }
        while e > 0
            invariant
                result.wf(),
                base.wf(),
                BITS >= 1 ==> f == full(bits) as int && f > 1 && (crate::model::spow(v, exp as nat)
                    - result.val() * crate::model::spow(base.val(), e as nat)) % f == 0,
                bits == BITS as nat,
            decreases e,
        {
            proof {
                use_type_invariant(&result);
                use_type_invariant(&base);
                result.lemma_val();
                base.lemma_val();
            }
            let ghost rv = result.val();
            let ghost bv = base.val();
            if e % 2 == 1 {
                let next = result.wrapping_mul(base);
                proof {
                    if BITS >= 1 {
                        let s = crate::model::spow(v, exp as nat);
                        let s1 = crate::model::spow(bv, (e - 1) as nat);
                        // peel one factor off the pending power
                        assert(crate::model::spow(bv, e as nat) == bv * s1);
                        assert(rv * crate::model::spow(bv, e as nat) == (rv * bv) * s1)
                            by (nonlinear_arith)
                            requires
                                crate::model::spow(bv, e as nat) == bv * s1,
                        ;
                        lemma_wrap_signed_props(rv * bv, bits);
                        assert(next.val() == wrap_signed(rv * bv, bits));
                        crate::model::lemma_congruent_sym(rv * bv, next.val(), f);
                        vstd::arithmetic::div_mod::lemma_small_mod(0, f as nat);
                        crate::model::lemma_congruence_mul(rv * bv, s1, next.val(), s1, f);
                        crate::model::lemma_congruence_trans(s, (rv * bv) * s1, next.val() * s1, f);
                    }
                }
                result = next;
            }
            let ghost rv2 = result.val();
            e = e / 2;
            if e > 0 {
                let squared = base.wrapping_mul(base);
                proof {
                    if BITS >= 1 {
                        let s = crate::model::spow(v, exp as nat);
                        crate::model::lemma_spow_even(bv, e as nat);
                        lemma_wrap_signed_props(bv * bv, bits);
                        assert(squared.val() == wrap_signed(bv * bv, bits));
                        crate::model::lemma_congruent_sym(bv * bv, squared.val(), f);
                        crate::model::lemma_spow_congruent(squared.val(), bv * bv, e as nat, f);
                        vstd::arithmetic::div_mod::lemma_small_mod(0, f as nat);
                        crate::model::lemma_congruence_mul(
                            rv2,
                            crate::model::spow(squared.val(), e as nat),
                            rv2,
                            crate::model::spow(bv * bv, e as nat),
                            f,
                        );
                        crate::model::lemma_congruent_sym(
                            rv2 * crate::model::spow(squared.val(), e as nat),
                            rv2 * crate::model::spow(bv * bv, e as nat),
                            f,
                        );
                        crate::model::lemma_congruence_trans(
                            s,
                            rv2 * crate::model::spow(bv * bv, e as nat),
                            rv2 * crate::model::spow(squared.val(), e as nat),
                            f,
                        );
                    }
                }
                base = squared;
            }
        }
        proof {
            use_type_invariant(&result);
            result.lemma_val();
            if BITS >= 1 {
                assert(crate::model::spow(base.val(), 0) == 1);
                assert(result.val() * 1 == result.val()) by (nonlinear_arith);
                lemma_mod_equivalence(
                    crate::model::spow(v, exp as nat),
                    result.val(),
                    f,
                );
                lemma_mod_equivalence(
                    result.val(),
                    crate::model::spow(v, exp as nat),
                    f,
                );
                lemma_wrap_signed_in_range(result.val(), bits);
                lemma_wrap_signed_congruent(
                    result.val(),
                    crate::model::spow(v, exp as nat),
                    bits,
                );
            }
        }
        result
    }

    /// Whether `self` to the power `exp` escapes the representable range,
    /// decided by growing the magnitude `|self|^i` until it passes the
    /// sign-bit weight.
    fn pow_overflows(self, exp: usize) -> (r: bool)
        requires
            exp >= 1,
        ensures
            r == !in_srange(crate::model::spow(self.val(), exp as nat), BITS as nat),
    {
        proof {
            use_type_invariant(&self);
            self.lemma_val();
            crate::model::lemma_spow_sign(self.val(), exp as nat);
            crate::model::lemma_spow_abs(self.val(), exp as nat);
            reveal(vstd::arithmetic::power::pow);
        }
        let ghost v = self.val();
        let ghost av = abs_of(v);
        let ghost bits = BITS as nat;
        if BITS == 0 {
            proof {
                assert(v == 0);
                assert(crate::model::spow(v, exp as nat) == 0) by {
                    crate::model::lemma_spow_sign(v, exp as nat);
                }
            }
            return false;
        }
        proof {
            lemma_full_half(bits);
        }
        let a = self.unsigned_abs();
        let half_word = Self::min_value().into_raw();
        let ghost h = half(bits);
        proof {
            assert(uval(half_word@) == h);
        }
        let mut mag = word_one::<BITS, LIMBS>();
        let mut i: usize = 0;
        let mut escaped = false;
        proof {
            assert(vstd::arithmetic::power::pow(av as int, 0) == 1);
        }
        while !escaped && i < exp
            invariant
                i <= exp,
                BITS >= 1,
                bits == BITS as nat,
                h == half(bits),
                uval(half_word@) == h,
                h >= 1,
                av == abs_of(self.val()),
                uval(a@) == av,
                word_ok(a@, bits),
                !escaped ==> word_ok(mag@, bits) && uval(mag@) == vstd::arithmetic::power::pow(
                    av as int,
                    i as nat,
                ) && uval(mag@) <= h,
                escaped ==> vstd::arithmetic::power::pow(av as int, exp as nat) > h,
            decreases exp - i,
        {
            let (w, of) = word_overflowing_mul::<BITS, LIMBS>(&mag, &a);
            proof {
                lemma_full_half(bits);
                reveal(vstd::arithmetic::power::pow);
                assert(vstd::arithmetic::power::pow(av as int, (i + 1) as nat) == av
                    * vstd::arithmetic::power::pow(av as int, i as nat)) by {
                    vstd::arithmetic::power::lemma_pow_adds(av as int, 1nat, i as nat);
                    vstd::arithmetic::power::lemma_pow1(av as int);
                }
                assert(uval(mag@) * uval(a@) == vstd::arithmetic::power::pow(
                    av as int,
                    (i + 1) as nat,
                )) by (nonlinear_arith)
                    requires
                        uval(mag@) == vstd::arithmetic::power::pow(av as int, i as nat),
                        uval(a@) == av,
                        vstd::arithmetic::power::pow(av as int, (i + 1) as nat) == av
                            * vstd::arithmetic::power::pow(av as int, i as nat),
                ;
            }
            if of {
                proof {
                    Self::lemma_pow_escape(av, (i + 1) as nat, exp as nat, h);
                }
                escaped = true;
            } else {
                proof {
                    vstd::arithmetic::div_mod::lemma_small_mod(
                        uval(mag@) * uval(a@),
                        full(bits),
                    );
                }
                if !Self::word_le(&w, &half_word) {
                    proof {
                        Self::lemma_pow_escape(av, (i + 1) as nat, exp as nat, h);
                    }
                    escaped = true;
                } else {
                    mag = w;
                }
            }
            i = i + 1;
        }
        proof {
            crate::model::lemma_spow_abs(v, exp as nat);
            crate::model::lemma_spow_sign(v, exp as nat);
        }
        if escaped {
            proof {
                let s = crate::model::spow(v, exp as nat);
                assert(abs_of(s) > h);
            }
            true
        } else {
            let odd = exp % 2 == 1;
            let negative_result = self.is_negative() && odd;
            let at_half = Self::word_le(&half_word, &mag);
            proof {
                let s = crate::model::spow(v, exp as nat);
                assert(abs_of(s) == uval(mag@));
            }
            !negative_result && at_half
        }
    }

    /// A magnitude power that passes the sign-bit weight at some exponent
    /// stays past it at any higher exponent.
    proof fn lemma_pow_escape(av: nat, k: nat, e: nat, h: nat)
        requires
            k <= e,
            h >= 1,
            vstd::arithmetic::power::pow(av as int, k) > h,
        ensures
            vstd::arithmetic::power::pow(av as int, e) > h,
    {
        if av >= 1 {
            vstd::arithmetic::power::lemma_pow_increases(av, k, e);
        } else {
            reveal(vstd::arithmetic::power::pow);
            if k == 0 {
                assert(vstd::arithmetic::power::pow(av as int, 0) == 1);
            } else {
                assert(vstd::arithmetic::power::pow(av as int, k) == av
                    * vstd::arithmetic::power::pow(av as int, (k - 1) as nat));
                assert(vstd::arithmetic::power::pow(av as int, k) == 0) by (nonlinear_arith)
                    requires
                        av == 0,
                        vstd::arithmetic::power::pow(av as int, k) == av
                            * vstd::arithmetic::power::pow(av as int, (k - 1) as nat),
                ;
            }
            assert(false);
        }
    }

    /// Exponentiation by squaring with wraparound, and whether the
    /// mathematical power overflowed the width (the power of an exponent of
    /// zero is one, which itself overflows widths below two bits).
    pub fn overflowing_pow(self, exp: usize) -> (r: (Self, bool))
        ensures
            r.0.wf(),
            r.0.val() == wrap_signed(crate::model::spow(self.val(), exp as nat), BITS as nat),
            r.1 == !in_srange(crate::model::spow(self.val(), exp as nat), BITS as nat),
    {
        proof {
            use_type_invariant(&self);
            self.lemma_val();
        }
        let value = self.pow_wrapped(exp);
        if exp == 0 {
            proof {
                assert(crate::model::spow(self.val(), 0) == 1);
                vstd::arithmetic::power2::lemma2_to64();
                if BITS >= 2 {
                    lemma_full_half(BITS as nat);
                    vstd::arithmetic::power2::lemma_pow2_strictly_increases(0, (BITS - 1) as nat);
                }
                if BITS == 1 {
                    lemma_full_half(1);
                }
            }
            (value, BITS < 2)
        } else {
            let o = self.pow_overflows(exp);
            (value, o)
        }
    }

    /// Exponentiation, `None` when the power overflows the width.
    pub fn checked_pow(self, exp: usize) -> (r: Option<Self>)
        ensures
            r is Some <==> in_srange(crate::model::spow(self.val(), exp as nat), BITS as nat),
            r matches Some(v) ==> v.wf() && v.val() == crate::model::spow(
                self.val(),
                exp as nat,
            ),
    {
        let (out, o) = self.overflowing_pow(exp);
        proof {
            if !o && BITS >= 1 {
                lemma_wrap_signed_in_range(
                    crate::model::spow(self.val(), exp as nat),
                    BITS as nat,
                );
            }
        }
        if o {
            None
        } else {
            Some(out)
        }
    }

    /// Exponentiation with silent wraparound.
    pub fn wrapping_pow(self, exp: usize) -> (r: Self)
        ensures
            r.wf(),
            r.val() == wrap_signed(crate::model::spow(self.val(), exp as nat), BITS as nat),
    {
        self.overflowing_pow(exp).0
    }

    /// Exponentiation; the mathematical power must fit the width.
    pub fn pow(self, exp: usize) -> (r: Self)
        requires
            in_srange(crate::model::spow(self.val(), exp as nat), BITS as nat),
        ensures
            r.wf(),
            r.val() == crate::model::spow(self.val(), exp as nat),
    {
        let (out, _o) = self.overflowing_pow(exp);
        proof {
            if BITS >= 1 {
                lemma_wrap_signed_in_range(
                    crate::model::spow(self.val(), exp as nat),
                    BITS as nat,
                );
            }
        }
        out
    }

    /// Exponentiation, clamped on overflow to the bound on the side of the
    /// true power's sign: the most negative value for a negative base and
    /// odd exponent, the most positive value otherwise.
    pub fn saturating_pow(self, exp: usize) -> (r: Self)
        ensures
            r.val() == if crate::model::spow(self.val(), exp as nat) > smax(BITS as nat) {
                smax(BITS as nat)
            } else if crate::model::spow(self.val(), exp as nat) < smin(BITS as nat) {
                smin(BITS as nat)
            } else {
                crate::model::spow(self.val(), exp as nat)
            },
    {
        proof {
            use_type_invariant(&self);
            self.lemma_val();
            crate::model::lemma_spow_sign(self.val(), exp as nat);
        }
        let (out, o) = self.overflowing_pow(exp);
        proof {
            if !o && BITS >= 1 {
                lemma_wrap_signed_in_range(
                    crate::model::spow(self.val(), exp as nat),
                    BITS as nat,
                );
            }
        }
        if !o {
            out
        } else if self.is_negative() && exp % 2 == 1 {
            Self::min_value()
        } else {
            Self::max_value()
        }
    }

    /// Ten to the power `exp`; the result must fit the width.
    pub fn exp10(exp: usize) -> (r: Self)
        requires
            LIMBS == limbs_for(BITS as nat),
            in_srange(10, BITS as nat),
            in_srange(crate::model::spow(10, exp as nat), BITS as nat),
        ensures
            r.wf(),
            r.val() == crate::model::spow(10, exp as nat),
    {
        let ten = Self::unchecked_from(10);
        ten.pow(exp)
    }

    /// Whether two values have the same bit pattern (limb by limb).
    fn eq_limbs(a: &Self, b: &Self) -> (r: bool)
        ensures
            r == (a.spec_uval() == b.spec_uval()),
    {
        proof {
            use_type_invariant(a);
            use_type_invariant(b);
            if a.limbs@ =~= b.limbs@ {
                assert(a.spec_uval() == b.spec_uval());
            }
            if a.spec_uval() == b.spec_uval() {
                crate::model::lemma_uval_inj(a.limbs@, b.limbs@);
            }
        }
        let mut i: usize = 0;
        let mut same: bool = true;
        while i < LIMBS
            invariant
                i <= LIMBS,
                a.limbs@.len() == LIMBS,
                b.limbs@.len() == LIMBS,
                same == (forall|j: int| 0 <= j < i ==> a.limbs@[j] == b.limbs@[j]),
            decreases LIMBS - i,
        {
            if a.limbs[i] != b.limbs[i] {
                same = false;
            }
            i = i + 1;
        }
        proof {
            if same {
                assert(a.limbs@ =~= b.limbs@);
            }
        }
        same
    }

    /// Logical (zero-filling) shift left of the bit pattern: the unsigned
    /// word times `2^rhs`, reduced modulo `2^BITS`; shifting by `rhs >=
    /// BITS` clears the value.
    pub fn wrapping_shl(self, rhs: usize) -> (r: Self)
        ensures
            r.wf(),
            r.spec_uval() == (self.spec_uval() * pow2(rhs as nat)) % full(BITS as nat),
            r.val() == wrap_signed(self.val() * pow2(rhs as nat), BITS as nat),
    {
        proof {
            use_type_invariant(&self);
            self.lemma_val();
        }
        let w = word_wrapping_shl::<BITS, LIMBS>(&self.limbs, rhs);
        let out = Self::from_word(w);
        proof {
            out.lemma_val();
            let u = self.spec_uval() as int;
            let v = self.val();
            let p = pow2(rhs as nat) as int;
            let f = full(BITS as nat) as int;
            vstd::arithmetic::power2::lemma_pow2_pos(rhs as nat);
            if BITS == 0 {
                assert(v == 0);
                assert(v * p == 0) by (nonlinear_arith)
                    requires
                        v == 0,
                ;
            } else {
                lemma_full_half(BITS as nat);
                vstd::arithmetic::div_mod::lemma_small_mod(0, f as nat);
                lemma_congruence_mul(u, p, v, p, f);
                lemma_mod_reduce(u * p, f);
                crate::model::lemma_congruence_trans(uval(w@) as int, u * p, v * p, f);
                lemma_sval_wrap(out.limbs@, v * p, BITS as nat);
            }
        }
        out
    }

    /// Logical shift left, with a flag reporting that one or more bits were
    /// shifted out past the width (the raw result then differs from the
    /// mathematical `value * 2^rhs`).
    pub fn overflowing_shl(self, rhs: usize) -> (r: (Self, bool))
        ensures
            r.0.wf(),
            r.0.spec_uval() == (self.spec_uval() * pow2(rhs as nat)) % full(BITS as nat),
            r.0.val() == wrap_signed(self.val() * pow2(rhs as nat), BITS as nat),
            r.1 == (self.spec_uval() * pow2(rhs as nat) >= full(BITS as nat)),
    {
        proof {
            use_type_invariant(&self);
            self.lemma_val();
        }
        let out = self.wrapping_shl(rhs);
        let ghost u = self.spec_uval();
        let ghost p = pow2(rhs as nat);
        let ghost f = full(BITS as nat);
        let o: bool = if rhs >= BITS {
            proof {
                if u == 0 {
                    assert(u * p == 0) by (nonlinear_arith)
                        requires
                            u == 0,
                    ;
                    vstd::arithmetic::power2::lemma_pow2_pos(BITS as nat);
                } else {
                    if rhs > BITS {
                        lemma_pow2_strictly_increases(BITS as nat, rhs as nat);
                    }
                    assert(u * p >= p) by (nonlinear_arith)
                        requires
                            u >= 1,
                            p >= 0,
                    ;
                }
            }
            !self.is_zero()
        } else {
            let bl = word_bit_len::<BITS, LIMBS>(&self.limbs);
            proof {
                vstd::arithmetic::power2::lemma_pow2_pos(rhs as nat);
                vstd::arithmetic::power2::lemma_pow2_adds((BITS - rhs) as nat, rhs as nat);
                if bl > BITS - rhs {
                    if bl >= 1 && (BITS - rhs) < bl - 1 {
                        lemma_pow2_strictly_increases((BITS - rhs) as nat, (bl - 1) as nat);
                    }
                    assert(u >= pow2((BITS - rhs) as nat));
                    assert(u * p >= pow2((BITS - rhs) as nat) * p) by (nonlinear_arith)
                        requires
                            u >= pow2((BITS - rhs) as nat),
                            p >= 0,
                    ;
                } else {
                    if bl < BITS - rhs {
                        lemma_pow2_strictly_increases(bl as nat, (BITS - rhs) as nat);
                    }
                    assert(u < pow2((BITS - rhs) as nat));
                    assert(u * p < pow2((BITS - rhs) as nat) * p) by (nonlinear_arith)
                        requires
                            u < pow2((BITS - rhs) as nat),
                            p >= 1,
                    ;
                }
            }
            bl > BITS - rhs
        };
        (out, o)
    }

    /// Logical shift left, `None` when any bit would be shifted out past
    /// the width.
    pub fn checked_shl(self, rhs: usize) -> (r: Option<Self>)
        ensures
            r is Some <==> self.spec_uval() * pow2(rhs as nat) < full(BITS as nat),
            r matches Some(v) ==> v.wf() && v.spec_uval() == self.spec_uval() * pow2(rhs as nat),
    {
        let (out, o) = self.overflowing_shl(rhs);
        proof {
            if !o {
                vstd::arithmetic::div_mod::lemma_small_mod(
                    self.spec_uval() * pow2(rhs as nat),
                    full(BITS as nat),
                );
            }
        }
        if o {
            None
        } else {
            Some(out)
        }
    }

    /// Logical (zero-filling) shift right of the bit pattern: the floor of
    /// the unsigned word divided by `2^rhs`. For a negative value this is
    /// not the arithmetic shift: the sign bit is not propagated.
    pub fn wrapping_shr(self, rhs: usize) -> (r: Self)
        ensures
            r.wf(),
            r.spec_uval() == self.spec_uval() / pow2(rhs as nat),
            self.val() >= 0 ==> r.val() == self.val() / (pow2(rhs as nat) as int),
    {
        proof {
            use_type_invariant(&self);
            self.lemma_val();
        }
        let w = word_wrapping_shr::<BITS, LIMBS>(&self.limbs, rhs);
        let out = Self::from_word(w);
        proof {
            out.lemma_val();
            vstd::arithmetic::power2::lemma_pow2_pos(rhs as nat);
            if self.val() >= 0 {
                vstd::arithmetic::div_mod::lemma_div_nonincreasing(
                    self.spec_uval() as int,
                    pow2(rhs as nat) as int,
                );
                vstd::arithmetic::div_mod::lemma_div_pos_is_pos(
                    self.spec_uval() as int,
                    pow2(rhs as nat) as int,
                );
            }
        }
        out
    }

    /// Logical shift right, with a flag reporting that the result differs
    /// from the arithmetic (sign-preserving) shift: exactly for a negative
    /// value shifted by a non-zero amount.
    pub fn overflowing_shr(self, rhs: usize) -> (r: (Self, bool))
        ensures
            r.0.wf(),
            r.0.spec_uval() == self.spec_uval() / pow2(rhs as nat),
            r.1 == (self.val() < 0 && rhs != 0),
    {
        let out = self.wrapping_shr(rhs);
        let o = self.is_negative() && rhs != 0;
        (out, o)
    }

    /// Logical shift right, `None` when the result would differ from the
    /// arithmetic shift.
    pub fn checked_shr(self, rhs: usize) -> (r: Option<Self>)
        ensures
            r is Some <==> !(self.val() < 0 && rhs != 0),
            r matches Some(v) ==> v.wf() && v.spec_uval() == self.spec_uval() / pow2(rhs as nat),
    {
        let (out, o) = self.overflowing_shr(rhs);
        if o {
            None
        } else {
            Some(out)
        }
    }

    /// Arithmetic shift right: the floor of the value divided by `2^rhs`,
    /// with vacated high bits filled with the sign bit. Shifting a negative
    /// value far enough saturates at minus one, a non-negative one at zero.
    pub fn asr(self, rhs: usize) -> (r: Self)
        ensures
            r.wf(),
            r.val() == self.val() / (pow2(rhs as nat) as int),
    {
        proof {
            use_type_invariant(&self);
            self.lemma_val();
            vstd::arithmetic::power2::lemma_pow2_pos(rhs as nat);
        }
        if !self.is_negative() {
            self.wrapping_shr(rhs)
        } else {
            let n1 = word_not::<BITS, LIMBS>(&self.limbs);
            let s1 = word_wrapping_shr::<BITS, LIMBS>(&n1, rhs);
            let n2 = word_not::<BITS, LIMBS>(&s1);
            let out = Self::from_word(n2);
            proof {
                out.lemma_val();
                lemma_full_half(BITS as nat);
                let f = full(BITS as nat) as int;
                let m = pow2(rhs as nat) as int;
                let u = self.spec_uval() as int;
                let x = self.val();
                let t = uval(s1@) as int;
                assert(uval(n1@) == f - 1 - u);
                assert(x == u - f);
                assert(f - 1 - u == -1 - x);
                lemma_fundamental_div_mod(f - 1 - u, m);
                vstd::arithmetic::div_mod::lemma_mod_bound(f - 1 - u, m);
                let s = (f - 1 - u) % m;
                assert(f - 1 - u == m * t + s);
                let q = -1 - t;
                assert(m * q == -m - m * t) by (nonlinear_arith)
                    requires
                        q == -1 - t,
                ;
                assert(x - m * q == m - s - 1);
                lemma_fundamental_div_mod_converse(x, m, q, m - s - 1);
                assert(q == x / m);
                // the complemented result reads back as the quotient
                vstd::arithmetic::div_mod::lemma_div_nonincreasing(f - 1 - u, m);
                vstd::arithmetic::div_mod::lemma_div_pos_is_pos(f - 1 - u, m);
                assert(uval(n2@) == f - 1 - t);
                assert(uval(n2@) >= u);
                assert(out.val() == q);
            }
            out
        }
    }

    /// Checked arithmetic shift left: the value times `2^rhs` when that
    /// fits the width, `None` when any shifted-out bit differs from a
    /// sign-consistent fill. Shifting a non-zero value by `rhs >= BITS`
    /// always overflows.
    pub fn asl(self, rhs: usize) -> (r: Option<Self>)
        ensures
            r is Some <==> in_srange(self.val() * pow2(rhs as nat), BITS as nat),
            r matches Some(v) ==> v.wf() && v.val() == self.val() * pow2(rhs as nat),
    {
        proof {
            use_type_invariant(&self);
            self.lemma_val();
            vstd::arithmetic::power2::lemma_pow2_pos(rhs as nat);
        }
        let ghost x = self.val();
        let ghost p = pow2(rhs as nat) as int;
        let ghost bits = BITS as nat;
        if self.is_zero() {
            proof {
                assert(x * p == 0) by (nonlinear_arith)
                    requires
                        x == 0,
                ;
            }
            Some(self)
        } else if rhs >= BITS {
            proof {
                lemma_full_half(bits);
                if rhs > BITS {
                    lemma_pow2_strictly_increases(BITS as nat, rhs as nat);
                }
                assert(x >= 1 ==> x * p >= p) by (nonlinear_arith)
                    requires
                        p >= 1,
                ;
                assert(x <= -1 ==> x * p <= -p) by (nonlinear_arith)
                    requires
                        p >= 1,
                ;
            }
            None
        } else {
            let shifted = self.wrapping_shl(rhs);
            let back = shifted.asr(rhs);
            let same = Self::eq_limbs(&back, &self);
            proof {
                use_type_invariant(&back);
                back.lemma_val();
                shifted.lemma_val();
                lemma_full_half(bits);
                let f = full(bits) as int;
                let w = wrap_signed(x * p, bits);
                lemma_wrap_signed_props(x * p, bits);
                assert(shifted.val() == w);
                let d = x * p - w;
                lemma_fundamental_div_mod(d, f);
                let k = d / f;
                assert(d == f * k);
                vstd::arithmetic::power2::lemma_pow2_adds(rhs as nat, (BITS - rhs) as nat);
                let g = pow2((BITS - rhs) as nat) as int;
                assert(f == p * g);
                vstd::arithmetic::power2::lemma2_to64();
                if BITS - rhs > 1 {
                    lemma_pow2_strictly_increases(1, (BITS - rhs) as nat);
                }
                assert(g >= 2);
                assert(w == p * (x - g * k)) by (nonlinear_arith)
                    requires
                        w == x * p - (p * g) * k,
                ;
                vstd::arithmetic::div_mod::lemma_div_multiples_vanish(x - g * k, p);
                assert(back.val() == x - g * k);
                if k == 0 {
                    assert(f * k == 0 && g * k == 0) by (nonlinear_arith)
                        requires
                            k == 0,
                    ;
                    assert(w == x * p);
                    lemma_wrap_signed_in_range(w, bits);
                    assert(in_srange(x * p, bits) <==> wrap_signed(x * p, bits) == x * p) by {
                        if in_srange(x * p, bits) {
                            lemma_wrap_signed_in_range(x * p, bits);
                        }
                    }
                    assert(back.val() == x);
                } else {
                    assert(g * k >= 2 || g * k <= -2) by (nonlinear_arith)
                        requires
                            g >= 2,
                            k != 0,
                    ;
                    assert(back.val() != x);
                    assert(w != x * p);
                    assert(!in_srange(x * p, bits)) by {
                        if in_srange(x * p, bits) {
                            lemma_wrap_signed_in_range(x * p, bits);
                        }
                    }
                }
                if back.val() == x {
                    assert(back.spec_uval() == self.spec_uval()) by {
                        back.lemma_val();
                        self.lemma_val();
                    }
                }
                if back.spec_uval() == self.spec_uval() {
                    assert(back.val() == as_signed(back.spec_uval(), bits));
                    assert(x == as_signed(self.spec_uval(), bits));
                    assert(back.val() == x);
                }
            }
            if same {
                Some(shifted)
            } else {
                None
            }
        }
    }

    /// Render as hexadecimal: the sign, then `0x`, then the minimal
    /// lower-case hexadecimal digits of the absolute value.
    pub fn to_hex_string(self) -> (r: String)
        ensures
            r@ == signed_hex_str(self.val()),
    {
        proof {
            use_type_invariant(&self);
            self.lemma_val();
        }
        let (sign, abs) = self.into_sign_and_abs();
        let digits = word_to_hex_str::<BITS, LIMBS>(&abs);
        let mut out = String::from_str(sign.as_prefix());
        out.append("0x");
        out.append(digits.as_str());
        proof {
            reveal_strlit("0x");
            assert(out@ =~= signed_hex_str(self.val()));
        }
        out
    }

    /// The wrapped result of an addition or subtraction whose word-level
    /// result is congruent to the mathematical result `x = va + vb`, and the
    /// two's-complement overflow rule: with both addends' signs equal, the
    /// result's sign differing from theirs signals exactly that `x` fell
    /// outside the representable range.
    proof fn lemma_wrap_flag(va: int, vb: int, x: int, out: Self)
        requires
            out.wf(),
            x == va + vb,
            in_srange(va, BITS as nat),
            in_srange(vb, BITS as nat),
            (out.spec_uval() - x) % (full(BITS as nat) as int) == 0 || BITS == 0,
        ensures
            out.val() == wrap_signed(x, BITS as nat),
            (va < 0 <==> vb < 0) && !(out.val() < 0 <==> va < 0) <==> !in_srange(
                x,
                BITS as nat,
            ),
    {
        out.lemma_val();
        if BITS == 0 {
            assert(va == 0 && vb == 0 && x == 0);
        } else {
            let bits = BITS as nat;
            let f = full(bits) as int;
            let h = half(bits) as int;
            lemma_full_half(bits);
            lemma_sval_wrap(out.limbs@, x, bits);
            if in_srange(x, bits) {
                lemma_wrap_signed_in_range(x, bits);
            } else if x > smax(bits) {
                assert(va > 0 && vb > 0);
                lemma_wrap_shift((x - f) as int, bits);
                lemma_wrap_signed_in_range(x - f, bits);
                assert(out.val() == x - f);
            } else {
                assert(va < 0 && vb < 0);
                lemma_wrap_shift(x, bits);
                lemma_wrap_signed_in_range(x + f, bits);
                assert(out.val() == x + f);
            }
        }
    }

    /// As [`Self::lemma_wrap_flag`], for subtraction: with the operands'
    /// signs differing, the result's sign differing from the minuend's
    /// signals exactly that `va - vb` fell outside the representable range.
    proof fn lemma_wrap_flag_sub(va: int, vb: int, out: Self)
        requires
            out.wf(),
            in_srange(va, BITS as nat),
            in_srange(vb, BITS as nat),
            (out.spec_uval() - (va - vb)) % (full(BITS as nat) as int) == 0 || BITS == 0,
        ensures
            out.val() == wrap_signed(va - vb, BITS as nat),
            !(va < 0 <==> vb < 0) && !(out.val() < 0 <==> va < 0) <==> !in_srange(
                va - vb,
                BITS as nat,
            ),
    {
        out.lemma_val();
        let x = va - vb;
        if BITS == 0 {
            assert(va == 0 && vb == 0 && x == 0);
        } else {
            let bits = BITS as nat;
            let f = full(bits) as int;
            lemma_full_half(bits);
            lemma_sval_wrap(out.limbs@, x, bits);
            if in_srange(x, bits) {
                lemma_wrap_signed_in_range(x, bits);
            } else if x > smax(bits) {
                assert(va >= 0 && vb < 0);
                lemma_wrap_shift((x - f) as int, bits);
                lemma_wrap_signed_in_range(x - f, bits);
                assert(out.val() == x - f);
            } else {
                assert(va < 0 && vb >= 0);
                lemma_wrap_shift(x, bits);
                lemma_wrap_signed_in_range(x + f, bits);
                assert(out.val() == x + f);
            }
        }
    }
}

impl<const BITS: usize, const LIMBS: usize> PartialEq for Signed<BITS, LIMBS> {
    /// Bitwise equality over the underlying word.
    fn eq(&self, other: &Self) -> (r: bool) {
        proof {
            use_type_invariant(self);
            use_type_invariant(other);
            if self.limbs@ == other.limbs@ {
                assert(self.spec_uval() == other.spec_uval());
            }
            if self.spec_uval() == other.spec_uval() {
                crate::model::lemma_uval_inj(self.limbs@, other.limbs@);
                assert(self.limbs@ == other.limbs@);
            }
        }
        Self::eq_limbs(self, other)
    }
}

impl<const BITS: usize, const LIMBS: usize> Eq for Signed<BITS, LIMBS> {

}

impl<const BITS: usize, const LIMBS: usize> vstd::std_specs::cmp::PartialEqSpecImpl for Signed<BITS, LIMBS> {
    open spec fn obeys_eq_spec() -> bool {
        true
    }

    closed spec fn eq_spec(&self, other: &Self) -> bool {
        self.limbs@ == other.limbs@
    }
}

impl<const BITS: usize, const LIMBS: usize> PartialOrd for Signed<BITS, LIMBS> {
    /// Signed order: any negative value below any non-negative one; within
    /// one sign class the raw word order agrees with the signed order.
    fn partial_cmp(&self, other: &Self) -> (r: Option<core::cmp::Ordering>) {
        proof {
            use_type_invariant(self);
            use_type_invariant(other);
            self.lemma_val();
            other.lemma_val();
        }
        let sn = self.is_negative();
        let on = other.is_negative();
        if sn != on {
            if sn {
                Some(core::cmp::Ordering::Less)
            } else {
                Some(core::cmp::Ordering::Greater)
            }
        } else {
            let mut i: usize = LIMBS;
            let mut decided: Option<core::cmp::Ordering> = None;
            while i > 0
                invariant
                    i <= LIMBS,
                    self.limbs@.len() == LIMBS,
                    other.limbs@.len() == LIMBS,
                    decided is None ==> forall|j: int|
                        i <= j < LIMBS ==> self.limbs@[j] == other.limbs@[j],
                    decided == Some(core::cmp::Ordering::Less) ==> uval(self.limbs@) < uval(
                        other.limbs@,
                    ),
                    decided == Some(core::cmp::Ordering::Greater) ==> uval(other.limbs@) < uval(
                        self.limbs@,
                    ),
                    decided != Some(core::cmp::Ordering::Equal),
                decreases i,
            {
                i = i - 1;
                if decided.is_none() {
                    if self.limbs[i] < other.limbs[i] {
                        proof {
                            crate::model::lemma_uval_lex(self.limbs@, other.limbs@, i as int);
                        }
                        decided = Some(core::cmp::Ordering::Less);
                    } else if self.limbs[i] > other.limbs[i] {
                        proof {
                            crate::model::lemma_uval_lex(other.limbs@, self.limbs@, i as int);
                        }
                        decided = Some(core::cmp::Ordering::Greater);
                    }
                }
            }
            proof {
                if decided is None {
                    assert(self.limbs@ =~= other.limbs@);
                    assert(self.spec_uval() == other.spec_uval());
                }
            }
            match decided {
                Some(o) => Some(o),
                None => Some(core::cmp::Ordering::Equal),
            }
        }
    }
}

impl<const BITS: usize, const LIMBS: usize> vstd::std_specs::cmp::PartialOrdSpecImpl for Signed<BITS, LIMBS> {
    open spec fn obeys_partial_cmp_spec() -> bool {
        true
    }

    open spec fn partial_cmp_spec(&self, other: &Self) -> Option<core::cmp::Ordering> {
        if self.val() < other.val() {
            Some(core::cmp::Ordering::Less)
        } else if self.val() == other.val() {
            Some(core::cmp::Ordering::Equal)
        } else {
            Some(core::cmp::Ordering::Greater)
        }
    }
}

impl<const BITS: usize, const LIMBS: usize> core::str::FromStr for Signed<BITS, LIMBS> {
    type Err = ParseSignedError;

    /// Parse as decimal first, falling back to hexadecimal: the decimal
    /// alphabet is the stricter one, so ambiguous strings read as decimal.
    fn from_str(s: &str) -> Result<Self, ParseSignedError> {
        if !Self::dims_match() {
            return Err(ParseSignedError::IntegerOverflow);
        }
        match Self::from_dec_str(s) {
            Ok(v) => Ok(v),
            Err(_) => Self::from_hex_str(s),
        }
    }
}

} // verus!
