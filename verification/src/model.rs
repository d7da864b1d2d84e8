//! Mathematical model of fixed-width integers.
//!
//! A word of `bits` bits is stored as `limbs = ceil(bits / 64)` little-endian
//! 64-bit limbs. `uval` reads such a limb sequence as an unsigned integer,
//! `sval` reinterprets that unsigned value in two's complement. All contracts
//! of the library are stated over these functions.

use vstd::arithmetic::div_mod::{
    lemma_fundamental_div_mod, lemma_fundamental_div_mod_converse, lemma_mod_equivalence,
    lemma_small_mod,
};
use vstd::arithmetic::mul::lemma_mul_is_commutative;
use vstd::arithmetic::power2::{
    lemma_pow2_adds, lemma_pow2_pos, lemma_pow2_strictly_increases, pow2,
};
use vstd::prelude::*;

verus! {

/// Number of limbs needed for a width of `bits` bits.
pub open spec fn limbs_for(bits: nat) -> nat {
    (bits + 63) / 64
}

/// The unsigned value of a little-endian sequence of 64-bit limbs.
pub open spec fn uval(s: Seq<u64>) -> nat
    decreases s.len(),
{
    if s.len() == 0 {
        0
    } else {
        (s[0] + 0x1_0000_0000_0000_0000 * uval(s.skip(1))) as nat
    }
}

/// `2^bits`, the number of bit patterns of a `bits`-bit word.
pub open spec fn full(bits: nat) -> nat {
    pow2(bits)
}

/// `2^(bits-1)`, the weight of the sign bit (for `bits >= 1`).
pub open spec fn half(bits: nat) -> nat {
    pow2((bits - 1) as nat)
}

/// The most negative value representable in `bits` bits.
pub open spec fn smin(bits: nat) -> int {
    if bits == 0 {
        0
    } else {
        -(half(bits) as int)
    }
}

/// The most positive value representable in `bits` bits.
pub open spec fn smax(bits: nat) -> int {
    if bits == 0 {
        0
    } else {
        half(bits) - 1
    }
}

/// Whether `x` is representable as a `bits`-bit two's-complement value.
pub open spec fn in_srange(x: int, bits: nat) -> bool {
    smin(bits) <= x <= smax(bits)
}

/// The two's-complement reading of an unsigned value `u < 2^bits`.
pub open spec fn as_signed(u: nat, bits: nat) -> int {
    if u <= smax(bits) {
        u as int
    } else {
        u - full(bits)
    }
}

/// The signed value of a limb sequence.
pub open spec fn sval(s: Seq<u64>, bits: nat) -> int {
    as_signed(uval(s), bits)
}

/// The unique value congruent to `x` modulo `2^bits` that lies in
/// `[smin(bits), smax(bits)]`: what wrapping arithmetic produces.
pub open spec fn wrap_signed(x: int, bits: nat) -> int {
    if bits == 0 {
        0
    } else {
        (x + half(bits)) % (full(bits) as int) - half(bits)
    }
}

/// The absolute value of a mathematical integer.
pub open spec fn abs_of(x: int) -> nat {
    if x < 0 {
        (-x) as nat
    } else {
        x as nat
    }
}

/// The sign of a value, with zero reporting `Positive` by convention.
pub open spec fn sign_of(x: int) -> crate::sign::Sign {
    if x < 0 {
        crate::sign::Sign::Negative
    } else {
        crate::sign::Sign::Positive
    }
}

/// The two's complement of an unsigned word value: `(~u) + 1` modulo
/// `2^bits`, i.e. `2^bits - u` for `u != 0` and `0` for `u == 0`.
pub open spec fn twos_comp(u: nat, bits: nat) -> nat {
    if u == 0 {
        0
    } else {
        (full(bits) - u) as nat
    }
}

/// The raw word built from a sign and a magnitude: the magnitude itself for
/// `Positive`, its two's complement for `Negative`.
pub open spec fn from_sign_abs(sign: crate::sign::Sign, a: nat, bits: nat) -> nat {
    match sign {
        crate::sign::Sign::Positive => a,
        crate::sign::Sign::Negative => twos_comp(a, bits),
    }
}

/// The signed value a sign and a magnitude stand for.
pub open spec fn signed_intent(sign: crate::sign::Sign, a: nat) -> int {
    match sign {
        crate::sign::Sign::Positive => a as int,
        crate::sign::Sign::Negative => -(a as int),
    }
}

/// Truncating division: the quotient of the absolute values, with the signs'
/// product reapplied (rounds toward zero).
pub open spec fn trunc_div(a: int, b: int) -> int {
    if (a < 0) == (b < 0) {
        (abs_of(a) / abs_of(b)) as int
    } else {
        -((abs_of(a) / abs_of(b)) as int)
    }
}

/// Truncating remainder: `a - b * trunc_div(a, b)`; zero or of the
/// dividend's sign, with magnitude `abs_of(a) % abs_of(b)`.
pub open spec fn trunc_rem(a: int, b: int) -> int {
    if a < 0 {
        -((abs_of(a) % abs_of(b)) as int)
    } else {
        (abs_of(a) % abs_of(b)) as int
    }
}

/// Signed exponentiation: `b` to the power `e`, with `b^0 == 1`.
pub open spec fn spow(b: int, e: nat) -> int
    decreases e,
{
    if e == 0 {
        1
    } else {
        b * spow(b, (e - 1) as nat)
    }
}

/// The magnitude of a signed power is the power of the magnitude.
pub proof fn lemma_spow_abs(b: int, e: nat)
    ensures
        abs_of(spow(b, e)) == vstd::arithmetic::power::pow(abs_of(b) as int, e),
    decreases e,
{
    reveal(vstd::arithmetic::power::pow);
    if e == 0 {
    } else {
        lemma_spow_abs(b, (e - 1) as nat);
        let s = spow(b, (e - 1) as nat);
        assert(abs_of(b * s) == abs_of(b) * abs_of(s)) by (nonlinear_arith);
    }
}

/// The sign of a signed power: positive bases give positive powers, a
/// negative base alternates with the exponent's parity, and zero gives zero
/// for any positive exponent.
pub proof fn lemma_spow_sign(b: int, e: nat)
    ensures
        b > 0 ==> spow(b, e) > 0,
        b < 0 && e % 2 == 0 ==> spow(b, e) > 0,
        b < 0 && e % 2 == 1 ==> spow(b, e) < 0,
        b == 0 && e >= 1 ==> spow(b, e) == 0,
    decreases e,
{
    if e >= 1 {
        lemma_spow_sign(b, (e - 1) as nat);
        let s = spow(b, (e - 1) as nat);
        assert(b > 0 && s > 0 ==> b * s > 0) by (nonlinear_arith);
        assert(b < 0 && s > 0 ==> b * s < 0) by (nonlinear_arith);
        assert(b < 0 && s < 0 ==> b * s > 0) by (nonlinear_arith);
        assert(b == 0 ==> b * s == 0) by (nonlinear_arith);
    }
}

/// Powers multiply when exponents add.
pub proof fn lemma_spow_adds(b: int, x: nat, y: nat)
    ensures
        spow(b, x + y) == spow(b, x) * spow(b, y),
    decreases x,
{
    if x == 0 {
        assert(spow(b, y) == 1 * spow(b, y)) by (nonlinear_arith);
    } else {
        lemma_spow_adds(b, (x - 1) as nat, y);
        assert((x + y - 1) as nat == (x - 1) as nat + y);
        assert(b * (spow(b, (x - 1) as nat) * spow(b, y)) == (b * spow(b, (x - 1) as nat)) * spow(
            b,
            y,
        )) by (nonlinear_arith);
    }
}

/// A power of a square is the power at the doubled exponent.
pub proof fn lemma_spow_even(b: int, k: nat)
    ensures
        spow(b * b, k) == spow(b, 2 * k),
    decreases k,
{
    if k == 0 {
    } else {
        lemma_spow_even(b, (k - 1) as nat);
        assert(2 * k == 2 + 2 * (k - 1) as nat);
        lemma_spow_adds(b, 2, 2 * (k - 1) as nat);
        assert(spow(b, 0) == 1);
        assert(spow(b, 1) == b * spow(b, 0));
        assert(spow(b, 2) == b * spow(b, 1));
        assert(spow(b, 2) == b * (b * 1));
        assert((b * (b * 1)) * spow(b, 2 * (k - 1) as nat) == (b * b) * spow(b * b, (k - 1) as nat))
            by (nonlinear_arith)
            requires
                spow(b, 2 * (k - 1) as nat) == spow(b * b, (k - 1) as nat),
        ;
    }
}

/// Congruent bases give congruent powers.
pub proof fn lemma_spow_congruent(b1: int, b2: int, e: nat, m: int)
    requires
        m > 0,
        (b1 - b2) % m == 0,
    ensures
        (spow(b1, e) - spow(b2, e)) % m == 0,
    decreases e,
{
    if e == 0 {
        lemma_small_mod(0, m as nat);
    } else {
        lemma_spow_congruent(b1, b2, (e - 1) as nat, m);
        lemma_congruence_mul(b1, spow(b1, (e - 1) as nat), b2, spow(b2, (e - 1) as nat), m);
    }
}

/// The number of one bits in the binary representation of `n`.
pub open spec fn pop_count(n: nat) -> nat
    decreases n,
{
    if n == 0 {
        0
    } else {
        n % 2 + pop_count(n / 2)
    }
}

/// The unsigned bit length of `n`: the least `k` with `n < 2^k`.
pub open spec fn ubits(n: nat) -> nat
    decreases n,
{
    if n == 0 {
        0
    } else {
        1 + ubits(n / 2)
    }
}

/// The signed bit length: the least width whose two's-complement range
/// holds the value. A negative power of two needs no bit beyond its
/// magnitude's unsigned length; every other non-zero value needs one more
/// for the sign.
pub open spec fn sbits(x: int) -> nat {
    if x == 0 {
        0
    } else if x > 0 {
        ubits(x as nat) + 1
    } else if -x == pow2((ubits((-x) as nat) - 1) as nat) {
        ubits((-x) as nat)
    } else {
        ubits((-x) as nat) + 1
    }
}

/// The unsigned bit length brackets its argument between two powers of two.
pub proof fn lemma_ubits_bounds(n: nat)
    ensures
        n < pow2(ubits(n)),
        n >= 1 ==> n >= pow2((ubits(n) - 1) as nat),
    decreases n,
{
    vstd::arithmetic::power2::lemma2_to64();
    if n >= 1 {
        lemma_ubits_bounds(n / 2);
        let u = ubits(n / 2);
        vstd::arithmetic::power2::lemma_pow2_unfold((u + 1) as nat);
        lemma_fundamental_div_mod(n as int, 2);
        if n / 2 >= 1 {
            vstd::arithmetic::power2::lemma_pow2_unfold(u);
        }
    }
}

/// Any bracket between consecutive powers of two determines the bit length.
pub proof fn lemma_ubits_unique(n: nat, k: nat)
    requires
        n < pow2(k),
        k == 0 || n >= pow2((k - 1) as nat),
    ensures
        ubits(n) == k,
{
    lemma_ubits_bounds(n);
    let u = ubits(n);
    if u < k {
        if k >= 1 && u <= k - 1 {
            if u < k - 1 {
                lemma_pow2_strictly_increases(u, (k - 1) as nat);
            }
            assert(pow2(u) <= pow2((k - 1) as nat));
            assert(n < pow2(u));
            assert(false);
        }
    }
    if u > k {
        assert(n >= 1) by {
            if n == 0 {
                assert(ubits(0) == 0);
            }
        }
        if k < u - 1 {
            lemma_pow2_strictly_increases(k, (u - 1) as nat);
        }
        assert(pow2(k) <= pow2((u - 1) as nat));
        assert(n >= pow2((u - 1) as nat));
        assert(false);
    }
}

/// Euclidean division: the quotient such that the remainder is always
/// non-negative and smaller than the divisor's magnitude.
pub open spec fn euclid_div(a: int, b: int) -> int {
    if b > 0 {
        a / b
    } else {
        -(a / (-b))
    }
}

/// Euclidean remainder: `a - b * euclid_div(a, b)`, in `[0, |b|)`.
pub open spec fn euclid_rem(a: int, b: int) -> int {
    a - b * euclid_div(a, b)
}

/// Euclidean division satisfies the division identity with a non-negative
/// remainder smaller than the divisor's magnitude.
pub proof fn lemma_euclid_props(a: int, b: int)
    requires
        b != 0,
    ensures
        a == b * euclid_div(a, b) + euclid_rem(a, b),
        0 <= euclid_rem(a, b) < abs_of(b),
{
    if b > 0 {
        lemma_fundamental_div_mod(a, b);
        vstd::arithmetic::div_mod::lemma_mod_bound(a, b);
    } else {
        let d = -b;
        lemma_fundamental_div_mod(a, d);
        vstd::arithmetic::div_mod::lemma_mod_bound(a, d);
        let q = a / d;
        assert(b * (-q) == d * q) by (nonlinear_arith)
            requires
                b == -d,
        ;
    }
}

/// The division identity with a remainder in `[0, |b|)` determines the
/// Euclidean quotient and remainder uniquely.
pub proof fn lemma_euclid_unique(a: int, b: int, q: int, r: int)
    requires
        b != 0,
        a == b * q + r,
        0 <= r < abs_of(b),
    ensures
        q == euclid_div(a, b),
        r == euclid_rem(a, b),
{
    lemma_euclid_props(a, b);
    let qe = euclid_div(a, b);
    let re = euclid_rem(a, b);
    assert(b * q + r == b * qe + re);
    if q != qe {
        assert(b * q - b * qe == re - r);
        assert(false) by (nonlinear_arith)
            requires
                b != 0,
                q != qe,
                b * q - b * qe == re - r,
                0 <= r < abs_of(b),
                0 <= re < abs_of(b),
        ;
    }
}

/// Arithmetic facts about the limb count: for a positive width the top limb
/// exists, starts at bit `64 * (limbs - 1) < bits`, and the sign bit sits at
/// offset `(bits - 1) % 64` within it.
pub proof fn lemma_limb_dims(bits: nat)
    requires
        bits >= 1,
    ensures
        limbs_for(bits) >= 1,
        64 * (limbs_for(bits) - 1) < bits <= 64 * limbs_for(bits),
        (bits - 1) - 64 * (limbs_for(bits) - 1) == (bits - 1) % 64,
        (bits - 1) % 64 < 64,
{
    let l = limbs_for(bits);
    assert(l == (bits + 63) / 64);
    assert(l >= 1 && 64 * (l - 1) < bits <= 64 * l && (bits - 1) - 64 * (l - 1) == (bits - 1) % 64
        && (bits - 1) % 64 < 64) by (nonlinear_arith)
        requires
            bits >= 1,
            l == (bits + 63) / 64,
    ;
}

/// An upper bound for a limb sequence: `uval(s) < 2^(64 * s.len())`.
pub proof fn lemma_uval_bound(s: Seq<u64>)
    ensures
        uval(s) < pow2(64 * s.len()),
    decreases s.len(),
{
    if s.len() == 0 {
        vstd::arithmetic::power2::lemma2_to64();
    } else {
        lemma_uval_bound(s.skip(1));
        lemma_pow2_adds(64, 64 * (s.len() - 1) as nat);
        vstd::arithmetic::power2::lemma2_to64();
        assert(64 * s.len() == 64 + 64 * (s.len() - 1) as nat) by (nonlinear_arith)
            requires
                s.len() >= 1,
        ;
        assert(0x1_0000_0000_0000_0000 * uval(s.skip(1)) <= 0x1_0000_0000_0000_0000 * (pow2(
            64 * (s.len() - 1) as nat,
        ) - 1)) by (nonlinear_arith)
            requires
                uval(s.skip(1)) <= pow2(64 * (s.len() - 1) as nat) - 1,
        ;
    }
}

/// Decomposition of a limb sequence at its top limb:
/// `uval(s) == uval(s without its last limb) + 2^(64 * (len - 1)) * s.last()`.
pub proof fn lemma_uval_top(s: Seq<u64>)
    requires
        s.len() >= 1,
    ensures
        uval(s) == uval(s.drop_last()) + pow2(64 * (s.len() - 1) as nat) * s.last(),
    decreases s.len(),
{
    vstd::arithmetic::power2::lemma2_to64();
    if s.len() == 1 {
        assert(s.drop_last() =~= Seq::<u64>::empty());
        assert(s.skip(1) =~= Seq::<u64>::empty());
        assert(uval(s) == (s[0] + 0x1_0000_0000_0000_0000 * uval(s.skip(1))) as nat);
        assert(uval(s) == s[0]);
        assert(pow2(0) * s.last() == s.last());
    } else {
        let c: nat = 0x1_0000_0000_0000_0000;
        let t = s.skip(1);
        lemma_uval_top(t);
        let p = pow2(64 * (t.len() - 1) as nat);
        assert(t.drop_last() =~= s.drop_last().skip(1));
        assert(t.last() == s.last());
        lemma_pow2_adds(64, 64 * (t.len() - 1) as nat);
        assert(64 * (s.len() - 1) as nat == 64 + 64 * (t.len() - 1) as nat) by (nonlinear_arith)
            requires
                t.len() == s.len() - 1,
                s.len() >= 2,
        ;
        assert(pow2(64 * (s.len() - 1) as nat) == c * p);
        assert(uval(s) == (s[0] + c * uval(t)) as nat);
        assert(uval(s.drop_last()) == (s[0] + c * uval(t.drop_last())) as nat);
        assert(uval(t) == uval(t.drop_last()) + p * t.last());
        assert(c * (uval(t.drop_last()) + p * t.last()) == c * uval(t.drop_last()) + (c * p)
            * t.last()) by (nonlinear_arith);
        assert(uval(s) == s[0] + c * uval(t.drop_last()) + (c * p) * s.last());
    }
}

/// The value of a little-endian byte sequence.
pub open spec fn bytes_le_val(s: Seq<u8>) -> nat
    decreases s.len(),
{
    if s.len() == 0 {
        0
    } else {
        (s[0] + 256 * bytes_le_val(s.skip(1))) as nat
    }
}

/// The value of a big-endian byte sequence: the last byte is the least
/// significant.
pub open spec fn bytes_be_val(s: Seq<u8>) -> nat
    decreases s.len(),
{
    if s.len() == 0 {
        0
    } else {
        (bytes_be_val(s.drop_last()) * 256 + s.last()) as nat
    }
}

/// Dividing a word by the weight of limb `k` exposes that limb in the low
/// position: `uval(s) / 2^(64k) == s[k] + 2^64 * uval(s beyond k)`.
pub proof fn lemma_limb_extract(s: Seq<u64>, k: int)
    requires
        0 <= k < s.len(),
    ensures
        uval(s) / pow2((64 * k) as nat) == s[k] + 0x1_0000_0000_0000_0000 * uval(s.skip(k + 1)),
    decreases k,
{
    vstd::arithmetic::power2::lemma2_to64();
    if k == 0 {
        assert(pow2(0) == 1);
        assert(uval(s) / 1 == uval(s)) by (nonlinear_arith);
        assert(uval(s) == (s[0] + 0x1_0000_0000_0000_0000 * uval(s.skip(1))) as nat);
    } else {
        let c: int = 0x1_0000_0000_0000_0000;
        let t = s.skip(1);
        lemma_limb_extract(t, k - 1);
        assert(t.skip(k) =~= s.skip(k + 1));
        assert(t[k - 1] == s[k]);
        lemma_pow2_adds(64, (64 * (k - 1)) as nat);
        assert((64 * k) as nat == 64 + (64 * (k - 1)) as nat);
        let d = pow2((64 * (k - 1)) as nat) as int;
        lemma_pow2_pos((64 * (k - 1)) as nat);
        assert(uval(s) == (s[0] + c * uval(t)) as nat);
        // divide out one limb's weight, then recurse
        vstd::arithmetic::div_mod::lemma_div_multiples_vanish_fancy(
            uval(t) as int,
            s[0] as int,
            c,
        );
        assert((s[0] + c * uval(t)) / c == uval(t));
        vstd::arithmetic::div_mod::lemma_div_denominator(uval(s) as int, c, d);
        assert((uval(s) as int) / (c * d) == (uval(t) as int) / d);
        assert(c * d == pow2((64 * k) as nat)) by {
            assert(pow2((64 * k) as nat) == pow2(64) * pow2((64 * (k - 1)) as nat));
        }
    }
}

/// Limb sequences of equal length with the same unsigned value are equal:
/// the little-endian limb representation is unique.
pub proof fn lemma_uval_inj(s1: Seq<u64>, s2: Seq<u64>)
    requires
        s1.len() == s2.len(),
        uval(s1) == uval(s2),
    ensures
        s1 =~= s2,
    decreases s1.len(),
{
    if s1.len() > 0 {
        let c: nat = 0x1_0000_0000_0000_0000;
        let r1 = uval(s1.skip(1));
        let r2 = uval(s2.skip(1));
        assert(uval(s1) == (s1[0] + c * r1) as nat);
        assert(uval(s2) == (s2[0] + c * r2) as nat);
        vstd::arithmetic::div_mod::lemma_mod_multiples_vanish(
            r1 as int,
            s1[0] as int,
            c as int,
        );
        vstd::arithmetic::div_mod::lemma_mod_multiples_vanish(
            r2 as int,
            s2[0] as int,
            c as int,
        );
        lemma_small_mod(s1[0] as nat, c);
        lemma_small_mod(s2[0] as nat, c);
        assert(c * r1 == c * r2);
        assert(r1 == r2) by (nonlinear_arith)
            requires
                c * r1 == c * r2,
                c > 0,
        ;
        lemma_uval_inj(s1.skip(1), s2.skip(1));
        assert forall|i: int| 0 <= i < s1.len() implies s1[i] == s2[i] by {
            if i > 0 {
                assert(s1.skip(1)[i - 1] == s2.skip(1)[i - 1]);
            }
        }
    }
}

/// Lexicographic comparison from the most significant limb decides the
/// unsigned order: if two equal-length words agree above position `j` and
/// differ there, the one with the smaller limb is smaller.
pub proof fn lemma_uval_lex(s1: Seq<u64>, s2: Seq<u64>, j: int)
    requires
        s1.len() == s2.len(),
        0 <= j < s1.len(),
        forall|i: int| j < i < s1.len() ==> s1[i] == s2[i],
        s1[j] < s2[j],
    ensures
        uval(s1) < uval(s2),
    decreases s1.len(),
{
    if j == s1.len() - 1 {
        lemma_uval_top(s1);
        lemma_uval_top(s2);
        lemma_uval_bound(s1.drop_last());
        let p = pow2(64 * (s1.len() - 1) as nat);
        lemma_pow2_pos(64 * (s1.len() - 1) as nat);
        assert(p * s1.last() + p <= p * s2.last()) by (nonlinear_arith)
            requires
                s1.last() < s2.last(),
                p >= 1,
        ;
    } else {
        lemma_uval_top(s1);
        lemma_uval_top(s2);
        assert(s1.last() == s2.last());
        assert(s1.drop_last().len() == s2.drop_last().len());
        assert forall|i: int| j < i < s1.drop_last().len() implies s1.drop_last()[i]
            == s2.drop_last()[i] by {
            assert(s1[i] == s2[i]);
        }
        assert(s1.drop_last()[j] == s1[j] && s2.drop_last()[j] == s2[j]);
        lemma_uval_lex(s1.drop_last(), s2.drop_last(), j);
    }
}

/// A word is zero exactly when every limb is zero.
pub proof fn lemma_uval_zero_iff(s: Seq<u64>)
    ensures
        uval(s) == 0 <==> (forall|i: int| 0 <= i < s.len() ==> s[i] == 0),
    decreases s.len(),
{
    if s.len() > 0 {
        lemma_uval_zero_iff(s.skip(1));
        assert(uval(s) == (s[0] + 0x1_0000_0000_0000_0000 * uval(s.skip(1))) as nat);
        if uval(s) == 0 {
            assert(s[0] + 0x1_0000_0000_0000_0000 * uval(s.skip(1)) == 0);
            assert(uval(s.skip(1)) == 0) by (nonlinear_arith)
                requires
                    s[0] + 0x1_0000_0000_0000_0000 * uval(s.skip(1)) == 0,
            ;
            assert forall|i: int| 0 <= i < s.len() implies s[i] == 0 by {
                if i > 0 {
                    assert(s[i] == s.skip(1)[i - 1]);
                }
            }
        }
        if forall|i: int| 0 <= i < s.len() ==> s[i] == 0 {
            assert forall|i: int| 0 <= i < s.skip(1).len() implies s.skip(1)[i] == 0 by {
                assert(s.skip(1)[i] == s[i + 1]);
            }
            assert(uval(s.skip(1)) == 0);
        }
    }
}

/// A word's low bit is its first limb's low bit.
pub proof fn lemma_uval_parity(s: Seq<u64>)
    requires
        s.len() >= 1,
    ensures
        uval(s) % 2 == s[0] % 2,
{
    assert(uval(s) == s[0] + 0x1_0000_0000_0000_0000 * uval(s.skip(1)));
    assert((s[0] + 0x1_0000_0000_0000_0000 * uval(s.skip(1))) % 2 == s[0] % 2) by (nonlinear_arith);
}

/// The sign bit: a well-formed word of positive width reads as negative
/// exactly when its top limb reaches the sign-bit mask
/// `2^((bits - 1) % 64)`.
pub proof fn lemma_sign_bit(s: Seq<u64>, bits: nat)
    requires
        bits >= 1,
        s.len() == limbs_for(bits),
        uval(s) < full(bits),
    ensures
        (uval(s) >= half(bits)) <==> (s.last() >= pow2(((bits - 1) % 64) as nat)),
        pow2(((bits - 1) % 64) as nat) < 0x1_0000_0000_0000_0000,
{
    lemma_limb_dims(bits);
    let l = s.len();
    let p = pow2(64 * (l - 1) as nat);
    let k = ((bits - 1) % 64) as nat;
    let m = pow2(k);
    lemma_uval_top(s);
    lemma_uval_bound(s.drop_last());
    assert(s.drop_last().len() == l - 1);
    // half = p * m, since (bits - 1) == 64 * (l - 1) + k
    lemma_pow2_adds(64 * (l - 1) as nat, k);
    assert(half(bits) == p * m);
    lemma_pow2_pos(64 * (l - 1) as nat);
    lemma_pow2_pos(k);
    if s.last() >= m {
        assert(p * m <= p * s.last()) by (nonlinear_arith)
            requires
                m <= s.last(),
                p >= 1,
        ;
        assert(uval(s) >= half(bits));
    }
    if s.last() < m {
        assert(p * s.last() <= p * (m - 1)) by (nonlinear_arith)
            requires
                s.last() <= m - 1,
                p >= 1,
        ;
        assert(uval(s) < p + p * (m - 1));
        assert(p + p * (m - 1) == p * m) by (nonlinear_arith);
        assert(uval(s) < half(bits));
    }
    lemma_pow2_strictly_increases(k, 64);
    vstd::arithmetic::power2::lemma2_to64();
}

/// Full and half widths relate by a factor of two (for `bits >= 1`).
pub proof fn lemma_full_half(bits: nat)
    requires
        bits >= 1,
    ensures
        full(bits) == 2 * half(bits),
        half(bits) >= 1,
        smin(bits) < 0 <= smax(bits),
        smax(bits) + 1 == -smin(bits),
{
    lemma_pow2_adds((bits - 1) as nat, 1);
    vstd::arithmetic::power2::lemma2_to64();
    lemma_pow2_pos((bits - 1) as nat);
}

/// `wrap_signed(x, bits)` is in range and congruent to `x` modulo `2^bits`.
pub proof fn lemma_wrap_signed_props(x: int, bits: nat)
    requires
        bits >= 1,
    ensures
        in_srange(wrap_signed(x, bits), bits),
        (x - wrap_signed(x, bits)) % (full(bits) as int) == 0,
{
    let f = full(bits) as int;
    let h = half(bits) as int;
    lemma_full_half(bits);
    lemma_fundamental_div_mod(x + h, f);
    vstd::arithmetic::div_mod::lemma_mod_bound(x + h, f);
    let q = (x + h) / f;
    assert(x - wrap_signed(x, bits) == f * q);
    lemma_mul_is_commutative(f, q);
    vstd::arithmetic::div_mod::lemma_mod_multiples_basic(q, f);
}

/// A value already in range wraps to itself.
pub proof fn lemma_wrap_signed_in_range(x: int, bits: nat)
    requires
        bits >= 1,
        in_srange(x, bits),
    ensures
        wrap_signed(x, bits) == x,
{
    lemma_full_half(bits);
    lemma_small_mod((x + half(bits)) as nat, full(bits));
}

/// Shifting the argument by a multiple of `2^bits` does not change its wrap.
pub proof fn lemma_wrap_shift(x: int, bits: nat)
    requires
        bits >= 1,
    ensures
        wrap_signed(x + full(bits), bits) == wrap_signed(x, bits),
        wrap_signed(x - full(bits), bits) == wrap_signed(x, bits),
{
    let f = full(bits) as int;
    lemma_full_half(bits);
    vstd::arithmetic::div_mod::lemma_mod_self_0(f);
    lemma_mod_equivalence(x + f, x, f);
    lemma_mod_equivalence(x - f, x, f);
    vstd::arithmetic::div_mod::lemma_mod_add_multiples_vanish(x, f);
    vstd::arithmetic::div_mod::lemma_mod_sub_multiples_vanish(x, f);
    lemma_wrap_signed_congruent(x + f, x, bits);
    lemma_wrap_signed_congruent(x - f, x, bits);
}

/// Congruent values wrap to the same result.
pub proof fn lemma_wrap_signed_congruent(x: int, y: int, bits: nat)
    requires
        bits >= 1,
        (x - y) % (full(bits) as int) == 0,
    ensures
        wrap_signed(x, bits) == wrap_signed(y, bits),
{
    let f = full(bits) as int;
    lemma_full_half(bits);
    lemma_mod_equivalence(x, y, f);
    lemma_mod_equivalence(x + half(bits), y + half(bits), f);
}

/// Reducing modulo `m` keeps a value congruent to itself.
pub proof fn lemma_mod_reduce(x: int, m: int)
    requires
        m > 0,
    ensures
        (x % m - x) % m == 0,
{
    vstd::arithmetic::div_mod::lemma_mod_twice(x, m);
    lemma_mod_equivalence(x % m, x, m);
}

/// Congruence is preserved by addition.
pub proof fn lemma_congruence_add(a1: int, a2: int, b1: int, b2: int, m: int)
    requires
        m > 0,
        (a1 - b1) % m == 0,
        (a2 - b2) % m == 0,
    ensures
        ((a1 + a2) - (b1 + b2)) % m == 0,
{
    lemma_mod_equivalence(a1, b1, m);
    lemma_mod_equivalence(a2, b2, m);
    vstd::arithmetic::div_mod::lemma_add_mod_noop(a1, a2, m);
    vstd::arithmetic::div_mod::lemma_add_mod_noop(b1, b2, m);
    lemma_mod_equivalence(a1 + a2, b1 + b2, m);
}

/// Congruence is symmetric.
pub proof fn lemma_congruent_sym(a: int, b: int, m: int)
    requires
        m > 0,
        (a - b) % m == 0,
    ensures
        (b - a) % m == 0,
{
    lemma_mod_equivalence(a, b, m);
    lemma_mod_equivalence(b, a, m);
}

/// Congruence is transitive.
pub proof fn lemma_congruence_trans(a: int, b: int, c: int, m: int)
    requires
        m > 0,
        (a - b) % m == 0,
        (b - c) % m == 0,
    ensures
        (a - c) % m == 0,
{
    lemma_mod_equivalence(a, b, m);
    lemma_mod_equivalence(b, c, m);
    lemma_mod_equivalence(a, c, m);
}

/// Congruence is preserved by multiplication.
pub proof fn lemma_congruence_mul(a1: int, a2: int, b1: int, b2: int, m: int)
    requires
        m > 0,
        (a1 - b1) % m == 0,
        (a2 - b2) % m == 0,
    ensures
        ((a1 * a2) - (b1 * b2)) % m == 0,
{
    lemma_mod_equivalence(a1, b1, m);
    lemma_mod_equivalence(a2, b2, m);
    vstd::arithmetic::div_mod::lemma_mul_mod_noop(a1, a2, m);
    vstd::arithmetic::div_mod::lemma_mul_mod_noop(b1, b2, m);
    lemma_mod_equivalence(a1 * a2, b1 * b2, m);
}

/// A word whose unsigned value is congruent to `x` modulo `2^bits` reads,
/// as a signed value, as the wrap of `x`.
pub proof fn lemma_sval_wrap(s: Seq<u64>, x: int, bits: nat)
    requires
        bits >= 1,
        uval(s) < full(bits),
        (uval(s) - x) % (full(bits) as int) == 0,
    ensures
        sval(s, bits) == wrap_signed(x, bits),
{
    lemma_full_half(bits);
    lemma_sval_props(s, bits);
    lemma_wrap_signed_congruent(uval(s) as int, x, bits);
}

/// The signed reading of a word is in range, congruent to the unsigned
/// reading, and equal to its own wrap.
pub proof fn lemma_sval_props(s: Seq<u64>, bits: nat)
    requires
        bits >= 1,
        uval(s) < full(bits),
    ensures
        in_srange(sval(s, bits), bits),
        (uval(s) - sval(s, bits)) % (full(bits) as int) == 0,
        sval(s, bits) == wrap_signed(uval(s) as int, bits),
        sval(s, bits) < 0 <==> uval(s) >= half(bits),
        (uval(s) as int) % (full(bits) as int) == (sval(s, bits) % (full(bits) as int)),
{
    let f = full(bits) as int;
    let h = half(bits) as int;
    lemma_full_half(bits);
    let v = sval(s, bits);
    if uval(s) <= smax(bits) {
        assert(uval(s) - v == 0);
        lemma_small_mod(0, full(bits));
    } else {
        assert(uval(s) - v == f);
        vstd::arithmetic::div_mod::lemma_mod_self_0(f);
    }
    lemma_mod_equivalence(uval(s) as int, v, f);
    lemma_wrap_signed_in_range(v, bits);
    lemma_wrap_signed_congruent(uval(s) as int, v, bits);
}

/// Truncating division and remainder satisfy the division identity, and the
/// remainder is smaller in magnitude than the divisor.
pub proof fn lemma_trunc_div_rem(a: int, b: int)
    requires
        b != 0,
    ensures
        a == b * trunc_div(a, b) + trunc_rem(a, b),
        abs_of(trunc_rem(a, b)) < abs_of(b),
        abs_of(trunc_div(a, b)) == abs_of(a) / abs_of(b),
{
    let aa = abs_of(a) as int;
    let ab = abs_of(b) as int;
    let qa = aa / ab;
    let ra = aa % ab;
    lemma_fundamental_div_mod(aa, ab);
    vstd::arithmetic::div_mod::lemma_mod_bound(aa, ab);
    vstd::arithmetic::div_mod::lemma_div_pos_is_pos(aa, ab);
    assert(aa == ab * qa + ra);
    if a >= 0 && b > 0 {
        assert(a == b * trunc_div(a, b) + trunc_rem(a, b));
    } else if a >= 0 && b < 0 {
        assert(b * trunc_div(a, b) == (-ab) * (-qa));
        assert((-ab) * (-qa) == ab * qa) by (nonlinear_arith);
    } else if a < 0 && b > 0 {
        assert(b * trunc_div(a, b) == ab * (-qa));
        assert(ab * (-qa) == -(ab * qa)) by (nonlinear_arith);
    } else {
        assert(b * trunc_div(a, b) == (-ab) * qa);
        assert((-ab) * qa == -(ab * qa)) by (nonlinear_arith);
    }
}

/// Range of truncating division of representable values: the remainder is
/// always representable, and the quotient overflows exactly for the most
/// negative dividend divided by minus one.
pub proof fn lemma_trunc_div_range(va: int, vb: int, bits: nat)
    requires
        bits >= 1,
        in_srange(va, bits),
        in_srange(vb, bits),
        vb != 0,
    ensures
        in_srange(trunc_div(va, vb), bits) <==> !(va == smin(bits) && vb == -1),
        in_srange(trunc_rem(va, vb), bits),
        va == smin(bits) && vb == -1 ==> trunc_div(va, vb) == half(bits) && trunc_rem(va, vb)
            == 0,
{
    lemma_full_half(bits);
    lemma_trunc_div_rem(va, vb);
    let h = half(bits) as int;
    let a = abs_of(va) as int;
    let b = abs_of(vb) as int;
    let q = a / b;
    let r = a % b;
    lemma_fundamental_div_mod(a, b);
    vstd::arithmetic::div_mod::lemma_mod_bound(a, b);
    vstd::arithmetic::div_mod::lemma_div_pos_is_pos(a, b);
    vstd::arithmetic::div_mod::lemma_div_nonincreasing(a, b);
    assert(a <= h && 1 <= b <= h);
    if q >= h {
        // only |va| == 2^(bits-1) divided by one reaches the bound
        assert(b * q >= b * h) by (nonlinear_arith)
            requires
                q >= h,
                b >= 1,
        ;
        assert(b * h >= h) by (nonlinear_arith)
            requires
                b >= 1,
                h >= 0,
        ;
        assert(a >= b * q);
        assert(b == 1) by (nonlinear_arith)
            requires
                b >= 1,
                h >= 1,
                b * h <= h,
        ;
        assert(q == a && a == h);
    }
    if va == smin(bits) && vb == -1 {
        lemma_fundamental_div_mod_converse(h, 1, h, 0);
        assert(trunc_div(va, vb) == h);
        assert(trunc_rem(va, vb) == 0);
    }
}

/// How truncating and Euclidean division of representable values relate:
/// the Euclidean results follow from the truncating ones by a one-step
/// correction when the truncating remainder is negative, the Euclidean
/// remainder always fits the width, and the quotient overflows exactly for
/// the most negative value divided by minus one.
pub proof fn lemma_euclid_range(va: int, vb: int, bits: nat)
    requires
        bits >= 1,
        in_srange(va, bits),
        in_srange(vb, bits),
        vb != 0,
    ensures
        trunc_rem(va, vb) >= 0 ==> euclid_div(va, vb) == trunc_div(va, vb)
            && euclid_rem(va, vb) == trunc_rem(va, vb),
        trunc_rem(va, vb) < 0 && vb > 0 ==> euclid_div(va, vb) == trunc_div(
            va,
            vb,
        ) - 1 && euclid_rem(va, vb) == trunc_rem(va, vb) + vb,
        trunc_rem(va, vb) < 0 && vb < 0 ==> euclid_div(va, vb) == trunc_div(
            va,
            vb,
        ) + 1 && euclid_rem(va, vb) == trunc_rem(va, vb) - vb,
        in_srange(euclid_rem(va, vb), bits),
        in_srange(euclid_div(va, vb), bits) <==> !(va == smin(
            bits,
        ) && vb == -1),
        va == smin(bits) && vb == -1 ==> euclid_div(va, vb) == half(
            bits,
        ),
{
    let bits = bits;
    lemma_full_half(bits);
    lemma_trunc_div_rem(va, vb);
    lemma_trunc_div_range(va, vb, bits);
    let qt = trunc_div(va, vb);
    let rt = trunc_rem(va, vb);
    if rt >= 0 {
        lemma_euclid_unique(va, vb, qt, rt);
    } else if vb > 0 {
        assert(vb * (qt - 1) == vb * qt - vb) by (nonlinear_arith);
        lemma_euclid_unique(va, vb, qt - 1, rt + vb);
        // the corrected quotient still fits: the truncating quotient is
        // at its negative bound only when the remainder is zero
        assert(va < 0);
        if qt - 1 < smin(bits) {
            // the truncating quotient is at the negative bound, which
            // only an exact division reaches
            let a = abs_of(va) as int;
            let b = abs_of(vb) as int;
            let qa = a / b;
            assert(qt == -qa && qt == smin(bits));
            assert(qa == half(bits));
            lemma_fundamental_div_mod(a, b);
            vstd::arithmetic::div_mod::lemma_mod_bound(a, b);
            assert(a >= b * qa);
            assert(b == 1) by (nonlinear_arith)
                requires
                    b >= 1,
                    qa >= 1,
                    b * qa <= qa,
            ;
            lemma_fundamental_div_mod_converse(a, 1, a, 0);
            assert(rt == 0);
            assert(false);
        }
    } else {
        assert(vb * (qt + 1) == vb * qt + vb) by (nonlinear_arith);
        lemma_euclid_unique(va, vb, qt + 1, rt - vb);
        assert(va < 0);
        if qt + 1 > smax(bits) {
            // the truncating quotient would already be at the positive
            // bound reached only by an exact division
            let a = abs_of(va) as int;
            let b = abs_of(vb) as int;
            assert(qt == a / b && qt >= smax(bits));
            lemma_fundamental_div_mod(a, b);
            vstd::arithmetic::div_mod::lemma_mod_bound(a, b);
            assert(a == b * qt + (a % b));
            assert(rt == -(a % b));
            assert(b * qt >= 2 * qt) by (nonlinear_arith)
                requires
                    b >= 2,
                    qt >= 0,
            ;
            if b == 1 {
                lemma_fundamental_div_mod_converse(a, 1, a, 0);
                assert(rt == 0);
                assert(false);
            }
            assert(b >= 2);
            assert(a <= half(bits));
            assert(qt <= smax(bits));
            assert(qt == smax(bits));
            assert(2 * qt <= a);
            assert(2 * (half(bits) - 1) <= half(bits));
            assert(half(bits) <= 2);
            // widths this small leave no room for a negative remainder
            assert(a % b != 0);
            assert(a < 2 * b) by (nonlinear_arith)
                requires
                    b * qt <= a,
                    a <= 2,
                    b >= 2,
                    qt >= 1,
                    b * qt >= 2 * qt,
            ;
            assert(false) by (nonlinear_arith)
                requires
                    a == b * qt + (a % b),
                    a % b >= 1,
                    qt >= 1,
                    b >= 2,
                    a <= 2,
            ;
        }
    }
}

} // verus!
