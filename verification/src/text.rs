//! Textual model: decimal and hexadecimal digit strings.
//!
//! The grammar is the one the parsers accept: an optional leading `+` or
//! `-`, then digits of the radix with underscores ignored as group
//! separators. Rendering produces the canonical form: minimal digits, no
//! underscores, `-` for negative values only.

use crate::model::{abs_of, signed_intent};
use crate::sign::Sign;
use vstd::prelude::*;

verus! {

/// The numeric value of a digit character under the given radix (10 or 16),
/// or 16 if it is no digit of that radix. Hexadecimal letters may be upper
/// or lower case.
pub open spec fn digit_val(c: char, radix: nat) -> nat {
    let u = c as u32;
    if 48 <= u <= 57 {
        if u - 48 < radix {
            (u - 48) as nat
        } else {
            16
        }
    } else if radix == 16 && 97 <= u <= 102 {
        (u - 87) as nat
    } else if radix == 16 && 65 <= u <= 70 {
        (u - 55) as nat
    } else {
        16
    }
}

/// Whether `c` is a digit of the radix.
pub open spec fn is_digit(c: char, radix: nat) -> bool {
    digit_val(c, radix) < radix
}

/// Whether every character of `s` is a digit of the radix or an underscore.
pub open spec fn digits_ok(s: Seq<char>, radix: nat) -> bool {
    forall|i: int| 0 <= i < s.len() ==> is_digit(#[trigger] s[i], radix) || s[i] == '_'
}

/// The value of a digit string read left to right, underscores skipped.
/// An empty (or all-underscore) string reads as zero.
pub open spec fn digits_val(s: Seq<char>, radix: nat) -> nat
    decreases s.len(),
{
    if s.len() == 0 {
        0
    } else if s.last() == '_' {
        digits_val(s.drop_last(), radix)
    } else {
        digits_val(s.drop_last(), radix) * radix + digit_val(s.last(), radix)
    }
}

/// The digit character for a value below sixteen (lower case letters).
pub open spec fn digit_char(d: nat) -> char {
    if d == 0 {
        '0'
    } else if d == 1 {
        '1'
    } else if d == 2 {
        '2'
    } else if d == 3 {
        '3'
    } else if d == 4 {
        '4'
    } else if d == 5 {
        '5'
    } else if d == 6 {
        '6'
    } else if d == 7 {
        '7'
    } else if d == 8 {
        '8'
    } else if d == 9 {
        '9'
    } else if d == 10 {
        'a'
    } else if d == 11 {
        'b'
    } else if d == 12 {
        'c'
    } else if d == 13 {
        'd'
    } else if d == 14 {
        'e'
    } else {
        'f'
    }
}

/// The canonical digit string of an unsigned value: minimal digits, most
/// significant first, `"0"` for zero.
pub open spec fn digits_of(n: nat, radix: nat) -> Seq<char>
    decreases n,
    via digits_of_decreases
{
    if radix < 2 || n < radix {
        seq![digit_char(n)]
    } else {
        digits_of(n / radix, radix).push(digit_char(n % radix))
    }
}

#[via_fn]
proof fn digits_of_decreases(n: nat, radix: nat) {
    if !(radix < 2 || n < radix) {
        assert(n / radix < n) by (nonlinear_arith)
            requires
                n >= radix,
                radix >= 2,
        ;
    }
}

/// The sign read from an optionally signed string: `-` gives `Negative`,
/// anything else (including `+` and no sign at all) gives `Positive`.
pub open spec fn sign_prefix_of(s: Seq<char>) -> Sign {
    if s.len() >= 1 && s[0] == '-' {
        Sign::Negative
    } else {
        Sign::Positive
    }
}

/// The rest of an optionally signed string after its sign token.
pub open spec fn sign_body_of(s: Seq<char>) -> Seq<char> {
    if s.len() >= 1 && (s[0] == '+' || s[0] == '-') {
        s.skip(1)
    } else {
        s
    }
}

/// Whether a decimal string is well-formed: an optional sign, then decimal
/// digits and underscores.
pub open spec fn dec_ok(s: Seq<char>) -> bool {
    digits_ok(sign_body_of(s), 10)
}

/// The signed value of a well-formed decimal string.
pub open spec fn dec_value(s: Seq<char>) -> int {
    signed_intent(sign_prefix_of(s), digits_val(sign_body_of(s), 10))
}

/// The body of a hexadecimal string: the rest after the sign token and an
/// optional `0x` prefix.
pub open spec fn hex_body_of(s: Seq<char>) -> Seq<char> {
    let b = sign_body_of(s);
    if b.len() >= 2 && b[0] == '0' && b[1] == 'x' {
        b.skip(2)
    } else {
        b
    }
}

/// Whether a hexadecimal string is well-formed: an optional sign, an
/// optional `0x`, then hexadecimal digits and underscores.
pub open spec fn hex_ok(s: Seq<char>) -> bool {
    digits_ok(hex_body_of(s), 16)
}

/// The signed value of a well-formed hexadecimal string.
pub open spec fn hex_value(s: Seq<char>) -> int {
    signed_intent(sign_prefix_of(s), digits_val(hex_body_of(s), 16))
}

/// The canonical decimal rendering of a signed value: `-` for negative
/// values, then the minimal digits of the absolute value.
pub open spec fn signed_dec_str(x: int) -> Seq<char> {
    if x < 0 {
        seq!['-'] + digits_of(abs_of(x), 10)
    } else {
        digits_of(abs_of(x), 10)
    }
}

/// The canonical hexadecimal rendering of a signed value: the sign, then
/// `0x`, then the minimal hex digits of the absolute value.
pub open spec fn signed_hex_str(x: int) -> Seq<char> {
    if x < 0 {
        seq!['-', '0', 'x'] + digits_of(abs_of(x), 16)
    } else {
        seq!['0', 'x'] + digits_of(abs_of(x), 16)
    }
}

/// Canonical digit strings are made of digits of their radix (no
/// underscores), and read back to the value they were made from.
pub proof fn lemma_digits_of_val(n: nat, radix: nat)
    requires
        radix == 10 || radix == 16,
    ensures
        digits_ok(digits_of(n, radix), radix),
        digits_val(digits_of(n, radix), radix) == n,
        digits_of(n, radix).len() >= 1,
        digits_of(n, radix)[0] != '_',
    decreases n,
{
    if n < radix {
        let s = digits_of(n, radix);
        assert(s =~= seq![digit_char(n)]);
        assert(digit_val(digit_char(n), radix) == n);
        assert(s.drop_last() =~= Seq::<char>::empty());
        assert(digits_val(s, radix) == digits_val(s.drop_last(), radix) * radix + n);
    } else {
        assert(n / radix < n) by (nonlinear_arith)
            requires
                n >= radix,
                radix >= 2,
        ;
        lemma_digits_of_val(n / radix, radix);
        vstd::arithmetic::div_mod::lemma_fundamental_div_mod(n as int, radix as int);
        vstd::arithmetic::div_mod::lemma_mod_bound(n as int, radix as int);
        let front = digits_of(n / radix, radix);
        let s = digits_of(n, radix);
        assert(s == front.push(digit_char(n % radix)));
        assert(s.drop_last() =~= front);
        assert(s.last() == digit_char(n % radix));
        assert(digit_val(digit_char(n % radix), radix) == n % radix);
        assert(digits_val(s, radix) == digits_val(front, radix) * radix + n % radix);
        assert((n / radix) * radix + n % radix == n) by (nonlinear_arith)
            requires
                n as int == radix * (n as int / radix as int) + n as int % radix as int,
        ;
        assert forall|i: int| 0 <= i < s.len() implies is_digit(#[trigger] s[i], radix) || s[i]
            == '_' by {
            if i < front.len() {
                assert(s[i] == front[i]);
            }
        }
    }
}

/// A bound on the length of a canonical digit string: a value below
/// `radix^k` needs at most `k` digits.
pub proof fn lemma_digits_of_len(n: nat, radix: nat, k: nat)
    requires
        2 <= radix <= 16,
        k >= 1,
        n < vstd::arithmetic::power::pow(radix as int, k),
    ensures
        digits_of(n, radix).len() <= k,
    decreases n,
{
    vstd::arithmetic::power::lemma_pow_positive(radix as int, k);
    if n < radix {
    } else {
        assert(n / radix < n) by (nonlinear_arith)
            requires
                n >= radix,
                radix >= 2,
        ;
        assert(k >= 2) by {
            if k == 1 {
                vstd::arithmetic::power::lemma_pow1(radix as int);
            }
        }
        vstd::arithmetic::div_mod::lemma_fundamental_div_mod(n as int, radix as int);
        vstd::arithmetic::div_mod::lemma_mod_bound(n as int, radix as int);
        assert(vstd::arithmetic::power::pow(radix as int, k) == radix * vstd::arithmetic::power::pow(
            radix as int,
            (k - 1) as nat,
        )) by {
            reveal(vstd::arithmetic::power::pow);
        }
        assert(n / radix < vstd::arithmetic::power::pow(radix as int, (k - 1) as nat))
            by (nonlinear_arith)
            requires
                n as int == radix * (n as int / radix as int) + n as int % radix as int,
                0 <= n as int % radix as int,
                radix >= 2,
                n < radix * vstd::arithmetic::power::pow(radix as int, (k - 1) as nat),
        ;
        lemma_digits_of_len(n / radix, radix, (k - 1) as nat);
    }
}

} // verus!
