//! IEEE 754 binary64 arithmetic and decimal conversion on raw bit patterns.
//!
//! A float is carried everywhere as the `u64` bit pattern of an IEEE 754
//! binary64 number, so the value model stays within the integers. The
//! arithmetic itself is performed by `rustc_apfloat`, a software
//! implementation of IEEE 754 whose interface works directly on bit
//! patterns; each operation is deterministic in its operand bits, so its
//! result can be given a name that contracts and proofs speak of.

use rustc_apfloat::Float as ApFloat;
use rustc_apfloat::Round;
use rustc_apfloat::ieee::Double;
use vstd::prelude::*;

verus! {

/// The bit pattern of the IEEE 754 binary64 sum of two bit patterns,
/// rounded to nearest with ties to even.
pub uninterp spec fn add_bits(a: u64, b: u64) -> u64;

/// The bit pattern of the IEEE 754 binary64 difference of two bit patterns.
pub uninterp spec fn sub_bits(a: u64, b: u64) -> u64;

/// The bit pattern of the IEEE 754 binary64 product of two bit patterns.
pub uninterp spec fn mul_bits(a: u64, b: u64) -> u64;

/// The bit pattern of the IEEE 754 binary64 quotient of two bit patterns.
/// Division by zero yields an infinity, so this is total.
pub uninterp spec fn div_bits(a: u64, b: u64) -> u64;

/// The IEEE 754 binary64 bit pattern denoted by a decimal literal,
/// correctly rounded to nearest with ties to even.
pub uninterp spec fn float_of_decimal(s: Seq<char>) -> u64;

/// Relies on rustc_apfloat's `Double::add_r`: IEEE 754 binary64 addition,
/// rounded to nearest with ties to even, a function of the operand bits
/// alone.
#[verifier::external_body]
pub(crate) fn float_add(a: u64, b: u64) -> (r: u64)
    ensures
        r == add_bits(a, b),
{
    let x = Double::from_bits(a as u128);
    let y = Double::from_bits(b as u128);
    x.add_r(y, Round::NearestTiesToEven).value.to_bits() as u64
}

/// Relies on rustc_apfloat's `Double::sub_r`: IEEE 754 binary64 subtraction,
/// rounded to nearest with ties to even, a function of the operand bits
/// alone.
#[verifier::external_body]
pub(crate) fn float_sub(a: u64, b: u64) -> (r: u64)
    ensures
        r == sub_bits(a, b),
{
    let x = Double::from_bits(a as u128);
    let y = Double::from_bits(b as u128);
    x.sub_r(y, Round::NearestTiesToEven).value.to_bits() as u64
}

/// Relies on rustc_apfloat's `Double::mul_r`: IEEE 754 binary64
/// multiplication, rounded to nearest with ties to even, a function of the
/// operand bits alone.
#[verifier::external_body]
pub(crate) fn float_mul(a: u64, b: u64) -> (r: u64)
    ensures
        r == mul_bits(a, b),
{
    let x = Double::from_bits(a as u128);
    let y = Double::from_bits(b as u128);
    x.mul_r(y, Round::NearestTiesToEven).value.to_bits() as u64
}

/// Relies on rustc_apfloat's `Double::div_r`: IEEE 754 binary64 division,
/// rounded to nearest with ties to even, a function of the operand bits
/// alone; a zero divisor yields an infinity or a NaN, never a failure.
#[verifier::external_body]
pub(crate) fn float_div(a: u64, b: u64) -> (r: u64)
    ensures
        r == div_bits(a, b),
{
    let x = Double::from_bits(a as u128);
    let y = Double::from_bits(b as u128);
    x.div_r(y, Round::NearestTiesToEven).value.to_bits() as u64
}

/// Sign-less part of an IEEE 754 binary64 bit pattern.
pub const F64_ABS_MASK: u64 = 0x7fff_ffff_ffff_ffff;

/// Exponent field of an IEEE 754 binary64 bit pattern, all ones.
pub const F64_EXP_MASK: u64 = 0x7ff0_0000_0000_0000;

/// Sign bit of an IEEE 754 binary64 bit pattern.
pub const F64_SIGN_MASK: u64 = 0x8000_0000_0000_0000;

/// Positive infinity.
pub const F64_INF_BITS: u64 = 0x7ff0_0000_0000_0000;

/// The canonical positive quiet NaN.
pub const F64_QNAN_BITS: u64 = 0x7ff8_0000_0000_0000;

pub open spec fn is_nan_bits(b: u64) -> bool {
    b & F64_ABS_MASK > F64_EXP_MASK
}

pub open spec fn is_zero_bits(b: u64) -> bool {
    b & F64_ABS_MASK == 0
}

/// IEEE 754 equality on binary64 bit patterns: a NaN equals nothing, the two
/// zeroes equal each other, and every other value has a unique bit pattern.
pub open spec fn spec_float_eq(a: u64, b: u64) -> bool {
    if is_nan_bits(a) || is_nan_bits(b) {
        false
    } else if is_zero_bits(a) && is_zero_bits(b) {
        true
    } else {
        a == b
    }
}

pub fn float_eq(a: u64, b: u64) -> (r: bool)
    ensures
        r == spec_float_eq(a, b),
{
    let aa = a & F64_ABS_MASK;
    let bb = b & F64_ABS_MASK;
    if aa > F64_EXP_MASK || bb > F64_EXP_MASK {
        false
    } else if aa == 0 && bb == 0 {
        true
    } else {
        a == b
    }
}

/// A letter matches its lower-case form and, for an ASCII letter, the
/// upper-case form 32 below it.
pub open spec fn matches_ci(c: char, l: char) -> bool {
    c == l || c as int == l as int - 32
}

pub open spec fn is_inf_body(b: Seq<char>) -> bool {
    &&& b.len() == 3
    &&& matches_ci(b[0], 'i')
    &&& matches_ci(b[1], 'n')
    &&& matches_ci(b[2], 'f')
}

pub open spec fn is_infinity_body(b: Seq<char>) -> bool {
    &&& b.len() == 8
    &&& matches_ci(b[0], 'i')
    &&& matches_ci(b[1], 'n')
    &&& matches_ci(b[2], 'f')
    &&& matches_ci(b[3], 'i')
    &&& matches_ci(b[4], 'n')
    &&& matches_ci(b[5], 'i')
    &&& matches_ci(b[6], 't')
    &&& matches_ci(b[7], 'y')
}

pub open spec fn is_nan_body(b: Seq<char>) -> bool {
    &&& b.len() == 3
    &&& matches_ci(b[0], 'n')
    &&& matches_ci(b[1], 'a')
    &&& matches_ci(b[2], 'n')
}

/// The special spellings of a float literal, compared without regard to
/// ASCII case.
pub open spec fn is_special_body(b: Seq<char>) -> bool {
    is_inf_body(b) || is_infinity_body(b) || is_nan_body(b)
}

/// A float literal: an optional sign, then a special spelling or a decimal
/// number.
pub open spec fn is_float_literal(w: Seq<char>) -> bool {
    let b = if w.len() > 0 && (w[0] == '+' || w[0] == '-') {
        w.drop_first()
    } else {
        w
    };
    is_special_body(b) || is_plain_number(b)
}

/// The bit pattern a float literal denotes: infinities and NaNs directly,
/// every decimal number by correctly rounded conversion.
pub open spec fn float_literal_bits(w: Seq<char>) -> u64 {
    let neg = w.len() > 0 && w[0] == '-';
    let b = if w.len() > 0 && (w[0] == '+' || w[0] == '-') {
        w.drop_first()
    } else {
        w
    };
    let sign: u64 = if neg {
        F64_SIGN_MASK
    } else {
        0
    };
    if is_inf_body(b) || is_infinity_body(b) {
        F64_INF_BITS | sign
    } else if is_nan_body(b) {
        F64_QNAN_BITS | sign
    } else {
        float_of_decimal(w)
    }
}

pub open spec fn is_ascii_digit(c: char) -> bool {
    '0' <= c && c <= '9'
}

pub open spec fn all_ascii_digits(s: Seq<char>) -> bool {
    forall|i: int| 0 <= i < s.len() ==> is_ascii_digit(#[trigger] s[i])
}

pub open spec fn has_ascii_digit(s: Seq<char>) -> bool {
    exists|i: int| 0 <= i < s.len() && is_ascii_digit(#[trigger] s[i])
}

/// Number of decimal points in a word.
pub open spec fn dot_count(s: Seq<char>) -> nat
    decreases s.len(),
{
    if s.len() == 0 {
        0
    } else {
        dot_count(s.drop_last()) + if s.last() == '.' { 1nat } else { 0nat }
    }
}

/// The whole part of a decimal literal before any exponent marker: digits
/// with at most one decimal point among them, and at least one digit.
pub open spec fn is_mantissa(m: Seq<char>) -> bool {
    &&& forall|i: int| 0 <= i < m.len() ==> (is_ascii_digit(#[trigger] m[i]) || m[i] == '.')
    &&& dot_count(m) <= 1
    &&& has_ascii_digit(m)
}

/// An exponent part: an optional sign followed by at least one digit.
pub open spec fn is_exponent(x: Seq<char>) -> bool {
    let d = if x.len() > 0 && (x[0] == '+' || x[0] == '-') {
        x.drop_first()
    } else {
        x
    };
    d.len() > 0 && all_ascii_digits(d)
}

/// Index of the first exponent marker `e` or `E`, or the length if none.
pub open spec fn first_exp_marker(s: Seq<char>) -> nat
    decreases s.len(),
{
    if s.len() == 0 {
        0
    } else if s[0] == 'e' || s[0] == 'E' {
        0
    } else {
        (1 + first_exp_marker(s.drop_first())) as nat
    }
}

pub open spec fn is_exp_marker_at(s: Seq<char>, i: int) -> bool {
    s[i] == 'e' || s[i] == 'E'
}

/// A run of non-markers up to a boundary pins the first marker down.
pub proof fn lemma_first_exp_marker_at(s: Seq<char>, j: int)
    requires
        0 <= j <= s.len(),
        forall|i: int| 0 <= i < j ==> !#[trigger] is_exp_marker_at(s, i),
        j < s.len() ==> is_exp_marker_at(s, j),
    ensures
        first_exp_marker(s) == j,
    decreases j,
{
    if j > 0 {
        assert(!is_exp_marker_at(s, 0));
        assert forall|i: int| 0 <= i < j - 1 implies !#[trigger] is_exp_marker_at(
            s.drop_first(),
            i,
        ) by {
            assert(!is_exp_marker_at(s, i + 1));
            assert(s.drop_first()[i] == s[i + 1]);
        }
        if j - 1 < s.drop_first().len() {
            assert(s.drop_first()[j - 1] == s[j]);
        }
        lemma_first_exp_marker_at(s.drop_first(), j - 1);
    }
}

/// An unsigned decimal number: a mantissa, optionally followed by an
/// exponent marker and an exponent. Since a mantissa cannot contain the
/// marker, a valid split can only happen at the first one.
pub open spec fn is_plain_number(b: Seq<char>) -> bool {
    let k = first_exp_marker(b) as int;
    &&& is_mantissa(b.take(k))
    &&& (k == b.len() || is_exponent(b.skip(k + 1)))
}

/// A decimal number with an optional leading sign.
pub open spec fn is_signed_number(w: Seq<char>) -> bool {
    if w.len() > 0 && (w[0] == '+' || w[0] == '-') {
        is_plain_number(w.drop_first())
    } else {
        is_plain_number(w)
    }
}

/// Relies on rustc_apfloat's `Double::from_str_r`: correctly rounded
/// conversion of a decimal literal to an IEEE 754 binary64 bit pattern,
/// rounded to nearest with ties to even, a function of the text alone.
/// Every signed decimal number is within its accepted grammar.
#[verifier::external_body]
pub(crate) fn float_from_decimal(s: &str) -> (r: u64)
    requires
        is_signed_number(s@),
    ensures
        r == float_of_decimal(s@),
{
    match Double::from_str_r(s, Round::NearestTiesToEven) {
        Ok(sa) => sa.value.to_bits() as u64,
        Err(_) => 0,
    }
}

} // verus!
