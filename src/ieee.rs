//! Tape cells are IEEE-754 binary64 numbers, held as their bit patterns.
//! The arithmetic on them is done in software by `rustc_apfloat`, whose
//! results are named below: each is a function of the bit patterns alone.
use rustc_apfloat::ieee::Double;
use rustc_apfloat::{Float, Round};
use vstd::prelude::*;
use crate::utils::is_digit;

verus! {

/// The bit pattern of `+0.0`.
pub const ZERO_BITS: u64 = 0;

/// The bit pattern of `1.0`.
pub const ONE_BITS: u64 = 0x3FF0_0000_0000_0000;

/// The bit pattern of `2^-53`, the spacing of the doubles in `[0.5, 1)` halved.
pub const TWO_POW_MINUS_53_BITS: u64 = 0x3CA0_0000_0000_0000;

/// All bits but the sign.
pub const MAGNITUDE_MASK: u64 = 0x7FFF_FFFF_FFFF_FFFF;

/// The sign bit.
pub const SIGN_MASK: u64 = 0x8000_0000_0000_0000;

/// The exponent field, all ones for infinities and NaNs.
pub const EXPONENT_MASK: u64 = 0x7FF0_0000_0000_0000;

/// `a + b`, rounded to nearest, ties to even.
pub uninterp spec fn ieee_sum(a: u64, b: u64) -> u64;

/// `a - b`, rounded to nearest, ties to even.
pub uninterp spec fn ieee_difference(a: u64, b: u64) -> u64;

/// `a * b`, rounded to nearest, ties to even.
pub uninterp spec fn ieee_product(a: u64, b: u64) -> u64;

/// `a / b`, rounded to nearest, ties to even.
pub uninterp spec fn ieee_quotient(a: u64, b: u64) -> u64;

/// `a` rounded to an integral value toward negative infinity.
pub uninterp spec fn ieee_floor(a: u64) -> u64;

/// `a` rounded to an integral value toward positive infinity.
pub uninterp spec fn ieee_ceil(a: u64) -> u64;

/// `a` rounded toward negative infinity and converted to `i128`, saturating
/// at the bounds, with NaN giving `0`.
pub uninterp spec fn ieee_floor_to_int(a: u64) -> i128;

/// The double nearest to `n` (ties to even).
pub uninterp spec fn ieee_from_int(n: u128) -> u64;

/// The double that the decimal text `s` denotes, if it is one.
pub uninterp spec fn ieee_parse(s: Seq<char>) -> Option<u64>;

/// A NaN: the exponent is all ones and the fraction is not zero.
pub open spec fn is_nan_bits(a: u64) -> bool {
    a & EXPONENT_MASK == EXPONENT_MASK && a & !EXPONENT_MASK & MAGNITUDE_MASK != 0
}

/// `+0.0` or `-0.0`.
pub open spec fn is_zero_bits(a: u64) -> bool {
    a & MAGNITUDE_MASK == 0
}

/// A number that is neither NaN nor zero and has its sign bit set.
pub open spec fn is_negative_bits(a: u64) -> bool {
    !is_nan_bits(a) && !is_zero_bits(a) && a & SIGN_MASK != 0
}

/// A number that is neither NaN nor zero and has its sign bit clear.
pub open spec fn is_positive_bits(a: u64) -> bool {
    !is_nan_bits(a) && !is_zero_bits(a) && a & SIGN_MASK == 0
}

/// Whether the double `a` equals zero (either sign).
pub fn is_zero(a: u64) -> (r: bool)
    ensures
        r == is_zero_bits(a),
{
    a & MAGNITUDE_MASK == 0
}

/// Whether the double `a` is NaN.
pub fn is_nan(a: u64) -> (r: bool)
    ensures
        r == is_nan_bits(a),
{
    a & EXPONENT_MASK == EXPONENT_MASK && a & !EXPONENT_MASK & MAGNITUDE_MASK != 0
}

/// Whether the double `a` is below zero.
pub fn is_negative(a: u64) -> (r: bool)
    ensures
        r == is_negative_bits(a),
{
    !is_nan(a) && !is_zero(a) && a & SIGN_MASK != 0
}

/// Whether the double `a` is above zero.
pub fn is_positive(a: u64) -> (r: bool)
    ensures
        r == is_positive_bits(a),
{
    !is_nan(a) && !is_zero(a) && a & SIGN_MASK == 0
}

/// Relies on `rustc_apfloat`'s `Add` for `ieee::Double`: IEEE addition.
#[verifier::external_body]
pub(crate) fn add(a: u64, b: u64) -> (r: u64)
    ensures
        r == ieee_sum(a, b),
{
    (Double::from_bits(a as u128) + Double::from_bits(b as u128)).value.to_bits() as u64
}

/// Relies on `rustc_apfloat`'s `Sub` for `ieee::Double`: IEEE subtraction.
#[verifier::external_body]
pub(crate) fn subtract(a: u64, b: u64) -> (r: u64)
    ensures
        r == ieee_difference(a, b),
{
    (Double::from_bits(a as u128) - Double::from_bits(b as u128)).value.to_bits() as u64
}

/// Relies on `rustc_apfloat`'s `Mul` for `ieee::Double`: IEEE multiplication.
#[verifier::external_body]
pub(crate) fn multiply(a: u64, b: u64) -> (r: u64)
    ensures
        r == ieee_product(a, b),
{
    (Double::from_bits(a as u128) * Double::from_bits(b as u128)).value.to_bits() as u64
}

/// Relies on `rustc_apfloat`'s `Div` for `ieee::Double`: IEEE division.
#[verifier::external_body]
pub(crate) fn divide(a: u64, b: u64) -> (r: u64)
    ensures
        r == ieee_quotient(a, b),
{
    (Double::from_bits(a as u128) / Double::from_bits(b as u128)).value.to_bits() as u64
}

/// Relies on `rustc_apfloat::Float::round_to_integral` toward negative
/// infinity.
#[verifier::external_body]
pub(crate) fn floor(a: u64) -> (r: u64)
    ensures
        r == ieee_floor(a),
{
    Double::from_bits(a as u128).round_to_integral(Round::TowardNegative).value.to_bits() as u64
}

/// Relies on `rustc_apfloat::Float::round_to_integral` toward positive
/// infinity.
#[verifier::external_body]
pub(crate) fn ceil(a: u64) -> (r: u64)
    ensures
        r == ieee_ceil(a),
{
    Double::from_bits(a as u128).round_to_integral(Round::TowardPositive).value.to_bits() as u64
}

/// Relies on `rustc_apfloat::Float::to_i128_r` with width 128, rounding
/// toward negative infinity: out-of-range values saturate and NaN gives 0.
#[verifier::external_body]
pub(crate) fn floor_to_int(a: u64) -> (r: i128)
    ensures
        r == ieee_floor_to_int(a),
{
    let mut exact = false;
    Double::from_bits(a as u128).to_i128_r(128, Round::TowardNegative, &mut exact).value
}

/// Relies on `rustc_apfloat::Float::from_u128`: the nearest double to `n`.
#[verifier::external_body]
pub(crate) fn from_int(n: u128) -> (r: u64)
    ensures
        r == ieee_from_int(n),
{
    Double::from_u128(n).value.to_bits() as u64
}

/// Where a number that is not NaN stands on the number line, as an integer
/// that orders as the numbers do: its magnitude bits, negated when the sign
/// bit is set (so both zeros stand at 0).
pub open spec fn order_key(a: u64) -> int {
    if a & SIGN_MASK != 0 {
        -((a & MAGNITUDE_MASK) as int)
    } else {
        (a & MAGNITUDE_MASK) as int
    }
}

/// How `a` compares with `b` under IEEE-754: `None` when either is NaN,
/// the two zeros equal, otherwise by sign and magnitude.
pub open spec fn compare_spec(a: u64, b: u64) -> Option<core::cmp::Ordering> {
    if is_nan_bits(a) || is_nan_bits(b) {
        None
    } else if order_key(a) < order_key(b) {
        Some(core::cmp::Ordering::Less)
    } else if order_key(a) == order_key(b) {
        Some(core::cmp::Ordering::Equal)
    } else {
        Some(core::cmp::Ordering::Greater)
    }
}

/// How the double `a` compares with the double `b`.
pub fn compare(a: u64, b: u64) -> (r: Option<core::cmp::Ordering>)
    ensures
        r == compare_spec(a, b),
{
    if is_nan(a) || is_nan(b) {
        return None;
    }
    let ka: i128 = if a & SIGN_MASK != 0 {
        -((a & MAGNITUDE_MASK) as i128)
    } else {
        (a & MAGNITUDE_MASK) as i128
    };
    let kb: i128 = if b & SIGN_MASK != 0 {
        -((b & MAGNITUDE_MASK) as i128)
    } else {
        (b & MAGNITUDE_MASK) as i128
    };
    if ka < kb {
        Some(core::cmp::Ordering::Less)
    } else if ka == kb {
        Some(core::cmp::Ordering::Equal)
    } else {
        Some(core::cmp::Ordering::Greater)
    }
}

/// Text that holds a decimal digit.
pub open spec fn has_digit(s: Seq<char>) -> bool {
    exists|i: int| 0 <= i < s.len() && is_digit(#[trigger] s[i])
}

/// Text made of decimal digits and at most one `.`.
pub open spec fn is_decimal_text(s: Seq<char>) -> bool {
    &&& forall|i: int| 0 <= i < s.len() ==> is_digit(#[trigger] s[i]) || s[i] == '.'
    &&& forall|i: int, j: int| 0 <= i < j < s.len() ==> !(#[trigger] s[i] == '.' && #[trigger] s[j] == '.')
}

/// Relies on `rustc_apfloat::Float::from_str_r`, rounding to nearest: the
/// double a decimal numeral denotes, or `None` when it is no numeral; text of
/// digits with at most one `.` is a numeral exactly when it holds a digit.
#[verifier::external_body]
pub(crate) fn parse(s: &str) -> (r: Option<u64>)
    ensures
        r == ieee_parse(s@),
        is_decimal_text(s@) ==> (r is Some <==> has_digit(s@)),
{
    Double::from_str_r(s, Round::NearestTiesToEven).ok().map(|d| d.value.to_bits() as u64)
}

} // verus!
