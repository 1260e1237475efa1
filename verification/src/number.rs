//! Double-precision numbers held as IEEE-754 bit patterns.
//!
//! The arithmetic itself is done by `rustc_apfloat`, a software
//! implementation of IEEE-754; this module gives each operation a name that
//! contracts can speak of.

use rustc_apfloat::ieee::Double;
use rustc_apfloat::Float;
use vstd::prelude::*;

verus! {

/// Bit pattern of the sum of two doubles, rounded to nearest, ties to even.
pub uninterp spec fn ieee_add(a: u64, b: u64) -> u64;

/// Bit pattern of the difference of two doubles, rounded to nearest, ties to even.
pub uninterp spec fn ieee_sub(a: u64, b: u64) -> u64;

/// Bit pattern of the product of two doubles, rounded to nearest, ties to even.
pub uninterp spec fn ieee_mul(a: u64, b: u64) -> u64;

/// Bit pattern of the quotient of two doubles, rounded to nearest, ties to even.
pub uninterp spec fn ieee_div(a: u64, b: u64) -> u64;

/// Bit pattern of the double that a numeral stands for, rounded to nearest,
/// ties to even; `None` where the text is refused.
pub uninterp spec fn ieee_decimal(text: Seq<char>) -> Option<u64>;

/// A text of decimal digits and dots.
pub open spec fn is_numeral(text: Seq<char>) -> bool {
    forall|k: int|
        0 <= k < text.len() ==> ('0' <= #[trigger] text[k] && text[k] <= '9') || text[k] == '.'
}

/// The text has a decimal digit.
pub open spec fn has_digit(text: Seq<char>) -> bool {
    exists|k: int| 0 <= k < text.len() && '0' <= #[trigger] text[k] && text[k] <= '9'
}

/// The text has one dot at most.
pub open spec fn has_one_dot_at_most(text: Seq<char>) -> bool {
    forall|i: int, j: int|
        0 <= i < text.len() && 0 <= j < text.len() && #[trigger] text[i] == '.'
            && #[trigger] text[j] == '.' ==> i == j
}

/// A numeral that the conversion reads: digits, at least one, with one dot
/// at most.
pub open spec fn is_readable(text: Seq<char>) -> bool {
    is_numeral(text) && has_digit(text) && has_one_dot_at_most(text)
}

/// The lengths of numerals that the conversion bears: it counts
/// characters in 32-bit signed integers, and multiplies the number of
/// digits by 196 in the machine's word.
pub open spec fn numeral_fits(len: nat) -> bool {
    len <= 0x7fff_ffff && 196 * len <= usize::MAX
}

/// The bit pattern that a readable numeral stands for.
pub open spec fn decimal_bits(text: Seq<char>) -> u64 {
    match ieee_decimal(text) {
        Some(bits) => bits,
        None => 0,
    }
}

/// Bit pattern of `-1.0`.
pub const MINUS_ONE_BITS: u64 = 0xBFF0_0000_0000_0000;

/// `<Double as Add>::add` of `rustc_apfloat`, on bit patterns: the result is
/// the bit pattern that the crate computes for the two operands. Nothing
/// else is claimed of it.
#[verifier::external_body]
fn apfloat_add(a: u64, b: u64) -> (r: u64)
    ensures
        r == ieee_add(a, b),
{
    (Double::from_bits(a as u128) + Double::from_bits(b as u128)).value.to_bits() as u64
}

/// `<Double as Sub>::sub` of `rustc_apfloat`, on bit patterns: the result is
/// the bit pattern that the crate computes for the two operands.
#[verifier::external_body]
fn apfloat_sub(a: u64, b: u64) -> (r: u64)
    ensures
        r == ieee_sub(a, b),
{
    (Double::from_bits(a as u128) - Double::from_bits(b as u128)).value.to_bits() as u64
}

/// `<Double as Mul>::mul` of `rustc_apfloat`, on bit patterns: the result is
/// the bit pattern that the crate computes for the two operands.
#[verifier::external_body]
fn apfloat_mul(a: u64, b: u64) -> (r: u64)
    ensures
        r == ieee_mul(a, b),
{
    (Double::from_bits(a as u128) * Double::from_bits(b as u128)).value.to_bits() as u64
}

/// `<Double as Div>::div` of `rustc_apfloat`, on bit patterns: the result is
/// the bit pattern that the crate computes for the two operands. A zero
/// divisor gives an infinity or a NaN, as IEEE-754 has it.
#[verifier::external_body]
fn apfloat_div(a: u64, b: u64) -> (r: u64)
    ensures
        r == ieee_div(a, b),
{
    (Double::from_bits(a as u128) / Double::from_bits(b as u128)).value.to_bits() as u64
}

/// `<Double as FromStr>::from_str` of `rustc_apfloat`, on a text of digits
/// and dots: the bit pattern of the double that the crate reads from the
/// text, `None` where it reports a parse error. Of such a text the crate
/// refuses those without a digit and those with more than one dot, and no
/// others. The bound on the length is that of the crate's index arithmetic.
#[verifier::external_body]
fn apfloat_decimal(text: &str) -> (r: Option<u64>)
    requires
        is_numeral(text@),
        numeral_fits(text@.len()),
    ensures
        r == ieee_decimal(text@),
        r is Some <==> is_readable(text@),
{
    match text.parse::<Double>() {
        Ok(d) => Some(d.to_bits() as u64),
        Err(_) => None,
    }
}

/// A double-precision floating-point number, held as its IEEE-754 bit pattern.
#[derive(Clone, Copy, Debug, PartialEq, Eq, Structural)]
pub struct Number {
    pub bits: u64,
}

impl Number {
    /// The number with the given bit pattern.
    pub fn from_bits(bits: u64) -> (n: Number)
        ensures
            n.bits == bits,
    {
        Number { bits }
    }

    /// The bit pattern of the number.
    pub fn to_bits(self) -> (bits: u64)
        ensures
            bits == self.bits,
    {
        self.bits
    }

    /// The number `-1`.
    pub fn minus_one() -> (n: Number)
        ensures
            n.bits == MINUS_ONE_BITS,
    {
        Number { bits: MINUS_ONE_BITS }
    }

    /// IEEE-754 addition.
    pub fn plus(self, rhs: Number) -> (n: Number)
        ensures
            n.bits == ieee_add(self.bits, rhs.bits),
    {
        Number { bits: apfloat_add(self.bits, rhs.bits) }
    }

    /// IEEE-754 subtraction.
    pub fn minus(self, rhs: Number) -> (n: Number)
        ensures
            n.bits == ieee_sub(self.bits, rhs.bits),
    {
        Number { bits: apfloat_sub(self.bits, rhs.bits) }
    }

    /// IEEE-754 multiplication.
    pub fn times(self, rhs: Number) -> (n: Number)
        ensures
            n.bits == ieee_mul(self.bits, rhs.bits),
    {
        Number { bits: apfloat_mul(self.bits, rhs.bits) }
    }

    /// IEEE-754 division; dividing by zero gives an infinity or a NaN.
    pub fn divided_by(self, rhs: Number) -> (n: Number)
        ensures
            n.bits == ieee_div(self.bits, rhs.bits),
    {
        Number { bits: apfloat_div(self.bits, rhs.bits) }
    }

    /// Reads a numeral: decimal digits, with a dot before the fraction if
    /// there is one. A text without a digit or with several dots is not read,
    /// nor one longer than the conversion bears.
    pub fn from_decimal(text: &str) -> (n: Option<Number>)
        requires
            is_numeral(text@),
        ensures
            n == spec_from_decimal(text@),
    {
        let len = text.unicode_len();
        if len > 0x7fff_ffff || len > usize::MAX / 196 {
            None
        } else {
            match apfloat_decimal(text) {
                Some(bits) => Some(Number { bits }),
                None => None,
            }
        }
    }
}

/// What [`Number::from_decimal`] returns for a text of digits and dots.
pub open spec fn spec_from_decimal(text: Seq<char>) -> Option<Number> {
    if numeral_fits(text.len()) && is_readable(text) {
        Some(Number { bits: decimal_bits(text) })
    } else {
        None
    }
}

} // verus!
