//! IEEE 754 binary32 numbers, held by their bit patterns.
//!
//! A pattern has a sign bit, eight exponent bits and twenty-three mantissa
//! bits. Its magnitude is the pattern without the sign bit. Patterns whose
//! magnitude lies above that of infinity are not numbers (NaN). Among
//! numbers, order is the order of the signed magnitudes, so that the two
//! zeros are equal. A NaN is neither below nor above anything.

use vstd::prelude::*;

verus! {

/// The sign bit.
pub const SIGN: u32 = 0x8000_0000;

/// Positive infinity.
pub const INFINITY: u32 = 0x7F80_0000;

/// Negative infinity.
pub const NEG_INFINITY: u32 = 0xFF80_0000;

/// Whether the sign bit of `bits` is set. Holds of `-0.0` and of a NaN with
/// the sign bit set.
pub open spec fn sign_negative(bits: u32) -> bool {
    bits >= SIGN
}

/// The pattern without its sign bit.
pub open spec fn magnitude(bits: u32) -> int {
    if bits >= SIGN {
        bits - SIGN
    } else {
        bits as int
    }
}

/// Whether `bits` is not a number.
pub open spec fn is_nan(bits: u32) -> bool {
    magnitude(bits) > INFINITY
}

/// The place of a number in the order of all numbers: its magnitude, negated
/// where the sign bit is set.
pub open spec fn rank(bits: u32) -> int {
    if sign_negative(bits) {
        -magnitude(bits)
    } else {
        magnitude(bits)
    }
}

/// `a < b` as numbers: false where either is a NaN.
pub open spec fn less(a: u32, b: u32) -> bool {
    !is_nan(a) && !is_nan(b) && rank(a) < rank(b)
}

/// `a > b` as numbers: false where either is a NaN.
pub open spec fn greater(a: u32, b: u32) -> bool {
    less(b, a)
}

/// Tells whether the sign bit of `bits` is set.
pub fn is_sign_negative(bits: u32) -> (r: bool)
    ensures
        r == sign_negative(bits),
{
    bits >= SIGN
}

/// Tells whether the sign bit of `bits` is clear.
pub fn is_sign_positive(bits: u32) -> (r: bool)
    ensures
        r == !sign_negative(bits),
{
    bits < SIGN
}

/// Tells whether `bits` is not a number.
pub fn is_not_a_number(bits: u32) -> (r: bool)
    ensures
        r == is_nan(bits),
{
    let m: u32 = if bits >= SIGN { bits - SIGN } else { bits };
    m > INFINITY
}

/// Tells whether `a < b` as numbers.
pub fn less_than(a: u32, b: u32) -> (r: bool)
    ensures
        r == less(a, b),
{
    if is_not_a_number(a) || is_not_a_number(b) {
        return false;
    }
    let ma: u32 = if a >= SIGN { a - SIGN } else { a };
    let mb: u32 = if b >= SIGN { b - SIGN } else { b };
    if a >= SIGN {
        if b >= SIGN {
            mb < ma
        } else {
            ma > 0 || mb > 0
        }
    } else {
        if b >= SIGN {
            false
        } else {
            ma < mb
        }
    }
}

/// Tells whether `a > b` as numbers.
pub fn greater_than(a: u32, b: u32) -> (r: bool)
    ensures
        r == greater(a, b),
{
    less_than(b, a)
}

/// Among numbers, `less` is a strict order in which each two are comparable
/// unless they are equal as numbers.
pub proof fn lemma_less_is_strict_order(a: u32, b: u32, c: u32)
    ensures
        !less(a, a),
        less(a, b) ==> !less(b, a),
        less(a, b) && less(b, c) ==> less(a, c),
        !is_nan(a) && !is_nan(b) ==> less(a, b) || less(b, a) || rank(a) == rank(b),
{
}

/// Every number lies between the two infinities.
pub proof fn lemma_infinities_bound(a: u32)
    requires
        !is_nan(a),
    ensures
        !less(a, NEG_INFINITY),
        !less(INFINITY, a),
        !is_nan(INFINITY),
        !is_nan(NEG_INFINITY),
{
}

} // verus!
