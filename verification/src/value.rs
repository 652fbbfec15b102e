//! Readings as IEEE 754 binary64 bit patterns.
//!
//! A reading is carried as the 64 bits of a double: one sign bit, eleven
//! exponent bits, fifty-two fraction bits. The order of two readings is
//! decided on those bits alone, the way the format defines it: a NaN is
//! neither below nor above anything, the two zeros are equal, and otherwise
//! a value with the sign bit clear grows with its remaining bits while one
//! with the sign bit set shrinks with them.

use vstd::prelude::*;

verus! {

/// The sign bit.
pub const SIGN_BIT: u64 = 0x8000_0000_0000_0000;

/// The bit pattern of positive infinity: every exponent bit set, no fraction
/// bit set.
pub const INFINITY_BITS: u64 = 0x7FF0_0000_0000_0000;

/// The bit pattern of `0.0`.
pub const ZERO_BITS: u64 = 0;

/// The bit pattern of `1.0`.
pub const ONE_BITS: u64 = 0x3FF0_0000_0000_0000;

/// True when the sign bit of `bits` is set.
pub open spec fn is_negative(bits: u64) -> bool {
    bits >= SIGN_BIT
}

/// The exponent and fraction bits of `bits`, read as one number.
pub open spec fn magnitude(bits: u64) -> int {
    if bits >= SIGN_BIT {
        bits - SIGN_BIT
    } else {
        bits as int
    }
}

/// True when `bits` is a NaN: every exponent bit set and some fraction bit
/// set.
pub open spec fn is_nan(bits: u64) -> bool {
    magnitude(bits) > INFINITY_BITS
}

/// The place of `bits` on the number line, for a pattern that is no NaN:
/// both zeros at 0, positive values above, negative values below.
pub open spec fn rank(bits: u64) -> int {
    if is_negative(bits) {
        -magnitude(bits)
    } else {
        magnitude(bits)
    }
}

/// `a < b` as the format defines it.
pub open spec fn less(a: u64, b: u64) -> bool {
    !is_nan(a) && !is_nan(b) && rank(a) < rank(b)
}

/// `a > b` as the format defines it.
pub open spec fn greater(a: u64, b: u64) -> bool {
    less(b, a)
}

/// Computes [`magnitude`].
fn magnitude_of(bits: u64) -> (m: u64)
    ensures
        m == magnitude(bits),
        m < SIGN_BIT,
{
    if bits >= SIGN_BIT {
        bits - SIGN_BIT
    } else {
        bits
    }
}

/// Tells whether `bits` is a NaN.
pub fn is_nan_bits(bits: u64) -> (r: bool)
    ensures
        r == is_nan(bits),
{
    magnitude_of(bits) > INFINITY_BITS
}

/// Tells whether `a < b`.
pub fn less_than(a: u64, b: u64) -> (r: bool)
    ensures
        r == less(a, b),
{
    if is_nan_bits(a) || is_nan_bits(b) {
        return false;
    }
    let ma: u64 = magnitude_of(a);
    let mb: u64 = magnitude_of(b);
    if a >= SIGN_BIT {
        if b >= SIGN_BIT {
            mb < ma
        } else {
            ma > 0 || mb > 0
        }
    } else {
        if b >= SIGN_BIT {
            false
        } else {
            ma < mb
        }
    }
}

/// Tells whether `a > b`.
pub fn greater_than(a: u64, b: u64) -> (r: bool)
    ensures
        r == greater(a, b),
{
    less_than(b, a)
}

/// The order is strict: nothing is below itself, and of two values at most
/// one is below the other.
pub proof fn lemma_less_is_strict(a: u64, b: u64)
    ensures
        !less(a, a),
        less(a, b) ==> !less(b, a),
        less(a, b) ==> !greater(a, b),
{
}

/// The order is transitive.
pub proof fn lemma_less_is_transitive(a: u64, b: u64, c: u64)
    requires
        less(a, b),
        less(b, c),
    ensures
        less(a, c),
{
}

/// Of two values that are no NaN, one is below the other or they sit at
/// the same place.
pub proof fn lemma_less_is_total_without_nan(a: u64, b: u64)
    requires
        !is_nan(a),
        !is_nan(b),
    ensures
        less(a, b) || less(b, a) || rank(a) == rank(b),
{
}

} // verus!
