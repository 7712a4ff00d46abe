//! IEEE 754 single-precision values, carried as their raw 32-bit patterns.
//!
//! The cache logic never performs floating-point arithmetic itself: distances
//! and tolerances enter the library as bit patterns (`u32`), and everything
//! the caches decide — "does this entry match?", "which candidate is
//! nearest?" — is a comparison. IEEE comparison is a pure function of the two
//! bit patterns, so it is defined here as integer arithmetic and verified.

use vstd::prelude::*;

verus! {

/// The bit pattern of positive zero.
pub const ZERO_BITS: u32 = 0;

/// True iff the pattern has its sign bit set.
pub open spec fn is_neg(a: u32) -> bool {
    a >= 0x8000_0000
}

/// The magnitude part of the pattern: exponent and mantissa, sign stripped.
pub open spec fn mag_of(a: u32) -> int {
    if is_neg(a) {
        a - 0x8000_0000
    } else {
        a as int
    }
}

/// True iff the pattern encodes a NaN (exponent all ones, mantissa nonzero),
/// which is exactly a magnitude above that of infinity.
pub open spec fn is_nan_bits(a: u32) -> bool {
    mag_of(a) > 0x7f80_0000
}

/// IEEE `<` on the values encoded by `a` and `b`. For non-negative values the
/// encoding is monotone in the bit pattern, so magnitudes compare as integers;
/// the two zeros are equal regardless of sign; NaN compares less than nothing.
pub open spec fn float_lt(a: u32, b: u32) -> bool {
    &&& !is_nan_bits(a)
    &&& !is_nan_bits(b)
    &&& if is_neg(a) && !is_neg(b) {
        mag_of(a) != 0 || mag_of(b) != 0
    } else if !is_neg(a) && !is_neg(b) {
        mag_of(a) < mag_of(b)
    } else if is_neg(a) && is_neg(b) {
        mag_of(a) > mag_of(b)
    } else {
        false
    }
}

/// IEEE `==` on the encoded values: equal magnitude and sign, except that
/// `+0 == -0`, and NaN equals nothing.
pub open spec fn float_eq_bits(a: u32, b: u32) -> bool {
    &&& !is_nan_bits(a)
    &&& !is_nan_bits(b)
    &&& mag_of(a) == mag_of(b)
    &&& (is_neg(a) == is_neg(b) || mag_of(a) == 0)
}

/// IEEE `<=` on the encoded values.
pub open spec fn float_le(a: u32, b: u32) -> bool {
    float_lt(a, b) || float_eq_bits(a, b)
}

/// True iff the pattern encodes a strictly positive value — the requirement
/// every tolerance must meet. Equivalent to `0.0 < t`.
pub open spec fn is_valid_tolerance(t: u32) -> bool {
    float_lt(ZERO_BITS, t)
}

/// IEEE `<` over bit patterns, executable.
pub fn lt_bits(a: u32, b: u32) -> (r: bool)
    ensures
        r == float_lt(a, b),
{
    let mag_a: u32 = if a >= 0x8000_0000 {
        a - 0x8000_0000
    } else {
        a
    };
    let mag_b: u32 = if b >= 0x8000_0000 {
        b - 0x8000_0000
    } else {
        b
    };
    if mag_a > 0x7f80_0000 || mag_b > 0x7f80_0000 {
        return false;
    }
    if a >= 0x8000_0000 {
        if b >= 0x8000_0000 {
            mag_a > mag_b
        } else {
            mag_a != 0 || mag_b != 0
        }
    } else {
        if b >= 0x8000_0000 {
            false
        } else {
            mag_a < mag_b
        }
    }
}

/// IEEE `<=` over bit patterns, executable.
pub fn le_bits(a: u32, b: u32) -> (r: bool)
    ensures
        r == float_le(a, b),
{
    let lt = lt_bits(a, b);
    let mag_a: u32 = if a >= 0x8000_0000 {
        a - 0x8000_0000
    } else {
        a
    };
    let mag_b: u32 = if b >= 0x8000_0000 {
        b - 0x8000_0000
    } else {
        b
    };
    if mag_a > 0x7f80_0000 || mag_b > 0x7f80_0000 {
        return false;
    }
    lt || (mag_a == mag_b && ((a >= 0x8000_0000) == (b >= 0x8000_0000) || mag_a == 0))
}

/// Whether `t` encodes a strictly positive value, executable. Callers that
/// receive a tolerance from outside test it here before inserting.
pub fn tolerance_is_valid(t: u32) -> (r: bool)
    ensures
        r == is_valid_tolerance(t),
{
    lt_bits(ZERO_BITS, t)
}

/// `float_lt` is transitive.
pub proof fn lemma_float_lt_transitive(a: u32, b: u32, c: u32)
    requires
        float_lt(a, b),
        float_lt(b, c),
    ensures
        float_lt(a, c),
{
}

/// Two non-NaN patterns always compare: trichotomy of the IEEE order.
pub proof fn lemma_float_trichotomy(a: u32, b: u32)
    requires
        !is_nan_bits(a),
        !is_nan_bits(b),
    ensures
        float_lt(a, b) || float_lt(b, a) || float_eq_bits(a, b),
{
}

} // verus!
