//! Numeric order on IEEE-754 single-precision bit patterns.
//!
//! The pipeline carries voxel intensities as the raw bit patterns of
//! single-precision floats. For every non-NaN pattern, the numeric order of
//! the encoded values coincides with the order of an integer key derived
//! from the pattern: non-negative values keep their pattern, negative values
//! are mirrored below zero, and the two zero patterns share the key 0. The
//! functions here decide NaN-ness and the numeric comparisons exactly, in
//! integer arithmetic alone.

use vstd::prelude::*;

verus! {

/// Bit pattern of the sign bit.
pub const F32_SIGN_BIT: u32 = 0x8000_0000;

/// Magnitude field (all bits but the sign) of positive infinity; any larger
/// magnitude field encodes a NaN.
pub const F32_INF_MAGNITUDE: u32 = 0x7F80_0000;

/// Bit pattern of negative infinity.
pub const F32_NEG_INFINITY_BITS: u32 = 0xFF80_0000;

/// Bit pattern of 0.5, the pipeline's probability cutoff.
pub const F32_HALF_BITS: u32 = 0x3F00_0000;

/// The magnitude field of a pattern: the pattern with its sign bit cleared.
pub open spec fn magnitude_bits(b: u32) -> int {
    if b >= F32_SIGN_BIT {
        b - F32_SIGN_BIT
    } else {
        b as int
    }
}

/// The pattern encodes a NaN: exponent all ones with a non-zero mantissa.
pub open spec fn is_nan_bits(b: u32) -> bool {
    magnitude_bits(b) > F32_INF_MAGNITUDE
}

/// Integer key whose order, on non-NaN patterns, is exactly the numeric
/// order of the encoded values; both zero patterns get the key 0.
pub open spec fn key_bits(b: u32) -> int {
    if b < F32_SIGN_BIT {
        b as int
    } else {
        -magnitude_bits(b)
    }
}

/// The value of `a` is greater than or equal to the value of `b`; false as
/// soon as either is NaN, as for the floats themselves.
pub open spec fn ge_bits(a: u32, b: u32) -> bool {
    !is_nan_bits(a) && !is_nan_bits(b) && key_bits(a) >= key_bits(b)
}

/// The value of `b` is strictly greater than zero (and not NaN).
pub open spec fn gt_zero_bits(b: u32) -> bool {
    !is_nan_bits(b) && key_bits(b) > 0
}

/// Decide whether a pattern encodes a NaN.
pub fn f32_bits_is_nan(b: u32) -> (r: bool)
    ensures
        r == is_nan_bits(b),
{
    let mag = if b >= F32_SIGN_BIT {
        b - F32_SIGN_BIT
    } else {
        b
    };
    mag > F32_INF_MAGNITUDE
}

/// Decide `value(a) >= value(b)` on bit patterns.
pub fn f32_bits_ge(a: u32, b: u32) -> (r: bool)
    ensures
        r == ge_bits(a, b),
{
    if f32_bits_is_nan(a) || f32_bits_is_nan(b) {
        return false;
    }
    if a < F32_SIGN_BIT {
        if b < F32_SIGN_BIT {
            a >= b
        } else {
            // a is non-negative, b is non-positive.
            true
        }
    } else {
        if b < F32_SIGN_BIT {
            // a is non-positive, b is non-negative: only two zeros compare.
            a == F32_SIGN_BIT && b == 0
        } else {
            // Both non-positive: the smaller magnitude is the larger value.
            a - F32_SIGN_BIT <= b - F32_SIGN_BIT
        }
    }
}

/// Decide `value(b) > 0` on bit patterns.
pub fn f32_bits_gt_zero(b: u32) -> (r: bool)
    ensures
        r == gt_zero_bits(b),
{
    if f32_bits_is_nan(b) {
        return false;
    }
    b > 0 && b < F32_SIGN_BIT
}

/// The pattern of the larger value, ignoring a NaN operand, as the float
/// maximum does; on equal values (the two zeros) the first operand wins.
pub fn f32_bits_max(a: u32, b: u32) -> (r: u32)
    ensures
        is_nan_bits(a) ==> r == b,
        !is_nan_bits(a) && is_nan_bits(b) ==> r == a,
        !is_nan_bits(a) && !is_nan_bits(b) ==> (r == a || r == b) && !is_nan_bits(r) && key_bits(
            r,
        ) >= key_bits(a) && key_bits(r) >= key_bits(b),
{
    if f32_bits_is_nan(a) {
        b
    } else if f32_bits_is_nan(b) {
        a
    } else if f32_bits_ge(a, b) {
        a
    } else {
        b
    }
}

} // verus!
