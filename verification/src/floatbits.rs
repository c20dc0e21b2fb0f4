//! Predicates on the IEEE 754 single-precision bit patterns by which the library carries
//! coordinates, sizes, colours and multipliers. For non-negative values the order of the
//! bit patterns is the order of the numbers they encode, which is all these checks need.
use vstd::prelude::*;

verus! {

/// Bit pattern of `100000.0`.
pub const F32_HUNDRED_THOUSAND: u32 = 0x47c3_5000u32;

/// Bit pattern of `100.0`.
pub const F32_HUNDRED: u32 = 0x42c8_0000u32;

/// Bit pattern of `4.0`.
pub const F32_FOUR: u32 = 0x4080_0000u32;

/// Bit pattern of `2.0`.
pub const F32_TWO: u32 = 0x4000_0000u32;

/// Bit pattern of `1.0`.
pub const F32_ONE: u32 = 0x3f80_0000u32;

/// Bit pattern of `0.25`.
pub const F32_QUARTER: u32 = 0x3e80_0000u32;

/// Magnitude bits of the lowest infinite value; every larger magnitude is NaN.
pub const F32_INFINITY: u32 = 0x7f80_0000u32;

/// The sign bit is set.
pub open spec fn sign_set(b: u32) -> bool {
    b >= 0x8000_0000u32
}

/// The bit pattern of the absolute value.
pub open spec fn magnitude(b: u32) -> u32 {
    if sign_set(b) {
        (b - 0x8000_0000u32) as u32
    } else {
        b
    }
}

/// The value is neither infinite nor NaN.
pub open spec fn spec_finite(b: u32) -> bool {
    magnitude(b) < F32_INFINITY
}

/// The value is finite and its absolute value is at most the non-negative value `limit`.
pub open spec fn spec_abs_at_most(b: u32, limit: u32) -> bool {
    magnitude(b) <= limit
}

/// The value lies in `[lo, hi]` for non-negative bounds with `0 < lo`.
pub open spec fn spec_within(b: u32, lo: u32, hi: u32) -> bool {
    !sign_set(b) && lo <= b && b <= hi
}

/// The value lies in `[0, hi]` (negative zero included).
pub open spec fn spec_within_from_zero(b: u32, hi: u32) -> bool {
    magnitude(b) == 0 || (!sign_set(b) && b <= hi)
}

/// The value lies in `(0, hi]`.
pub open spec fn spec_positive_at_most(b: u32, hi: u32) -> bool {
    !sign_set(b) && 0 < b && b <= hi
}

/// Computes `magnitude`.
pub fn magnitude_of(b: u32) -> (m: u32)
    ensures
        m == magnitude(b),
{
    if b >= 0x8000_0000u32 {
        b - 0x8000_0000u32
    } else {
        b
    }
}

/// Computes `spec_finite`.
pub fn finite(b: u32) -> (r: bool)
    ensures
        r == spec_finite(b),
{
    magnitude_of(b) < F32_INFINITY
}

/// Computes `spec_abs_at_most`.
pub fn abs_at_most(b: u32, limit: u32) -> (r: bool)
    ensures
        r == spec_abs_at_most(b, limit),
{
    magnitude_of(b) <= limit
}

/// Computes `spec_within`.
pub fn within(b: u32, lo: u32, hi: u32) -> (r: bool)
    ensures
        r == spec_within(b, lo, hi),
{
    b < 0x8000_0000u32 && lo <= b && b <= hi
}

/// Computes `spec_within_from_zero`.
pub fn within_from_zero(b: u32, hi: u32) -> (r: bool)
    ensures
        r == spec_within_from_zero(b, hi),
{
    magnitude_of(b) == 0 || (b < 0x8000_0000u32 && b <= hi)
}

/// Computes `spec_positive_at_most`.
pub fn positive_at_most(b: u32, hi: u32) -> (r: bool)
    ensures
        r == spec_positive_at_most(b, hi),
{
    b < 0x8000_0000u32 && 0 < b && b <= hi
}

/// Sign bit of an `f64` bit pattern.
pub const F64_SIGN: u64 = 0x8000_0000_0000_0000u64;

/// Magnitude bits of the lowest infinite `f64`.
pub const F64_INFINITY: u64 = 0x7ff0_0000_0000_0000u64;

/// The bit pattern of the absolute value of an `f64`.
pub open spec fn magnitude64(b: u64) -> u64 {
    if b >= F64_SIGN {
        (b - F64_SIGN) as u64
    } else {
        b
    }
}

/// The `f64` is neither infinite nor NaN.
pub open spec fn spec_finite64(b: u64) -> bool {
    magnitude64(b) < F64_INFINITY
}

/// A key whose integer order is the numeric order of finite `f64` values, both zeros alike.
pub open spec fn order_key64(b: u64) -> u64 {
    if magnitude64(b) == 0 {
        F64_SIGN
    } else if b >= F64_SIGN {
        (0xffff_ffff_ffff_ffffu64 - b) as u64
    } else {
        (b + F64_SIGN) as u64
    }
}

/// For finite values: `a <= b` as numbers.
pub open spec fn spec_le64(a: u64, b: u64) -> bool {
    order_key64(a) <= order_key64(b)
}

/// The `f64` is finite and greater than zero.
pub open spec fn spec_positive64(b: u64) -> bool {
    spec_finite64(b) && b < F64_SIGN && b > 0
}

/// Computes `spec_finite64`.
pub fn finite64(b: u64) -> (r: bool)
    ensures
        r == spec_finite64(b),
{
    let m = if b >= F64_SIGN { b - F64_SIGN } else { b };
    m < F64_INFINITY
}

/// Computes `order_key64`.
pub fn key64(b: u64) -> (r: u64)
    ensures
        r == order_key64(b),
{
    let m = if b >= F64_SIGN { b - F64_SIGN } else { b };
    if m == 0 {
        F64_SIGN
    } else if b >= F64_SIGN {
        0xffff_ffff_ffff_ffffu64 - b
    } else {
        b + F64_SIGN
    }
}

/// Computes `spec_le64`.
pub fn le64(a: u64, b: u64) -> (r: bool)
    ensures
        r == spec_le64(a, b),
{
    key64(a) <= key64(b)
}

/// Computes `spec_positive64`.
pub fn positive64(b: u64) -> (r: bool)
    ensures
        r == spec_positive64(b),
{
    finite64(b) && b < F64_SIGN && b > 0
}

} // verus!
