//! Order of IEEE 754 binary32 numbers, read from their bit patterns.
//!
//! Prices and sizes travel through this library as the 32-bit encodings of
//! single-precision numbers. Comparing two of them needs no arithmetic on the
//! numbers themselves: the encoding is sign and magnitude, so the order of
//! two numbers is the order of their signed magnitudes, and a NaN is
//! unordered with everything.

use vstd::prelude::*;

verus! {

/// Whether `bits` encodes a NaN: all exponent bits set and a non-zero fraction.
pub open spec fn is_nan(bits: u32) -> bool {
    (bits & 0x7fff_ffff) > 0x7f80_0000
}

/// The signed magnitude of the number that `bits` encodes. Both zeros have
/// rank 0; among numbers that are not NaN, a larger number has a larger rank.
pub open spec fn rank(bits: u32) -> int {
    if bits & 0x8000_0000 == 0 {
        (bits & 0x7fff_ffff) as int
    } else {
        -((bits & 0x7fff_ffff) as int)
    }
}

/// `a < b` as numbers. False whenever either side is a NaN.
pub open spec fn less(a: u32, b: u32) -> bool {
    !is_nan(a) && !is_nan(b) && rank(a) < rank(b)
}

/// What `if x > acc { x } else { acc }` selects: a running maximum that keeps
/// `acc` unless `x` is strictly greater.
pub open spec fn larger(x: u32, acc: u32) -> u32 {
    if less(acc, x) {
        x
    } else {
        acc
    }
}

/// What `if x < acc { x } else { acc }` selects: a running minimum that keeps
/// `acc` unless `x` is strictly smaller.
pub open spec fn smaller(x: u32, acc: u32) -> u32 {
    if less(x, acc) {
        x
    } else {
        acc
    }
}

fn signed_magnitude(bits: u32) -> (r: i64)
    ensures
        r == rank(bits),
{
    let magnitude: u32 = bits & 0x7fff_ffff;
    assert(bits & 0x7fff_ffff <= 0x7fff_ffff) by (bit_vector);
    if bits & 0x8000_0000 == 0 {
        magnitude as i64
    } else {
        -(magnitude as i64)
    }
}

/// Tells whether `bits` encodes a NaN.
pub fn nan(bits: u32) -> (r: bool)
    ensures
        r == is_nan(bits),
{
    (bits & 0x7fff_ffff) > 0x7f80_0000
}

/// Tells whether the number encoded by `a` is less than the one encoded by `b`.
pub fn lt(a: u32, b: u32) -> (r: bool)
    ensures
        r == less(a, b),
{
    !nan(a) && !nan(b) && signed_magnitude(a) < signed_magnitude(b)
}

/// Tells whether the number encoded by `a` is greater than the one encoded by `b`.
pub fn gt(a: u32, b: u32) -> (r: bool)
    ensures
        r == less(b, a),
{
    lt(b, a)
}

/// The running maximum after seeing `x`.
pub fn max_of(x: u32, acc: u32) -> (r: u32)
    ensures
        r == larger(x, acc),
{
    if gt(x, acc) {
        x
    } else {
        acc
    }
}

/// The running minimum after seeing `x`.
pub fn min_of(x: u32, acc: u32) -> (r: u32)
    ensures
        r == smaller(x, acc),
{
    if lt(x, acc) {
        x
    } else {
        acc
    }
}

} // verus!
