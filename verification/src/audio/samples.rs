use vstd::prelude::*;

verus! {

// Audio samples are `f32` values. This library holds each one by its IEEE 754
// binary32 bit pattern (`f32::to_bits`): the logic here only tests samples for
// zero, compares their signs and compares their magnitudes, and each of those
// is a test on the bits.

/// The bits of a sample without its sign: the bit pattern of its absolute value.
pub open spec fn magnitude(b: u32) -> u32 {
    b & 0x7fff_ffff
}

/// The sample is +0.0 or -0.0.
pub open spec fn is_zero_sample(b: u32) -> bool {
    b & 0x7fff_ffff == 0
}

/// The sample is a NaN.
pub open spec fn is_nan_sample(b: u32) -> bool {
    b & 0x7fff_ffff > 0x7f80_0000
}

/// The sign bit of the sample is set.
pub open spec fn is_negative_sample(b: u32) -> bool {
    b >= 0x8000_0000
}

/// `a.signum() != b.signum()` for two samples that are not zero: a NaN has a
/// NaN signum, unequal to every value; otherwise the signs decide.
pub open spec fn signs_differ(a: u32, b: u32) -> bool {
    is_nan_sample(a) || is_nan_sample(b) || is_negative_sample(a) != is_negative_sample(b)
}

/// `a.abs() > b.abs()` for a sample `b` that is not a NaN: no comparison with
/// a NaN holds, and the bit patterns of non-negative floats are ordered as
/// their values are.
pub open spec fn louder(a: u32, b: u32) -> bool {
    !is_nan_sample(a) && magnitude(a) > magnitude(b)
}

pub fn sample_is_zero(b: u32) -> (r: bool)
    ensures
        r == is_zero_sample(b),
{
    b & 0x7fff_ffff == 0
}

pub fn samples_signs_differ(a: u32, b: u32) -> (r: bool)
    ensures
        r == signs_differ(a, b),
{
    (a & 0x7fff_ffff > 0x7f80_0000) || (b & 0x7fff_ffff > 0x7f80_0000) || ((a >= 0x8000_0000) != (b
        >= 0x8000_0000))
}

pub fn sample_louder(a: u32, b: u32) -> (r: bool)
    ensures
        r == louder(a, b),
{
    !(a & 0x7fff_ffff > 0x7f80_0000) && (a & 0x7fff_ffff) > (b & 0x7fff_ffff)
}

} // verus!
