//! Scores are single-precision floats, carried here as their IEEE-754 bit
//! patterns. Ranking needs a total order on them; this module gives one in
//! which every NaN ranks lowest and the two zeros rank equal.
use vstd::prelude::*;

verus! {

/// Width of the mantissa field: the exponent starts at this bit.
pub const MANTISSA_SPAN: u32 = 0x80_0000;

/// The sign bit.
pub const SIGN_BIT: u32 = 0x8000_0000;

/// All exponent bits set: infinities and NaNs.
pub const EXPONENT_ALL_ONES: u32 = 0xFF;

/// The bit pattern encodes a NaN: all exponent bits set, mantissa non-zero.
pub open spec fn is_nan(bits: u32) -> bool {
    (bits / MANTISSA_SPAN) % 0x100 == EXPONENT_ALL_ONES && bits % MANTISSA_SPAN != 0
}

/// A value that orders non-NaN bit patterns as the floats they encode:
/// the magnitude bits, negated when the sign bit is set. IEEE-754 lays out
/// magnitudes so that their bit patterns grow with the value, and both zeros
/// map to 0.
pub open spec fn signed_magnitude(bits: u32) -> int {
    if bits >= SIGN_BIT {
        -(bits - SIGN_BIT)
    } else {
        bits as int
    }
}

/// The rank of a score: NaN lowest (0), every other value above it in the
/// order of the float it encodes.
pub open spec fn score_key(bits: u32) -> int {
    if is_nan(bits) {
        0
    } else {
        signed_magnitude(bits) + SIGN_BIT
    }
}

/// Maps a score's bit pattern to its rank as an unsigned integer.
pub fn order_key(bits: u32) -> (r: u32)
    ensures
        r as int == score_key(bits),
{
    let exponent: u32 = (bits / MANTISSA_SPAN) % 0x100;
    let mantissa: u32 = bits % MANTISSA_SPAN;
    if exponent == EXPONENT_ALL_ONES && mantissa != 0 {
        0
    } else if bits >= SIGN_BIT {
        (u32::MAX - bits) + 1
    } else {
        bits + SIGN_BIT
    }
}

/// A rank fits in 32 bits.
pub proof fn lemma_score_key_fits(bits: u32)
    ensures
        0 <= score_key(bits) <= u32::MAX,
{
}

} // verus!
