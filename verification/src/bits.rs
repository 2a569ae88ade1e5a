//! IEEE-754 single-precision bit patterns.
//!
//! Network parameters and activations are carried as the raw bit patterns of
//! single-precision values. The ordering of two such values, which decides
//! the step activation, is a short function of the bit patterns alone: apart
//! from the two zero encodings, non-payload-carrying order follows the
//! sign-magnitude integer order of the patterns. That definition is spelled
//! out here and the executable comparison is proved against it.

use vstd::prelude::*;

verus! {

/// Bit pattern of the single-precision value zero.
pub const ZERO_BITS: u32 = 0x0000_0000;

/// Bit pattern of the single-precision value one.
pub const ONE_BITS: u32 = 0x3F80_0000;

/// Magnitude field of a single-precision bit pattern: everything but the
/// sign bit.
pub open spec fn magnitude_bits(b: u32) -> u32 {
    b & 0x7FFF_FFFF
}

/// Whether the bit pattern encodes a NaN: exponent all ones and a non-zero
/// fraction, i.e. a magnitude field above that of infinity.
pub open spec fn is_nan_bits(b: u32) -> bool {
    magnitude_bits(b) > 0x7F80_0000
}

/// Whether the sign bit of the pattern is set.
pub open spec fn is_negative_bits(b: u32) -> bool {
    b >= 0x8000_0000
}

/// The position of a non-NaN pattern in the numeric order of the values it
/// encodes: magnitude, negated when the sign bit is set. Both zero
/// encodings map to zero, so they compare equal, as the values do.
pub open spec fn order_key(b: u32) -> int {
    if is_negative_bits(b) {
        -(magnitude_bits(b) as int)
    } else {
        magnitude_bits(b) as int
    }
}

/// Strict `greater than` on encoded single-precision values. A comparison
/// involving a NaN is false, as it is on the encoded values.
pub open spec fn gt_bits(a: u32, b: u32) -> bool {
    &&& !is_nan_bits(a)
    &&& !is_nan_bits(b)
    &&& order_key(a) > order_key(b)
}

/// The step activation: one when the sum strictly exceeds the bias, else
/// zero. A tie yields zero.
pub open spec fn step_bits(sum: u32, bias: u32) -> u32 {
    if gt_bits(sum, bias) {
        ONE_BITS
    } else {
        ZERO_BITS
    }
}

/// Whether the pattern encodes a value of magnitude at most one. NaN and
/// infinity patterns have larger magnitude fields, so they are excluded.
pub open spec fn unit_interval_bits(b: u32) -> bool {
    magnitude_bits(b) <= ONE_BITS
}

/// Executable step activation over bit patterns.
pub fn step_activation(sum: u32, bias: u32) -> (r: u32)
    ensures
        r == step_bits(sum, bias),
{
    let mag_sum: u32 = sum & 0x7FFF_FFFF;
    let mag_bias: u32 = bias & 0x7FFF_FFFF;
    if mag_sum > 0x7F80_0000 || mag_bias > 0x7F80_0000 {
        return ZERO_BITS;
    }
    let neg_sum: bool = sum >= 0x8000_0000;
    let neg_bias: bool = bias >= 0x8000_0000;
    proof {
        assert(!neg_sum ==> mag_sum == sum) by (bit_vector)
            requires
                mag_sum == sum & 0x7FFF_FFFF,
                neg_sum == (sum >= 0x8000_0000),
        ;
        assert(!neg_bias ==> mag_bias == bias) by (bit_vector)
            requires
                mag_bias == bias & 0x7FFF_FFFF,
                neg_bias == (bias >= 0x8000_0000),
        ;
    }
    let exceeds: bool = if neg_sum && neg_bias {
        mag_sum < mag_bias
    } else if neg_sum {
        false
    } else if neg_bias {
        mag_sum > 0 || mag_bias > 0
    } else {
        mag_sum > mag_bias
    };
    if exceeds {
        ONE_BITS
    } else {
        ZERO_BITS
    }
}

/// A tie between the sum and the bias resolves to zero: feeding any bias to
/// itself never exceeds it.
pub proof fn lemma_tie_resolves_low(b: u32)
    ensures
        step_bits(b, b) == ZERO_BITS,
{
}

/// The step activation only ever produces the patterns of zero and one.
pub proof fn lemma_step_bivalent(sum: u32, bias: u32)
    ensures
        step_bits(sum, bias) == ZERO_BITS || step_bits(sum, bias) == ONE_BITS,
{
}

} // verus!
