//! Single-precision numbers by their bits.
//!
//! The library carries such a number as the bits that stand for it: the bits of two
//! numbers that are not negative are in the order of the numbers.

use vstd::prelude::*;

verus! {

/// Whether the bits stand for no number.
pub open spec fn is_nan(bits: u32) -> bool {
    bits % 0x8000_0000 > 0x7f80_0000
}

/// The number that is `bits` moved into `low..=high`, both positive. What is no number
/// becomes the lower limit.
pub open spec fn clamped(bits: u32, low: u32, high: u32) -> u32 {
    if is_nan(bits) {
        low
    } else if bits >= 0x8000_0000 || bits < low {
        low
    } else if bits > high {
        high
    } else {
        bits
    }
}

/// Moves a number into `low..=high`.
pub fn clamp(bits: u32, low: u32, high: u32) -> (r: u32)
    ensures
        r == clamped(bits, low, high),
        low <= high ==> low <= r <= high,
{
    if bits % 0x8000_0000 > 0x7f80_0000 {
        low
    } else if bits >= 0x8000_0000 || bits < low {
        low
    } else if bits > high {
        high
    } else {
        bits
    }
}

} // verus!
