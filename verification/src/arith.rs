//! Saturating sample arithmetic and error scaling.

use vstd::prelude::*;

verus! {

/// `clamp(v + d, 0, 255)` over mathematical integers.
pub open spec fn sat_add_spec(v: int, d: int) -> int {
    if v + d < 0 {
        0
    } else if v + d > 255 {
        255
    } else {
        v + d
    }
}

/// Adds a signed 8-bit delta to an unsigned 8-bit sample, saturating at the
/// 0 and 255 endpoints.
pub fn saturating_add(value: u8, increment: i8) -> (r: u8)
    ensures
        r as int == sat_add_spec(value as int, increment as int),
{
    let sum: i16 = value as i16 + increment as i16;
    if sum < 0 {
        0
    } else if sum > 255 {
        255
    } else {
        sum as u8
    }
}

} // verus!
