use vstd::prelude::*;

verus! {

/// The sample scale: a sample value `x` stands for the amplitude
/// `x / FULL_SCALE`. The range of `i16` holds -1.0 exactly (`i16::MIN`) and
/// reaches up to `32767 / 32768` on the positive side.
pub const FULL_SCALE: i32 = 32768;

/// The denominator of dimensionless settings: a ratio `r` is stored as `r * PARTS`.
pub const PARTS: u32 = 1000;

/// Magnitude of a sample, as an integer.
pub open spec fn spec_magnitude(x: i16) -> int {
    if x < 0 { -(x as int) } else { x as int }
}

/// The magnitude of a sample; `i16::MIN` has magnitude `FULL_SCALE`.
pub fn magnitude(x: i16) -> (m: i32)
    ensures
        m == spec_magnitude(x),
        0 <= m <= FULL_SCALE,
{
    if x < 0 {
        -(x as i32)
    } else {
        x as i32
    }
}

} // verus!
