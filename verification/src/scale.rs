//! Per-level scaling of the multipole-to-local contribution.
//!
//! Every scale factor of the translation is a power of two, so it is held
//! exactly by its exponent rather than as a rounded number.

use vstd::prelude::*;

verus! {

/// The number `2^exponent`.
#[derive(Clone, Copy, Debug, PartialEq, Eq, Structural)]
pub struct PowerOfTwo {
    pub exponent: i128,
}

/// Exponent of the multipole-to-local scale at `level`: the scale is one
/// half at level 2 and `2^(level - 3)` from level 3 on.
pub open spec fn m2l_scale_exponent(level: int) -> int {
    if level == 2 {
        -1
    } else {
        level - 3
    }
}

/// Scale applied to a multipole-to-local contribution at `level`.
///
/// The translation is only defined from level 2 on.
pub fn m2l_scale(level: u64) -> (scale: PowerOfTwo)
    requires
        level >= 2,
    ensures
        scale.exponent == m2l_scale_exponent(level as int),
{
    if level == 2 {
        PowerOfTwo { exponent: -1 }
    } else {
        PowerOfTwo { exponent: level as i128 - 3 }
    }
}

} // verus!
