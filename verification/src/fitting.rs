//! Data of the curve-fitting stage that works on decoded records.

use vstd::prelude::*;

verus! {

/// One lag of an autocorrelation function: its number, the two pulses that
/// form it, and where its samples start.
pub struct LagNode {
    pub lag_num: i32,
    pub pulses: [usize; 2],
    pub lag_idx: i32,
    pub sample_base_1: i32,
    pub sample_base_2: i32,
}

} // verus!
