//! Saturating sums over histogram rows.
//!
//! The scalar loop is the reference; the lane-wise versions widen the running totals
//! and hold the total at `u32::MAX` once at the end. All of them return the
//! exact sum held at `u32::MAX`.

pub mod lanes4;
pub mod lanes8;
pub mod scalar;

use vstd::prelude::*;

verus! {

use crate::mmcq::sums::{clamp32, seq_sum};

/// The sum of `slice`, held at `u32::MAX`.
pub fn sum_u32_slice(slice: &[u32]) -> (sum: u32)
    ensures
        sum == clamp32(seq_sum(slice@)),
{
    lanes8::sum_u32_slice(slice)
}

} // verus!
