//! Element-by-element reference.

use vstd::prelude::*;

verus! {

use crate::mmcq::sums::{clamp32, lemma_seq_sum_take, seq_sum};

/// Saturating sum of every element of `slice`.
pub fn sum_u32_slice(slice: &[u32]) -> (sum: u32)
    ensures
        sum == clamp32(seq_sum(slice@)),
{
    let mut sum: u32 = 0;
    let mut i: usize = 0;
    while i < slice.len()
        invariant
            i <= slice@.len(),
            sum == clamp32(seq_sum(slice@.take(i as int))),
        decreases slice@.len() - i,
    {
        proof {
            lemma_seq_sum_take(slice@, i as int);
        }
        sum = sum.saturating_add(slice[i]);
        i += 1;
    }
    assert(slice@.take(i as int) =~= slice@);
    sum
}

} // verus!
