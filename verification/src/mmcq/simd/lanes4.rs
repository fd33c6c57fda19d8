//! Four elements per step, added pairwise into two wide lanes.

use vstd::prelude::*;

verus! {

use crate::mmcq::sums::{clamp32, lemma_seq_sum_take, seq_sum};

/// Saturating sum of every element of `slice`, four at a time.
pub fn sum_u32_slice(slice: &[u32]) -> (sum: u32)
    ensures
        sum == clamp32(seq_sum(slice@)),
{
    let n: usize = slice.len();
    let mut lane0: u128 = 0;
    let mut lane1: u128 = 0;
    let mut i: usize = 0;
    while n - i >= 4
        invariant
            i <= n == slice@.len(),
            lane0 + lane1 == seq_sum(slice@.take(i as int)),
            lane0 + lane1 <= i * u32::MAX,
        decreases n - i,
    {
        proof {
            lemma_seq_sum_take(slice@, i as int);
            lemma_seq_sum_take(slice@, i + 1);
            lemma_seq_sum_take(slice@, i + 2);
            lemma_seq_sum_take(slice@, i + 3);
        }
        lane0 = lane0 + slice[i] as u128 + slice[i + 1] as u128;
        lane1 = lane1 + slice[i + 2] as u128 + slice[i + 3] as u128;
        i += 4;
    }
    let mut total: u128 = lane0 + lane1;
    while i < n
        invariant
            i <= n == slice@.len(),
            total == seq_sum(slice@.take(i as int)),
            total <= i * u32::MAX,
        decreases n - i,
    {
        proof {
            lemma_seq_sum_take(slice@, i as int);
        }
        total = total + slice[i] as u128;
        i += 1;
    }
    assert(slice@.take(i as int) =~= slice@);
    if total > u32::MAX as u128 {
        u32::MAX
    } else {
        total as u32
    }
}

} // verus!
