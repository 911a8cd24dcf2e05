//! Choosing dictionary training samples and training the dictionary.
use vstd::prelude::*;

use crate::codec::{train, zstd_trained};

verus! {

/// Total length of the first `k` sizes.
pub open spec fn prefix_sum(sizes: Seq<usize>, k: int) -> int
    decreases k,
{
    if k <= 0 {
        0
    } else {
        prefix_sum(sizes, k - 1) + sizes[k - 1]
    }
}

/// Total length of a list of samples.
pub open spec fn total_len(samples: Seq<Seq<u8>>) -> int
    decreases samples.len(),
{
    if samples.len() == 0 {
        0
    } else {
        total_len(samples.drop_last()) + samples.last().len()
    }
}

/// Samples below this many bytes in total are not worth training on.
pub const MIN_TRAINING_BYTES: usize = 100;

/// How many samples, taken in the given order, are used for training: samples
/// are taken while the bytes taken so far stay under `budget`.
pub fn select_training_samples(sizes: &Vec<usize>, budget: usize) -> (r: usize)
    ensures
        r <= sizes@.len(),
        forall|j: int| 0 <= j < r ==> prefix_sum(sizes@, j) < budget,
        r == sizes@.len() || prefix_sum(sizes@, r as int) >= budget,
{
    let mut total: u64 = 0;
    let mut i: usize = 0;
    while i < sizes.len()
        invariant
            i <= sizes@.len(),
            total == if prefix_sum(sizes@, i as int) <= u64::MAX {
                prefix_sum(sizes@, i as int)
            } else {
                u64::MAX as int
            },
            forall|j: int| 0 <= j < i ==> prefix_sum(sizes@, j) < budget,
        decreases sizes@.len() - i,
    {
        if total >= budget as u64 {
            return i;
        }
        total = total.saturating_add(sizes[i] as u64);
        i = i + 1;
    }
    i
}

/// The dictionary for a build: the one zstd trains for `dict_size`, or an
/// empty one when the samples hold fewer than `MIN_TRAINING_BYTES` bytes or
/// training fails. The flag tells whether training failed.
pub fn train_dictionary(samples: &Vec<Vec<u8>>, dict_size: usize) -> (r: (Vec<u8>, bool))
    ensures
        total_len(samples.deep_view()) < MIN_TRAINING_BYTES ==> r.0@.len() == 0 && !r.1,
        total_len(samples.deep_view()) >= MIN_TRAINING_BYTES ==> match zstd_trained(samples.deep_view(), dict_size as int) {
            Some(d) => r.0@ == d && !r.1,
            None => r.0@.len() == 0 && r.1,
        },
{
    let mut total: usize = 0;
    let mut i: usize = 0;
    while i < samples.len()
        invariant
            i <= samples@.len(),
            total == if total_len(samples.deep_view().take(i as int)) < MIN_TRAINING_BYTES {
                total_len(samples.deep_view().take(i as int))
            } else {
                MIN_TRAINING_BYTES as int
            },
        decreases samples@.len() - i,
    {
        let n = samples[i].len();
        proof {
            let t = samples.deep_view().take(i + 1);
            assert(t.drop_last() =~= samples.deep_view().take(i as int));
            assert(t.last() == samples@[i as int]@);
        }
        if n >= MIN_TRAINING_BYTES - total {
            total = MIN_TRAINING_BYTES;
        } else {
            total = total + n;
        }
        i = i + 1;
    }
    assert(samples.deep_view().take(samples@.len() as int) =~= samples.deep_view());
    if total < MIN_TRAINING_BYTES {
        return (Vec::new(), false);
    }
    match train(samples, dict_size) {
        Some(d) => (d, false),
        None => (Vec::new(), true),
    }
}

} // verus!
