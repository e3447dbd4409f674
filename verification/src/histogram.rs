//! The histogram of a sample: how often each byte value occurs in it.
//!
//! The counts are kept in an `FxHashMap` and their weighted logarithms are
//! summed by `rayon`; of both the module states what the library relies on.
//! The counting itself is verified.

use crate::fixed::{lemma_log2_monotone, log2, log2_fixed, ONE};
use rayon::iter::{IntoParallelIterator, ParallelIterator};
use rustc_hash::FxHashMap;
use vstd::prelude::*;

verus! {

/// `rustc_hash::FxBuildHasher`, the hasher of an `FxHashMap`.
#[verifier::external_type_specification]
#[verifier::external_body]
pub struct ExFxBuildHasher(rustc_hash::FxBuildHasher);

/// How often `value` occurs in `sample`.
pub open spec fn occurrences(sample: Seq<u8>, value: u8) -> nat
    decreases sample.len(),
{
    if sample.len() == 0 {
        0
    } else if sample.last() == value {
        occurrences(sample.drop_last(), value) + 1
    } else {
        occurrences(sample.drop_last(), value)
    }
}

/// `counts` is the histogram of `sample`: its keys are the values that
/// occur, each with the number of its occurrences.
pub open spec fn is_histogram(counts: Map<u8, u64>, sample: Seq<u8>) -> bool {
    forall|v: u8|
        #![trigger counts.contains_key(v)]
        #![trigger counts[v]]
        {
            &&& counts.contains_key(v) <==> occurrences(sample, v) > 0
            &&& counts.contains_key(v) ==> counts[v] == occurrences(sample, v)
        }
}

/// The term that a value with `count` occurrences adds to the sum of an
/// entropy: `count` times its logarithm.
pub open spec fn weighted(count: nat) -> nat {
    count * log2_fixed(count)
}

/// The sum of the terms of the byte values below `bound` that `counts`
/// holds.
pub open spec fn weighted_sum(counts: Map<u8, u64>, bound: nat) -> nat
    decreases bound,
{
    if bound == 0 {
        0
    } else {
        let v = (bound - 1) as u8;
        weighted_sum(counts, (bound - 1) as nat) + if counts.contains_key(v) {
            weighted(counts[v] as nat)
        } else {
            0
        }
    }
}

/// The sum of the terms of the byte values below `bound`, by their
/// occurrences in `sample`.
pub open spec fn weighted_total(sample: Seq<u8>, bound: nat) -> nat
    decreases bound,
{
    if bound == 0 {
        0
    } else {
        weighted_total(sample, (bound - 1) as nat) + weighted(
            occurrences(sample, (bound - 1) as u8),
        )
    }
}

/// The occurrences in `sample` of the byte values below `bound`, summed.
pub open spec fn occurrences_below(sample: Seq<u8>, bound: nat) -> nat
    decreases bound,
{
    if bound == 0 {
        0
    } else {
        occurrences_below(sample, (bound - 1) as nat) + occurrences(sample, (bound - 1) as u8)
    }
}

/// `FxHashMap::default`. Claimed of it: the map has no entries.
#[verifier::external_body]
fn counts_new() -> (r: FxHashMap<u8, u64>)
    ensures
        forall|v: u8| !r@.contains_key(v),
{
    FxHashMap::default()
}

/// `HashMap::get` on an `FxHashMap`, the count copied out. Claimed of it:
/// the count is that of `value` where the map has one. The hasher of
/// `rustc_hash` gives equal keys equal hashes, so the map finds what was
/// put in.
#[verifier::external_body]
fn counts_get(counts: &FxHashMap<u8, u64>, value: u8) -> (count: Option<u64>)
    ensures
        count == if counts@.contains_key(value) {
            Some(counts@[value])
        } else {
            None::<u64>
        },
{
    counts.get(&value).copied()
}

/// `HashMap::insert` on an `FxHashMap`. Claimed of it: the entry of
/// `value` is set to `count`, the others stay.
#[verifier::external_body]
fn counts_insert(counts: &mut FxHashMap<u8, u64>, value: u8, count: u64)
    ensures
        final(counts)@ == old(counts)@.insert(value, count),
{
    counts.insert(value, count);
}

/// `rayon`'s `into_par_iter` over the map, with `map` and `sum`: each count
/// is mapped to its term and the terms are summed. Claimed of it: the sum
/// is that of the terms of all entries. The terms are integers, so the
/// order in which `rayon` adds them does not show; at most 256 terms below
/// the 86th power of two cannot overflow the sum.
#[verifier::external_body]
pub(crate) fn sum_terms(counts: FxHashMap<u8, u64>) -> (sum: u128)
    ensures
        sum == weighted_sum(counts@, 256),
{
    counts.into_par_iter().map(|(_, count)| term(count)).sum()
}

/// The term of one byte value: `count` times its logarithm.
pub fn term(count: u64) -> (t: u128)
    ensures
        t == weighted(count as nat),
        t < 0x40_0000_0000_0000_0000_0000,
{
    let log = log2(count);
    proof {
        assert(count * log < 0x1_0000_0000_0000_0000 * (64 * ONE)) by (nonlinear_arith)
            requires
                count < 0x1_0000_0000_0000_0000,
                log < 64 * ONE,
        ;
    }
    (count as u128) * (log as u128)
}

/// An occurrence count is at most the sample's length.
pub proof fn lemma_occurrences_bound(sample: Seq<u8>, value: u8)
    ensures
        occurrences(sample, value) <= sample.len(),
    decreases sample.len(),
{
    if sample.len() > 0 {
        lemma_occurrences_bound(sample.drop_last(), value);
    }
}

/// Counts the bytes of `sample`.
pub fn count_bytes(sample: &[u8]) -> (counts: FxHashMap<u8, u64>)
    ensures
        is_histogram(counts@, sample@),
{
    let mut counts = counts_new();
    let mut i: usize = 0;
    while i < sample.len()
        invariant
            0 <= i <= sample.len(),
            is_histogram(counts@, sample@.take(i as int)),
        decreases sample.len() - i,
    {
        let value = sample[i];
        let ghost before = sample@.take(i as int);
        let ghost after = sample@.take(i + 1);
        let ghost old_counts = counts@;
        proof {
            assert(after.drop_last() =~= before);
            assert(after.last() == value);
            lemma_occurrences_bound(before, value);
        }
        let count = match counts_get(&counts, value) {
            Some(count) => count,
            None => 0,
        };
        counts_insert(&mut counts, value, count + 1);
        proof {
            assert forall|v: u8|
                #![trigger counts@.contains_key(v)]
                #![trigger counts@[v]]
                {
                    &&& counts@.contains_key(v) <==> occurrences(after, v) > 0
                    &&& counts@.contains_key(v) ==> counts@[v] == occurrences(after, v)
                } by {
                if v != value {
                    assert(old_counts.contains_key(v) <==> occurrences(before, v) > 0);
                    assert(old_counts.contains_key(v) ==> old_counts[v] == occurrences(before, v));
                }
            }
        }
        i = i + 1;
    }
    proof {
        assert(sample@.take(i as int) =~= sample@);
    }
    counts
}

/// Summed over the values that a histogram holds or over all byte values
/// by their occurrences, the terms give the same: a value that does not
/// occur adds nothing.
pub proof fn lemma_weighted_sum_of_histogram(counts: Map<u8, u64>, sample: Seq<u8>, bound: nat)
    requires
        is_histogram(counts, sample),
        bound <= 256,
    ensures
        weighted_sum(counts, bound) == weighted_total(sample, bound),
    decreases bound,
{
    if bound > 0 {
        lemma_weighted_sum_of_histogram(counts, sample, (bound - 1) as nat);
        let v = (bound - 1) as u8;
        assert(counts.contains_key(v) <==> occurrences(sample, v) > 0);
        if !counts.contains_key(v) {
            assert(weighted(0) == 0) by (nonlinear_arith)
                requires
                    weighted(0) == 0 * log2_fixed(0),
            ;
        }
    }
}

/// Every byte of a sample is counted once: the occurrences of all byte
/// values add up to the sample's length.
pub proof fn lemma_occurrences_total(sample: Seq<u8>)
    ensures
        occurrences_below(sample, 256) == sample.len(),
    decreases sample.len(),
{
    if sample.len() == 0 {
        lemma_occurrences_of_nothing(sample, 256);
    } else {
        lemma_occurrences_total(sample.drop_last());
        lemma_occurrences_step(sample, 256);
    }
}

proof fn lemma_occurrences_of_nothing(sample: Seq<u8>, bound: nat)
    requires
        sample.len() == 0,
    ensures
        occurrences_below(sample, bound) == 0,
    decreases bound,
{
    if bound > 0 {
        lemma_occurrences_of_nothing(sample, (bound - 1) as nat);
    }
}

/// The last byte of a sample adds one occurrence, to its own value.
proof fn lemma_occurrences_step(sample: Seq<u8>, bound: nat)
    requires
        sample.len() > 0,
        bound <= 256,
    ensures
        occurrences_below(sample, bound) == occurrences_below(sample.drop_last(), bound) + if sample.last()
            < bound {
            1nat
        } else {
            0nat
        },
    decreases bound,
{
    if bound > 0 {
        lemma_occurrences_step(sample, (bound - 1) as nat);
    }
}

/// The terms of a sample add up to no more than its length times the
/// logarithm of its length: no value occurs more often than the sample is
/// long.
pub proof fn lemma_weighted_total_bound(sample: Seq<u8>, bound: nat)
    requires
        bound <= 256,
    ensures
        weighted_total(sample, bound) <= occurrences_below(sample, bound) * log2_fixed(
            sample.len(),
        ),
    decreases bound,
{
    if bound > 0 {
        let rest = (bound - 1) as nat;
        let count = occurrences(sample, rest as u8);
        let log = log2_fixed(sample.len());
        lemma_weighted_total_bound(sample, rest);
        lemma_occurrences_bound(sample, rest as u8);
        lemma_log2_monotone(count, sample.len());
        assert(count * log2_fixed(count) <= count * log) by (nonlinear_arith)
            requires
                log2_fixed(count) <= log,
        ;
        assert((occurrences_below(sample, rest) + count) * log == occurrences_below(sample, rest)
            * log + count * log) by (nonlinear_arith);
    } else {
        assert(0 * log2_fixed(sample.len()) == 0);
    }
}

} // verus!
