//! The entropy estimate of a file and the decision drawn from it.
//!
//! The score is the Shannon entropy of the sampled bytes in bits per byte,
//! in fixed point: with `n` bytes sampled and `c(v)` occurrences of the
//! value `v`, it is `log2(n) - (sum of c(v) * log2(c(v))) / n`, which is
//! the sum of `-p(v) * log2(p(v))` for `p(v) = c(v) / n`. The logarithms are
//! those of `fixed`, the division rounds up, and a score is never above
//! eight bits. Rounding up keeps a sample with two different bytes above
//! zero: only the empty sample and the sample of one repeated byte score
//! zero. How far a score can lie from the entropy in real numbers is stated
//! in `accuracy`.

use crate::config::{ArchiveConfig, ConfigView};
use crate::entry::EntropyAnalysis;
use crate::fixed::{
    lemma_double, lemma_log2_bound, lemma_log2_monotone, lemma_log2_scaled, log2, log2_fixed, ONE,
};
use crate::histogram::{
    count_bytes, lemma_occurrences_bound, lemma_occurrences_total,
    lemma_weighted_sum_of_histogram, lemma_weighted_total_bound, occurrences, occurrences_below,
    sum_terms, weighted, weighted_total,
};
use vstd::prelude::*;
use vstd::slice::slice_subrange;

verus! {

/// Eight bits per byte, the entropy of bytes that are spread evenly.
pub const EIGHT_BITS: u32 = 0x8_0000;

/// The length of `sample` times its logarithm, less the sum of the terms
/// of its byte values: the entropy of `sample` times `ONE` times its
/// length.
pub open spec fn entropy_sum(sample: Seq<u8>) -> int {
    sample.len() * log2_fixed(sample.len()) - weighted_total(sample, 256)
}

/// All bytes of `sample` are the same.
pub open spec fn is_constant(sample: Seq<u8>) -> bool {
    forall|i: int, j: int| 0 <= i < sample.len() && 0 <= j < sample.len() ==> sample[i] == sample[j]
}

/// The entropy of `sample` in bits per byte, times `ONE`: `entropy_sum`
/// divided by the length and rounded up, and at most eight bits. Zero for
/// the empty sample.
pub open spec fn entropy_bits(sample: Seq<u8>) -> nat {
    let n = sample.len();
    if n == 0 {
        0
    } else {
        let score = (entropy_sum(sample) + n - 1) / (n as int);
        if score > EIGHT_BITS {
            EIGHT_BITS as nat
        } else {
            score as nat
        }
    }
}

/// The decision for a score: above the threshold a file is stored raw,
/// at the threshold or below it is compressed.
pub open spec fn analysis_of(score: int, threshold: int) -> EntropyAnalysis {
    if score > threshold {
        EntropyAnalysis::DontCompress
    } else {
        EntropyAnalysis::Compress
    }
}

/// How many leading bytes of a file of `len` bytes are sampled at `ratio`
/// (times `ONE`): the product, rounded down.
pub open spec fn sample_length(len: nat, ratio: nat) -> nat {
    (len * ratio) / (ONE as nat)
}

/// The entropy estimate of a file with the bytes `content` under `config`:
/// that of its sampled leading bytes.
pub open spec fn file_entropy(content: Seq<u8>, config: ConfigView) -> nat {
    entropy_bits(content.take(sample_length(content.len(), config.sampling_ratio) as int))
}

/// The decision for a file with the bytes `content` under `config`: that
/// for its entropy estimate.
pub open spec fn file_analysis(content: Seq<u8>, config: ConfigView) -> EntropyAnalysis {
    analysis_of(file_entropy(content, config) as int, config.entropy_threshold)
}

/// Estimates the entropy of `sample` in bits per byte, times `ONE`. The
/// score is zero for the empty sample and for a sample of one repeated
/// byte, and for no other.
pub fn entropy(sample: &[u8]) -> (score: u32)
    ensures
        score == entropy_bits(sample@),
        score <= EIGHT_BITS,
        score == 0 <==> is_constant(sample@),
{
    proof {
        lemma_zero_entropy(sample@);
    }
    let n = sample.len();
    if n == 0 {
        return 0;
    }
    let counts = count_bytes(sample);
    proof {
        lemma_weighted_sum_of_histogram(counts@, sample@, 256);
        lemma_weighted_total_bound(sample@, 256);
        lemma_occurrences_total(sample@);
        lemma_log2_bound(n as nat);
    }
    let total = sum_terms(counts);
    let log = log2(n as u64);
    proof {
        assert(n * log < 0x1_0000_0000_0000_0000 * (64 * ONE)) by (nonlinear_arith)
            requires
                n < 0x1_0000_0000_0000_0000,
                log < 64 * ONE,
        ;
    }
    let whole: u128 = (n as u128) * (log as u128);
    let score = (whole - total + (n as u128 - 1)) / (n as u128);
    if score > EIGHT_BITS as u128 {
        EIGHT_BITS
    } else {
        score as u32
    }
}

/// Decides for a file with the entropy `score`: `Compress` if and only if
/// the score is at most the threshold.
pub fn classify(score: u32, threshold: i64) -> (analysis: EntropyAnalysis)
    ensures
        analysis == analysis_of(score as int, threshold as int),
        analysis == EntropyAnalysis::Compress <==> score <= threshold,
{
    if score as i64 > threshold {
        EntropyAnalysis::DontCompress
    } else {
        EntropyAnalysis::Compress
    }
}

/// How many leading bytes of a file of `len` bytes are sampled under
/// `config`. Never more than the file holds.
pub fn sample_len(len: usize, config: &ArchiveConfig) -> (sampled: usize)
    ensures
        sampled == sample_length(len as nat, config@.sampling_ratio),
        sampled <= len,
{
    let ratio = config.sampling_ratio();
    proof {
        assert(len * ratio <= len * ONE) by (nonlinear_arith)
            requires
                ratio <= ONE,
        ;
        assert(len * ratio < 0x1_0000_0000_0000_0000 * 0x1_0000_0000) by (nonlinear_arith)
            requires
                len < 0x1_0000_0000_0000_0000,
                ratio < 0x1_0000_0000,
        ;
    }
    let product: u128 = (len as u128) * (ratio as u128);
    (product / (ONE as u128)) as usize
}

/// Estimates the entropy of a file with the bytes `content` from the
/// leading bytes that `config` has sampled.
pub fn estimate(content: &[u8], config: &ArchiveConfig) -> (score: u32)
    ensures
        score == file_entropy(content@, config@),
        score <= EIGHT_BITS,
{
    let sampled = sample_len(content.len(), config);
    let sample = slice_subrange(content, 0, sampled);
    assert(sample@ =~= content@.take(sampled as int));
    entropy(sample)
}

/// Decides for a file with the bytes `content`: samples its leading bytes,
/// estimates their entropy and compares it with the threshold.
pub fn analyze_entropy(content: &[u8], config: &ArchiveConfig) -> (analysis: EntropyAnalysis)
    ensures
        analysis == file_analysis(content@, config@),
        analysis == EntropyAnalysis::Compress <==> file_entropy(content@, config@)
            <= config@.entropy_threshold,
{
    classify(estimate(content, config), config.entropy_threshold())
}

/// At a ratio of at most one, no more bytes are sampled than the file
/// holds; at a ratio of one, all of them are.
pub proof fn lemma_sample_length_bound(len: nat, ratio: nat)
    requires
        ratio <= ONE,
    ensures
        sample_length(len, ratio) <= len,
        ratio == ONE ==> sample_length(len, ratio) == len,
{
    assert(len * ratio <= len * ONE) by (nonlinear_arith)
        requires
            ratio <= ONE,
    ;
    assert((len * ONE) / (ONE as int) == len) by (nonlinear_arith);
}

/// In a sample of one repeated value, that value has all the occurrences.
proof fn lemma_constant_occurrences(sample: Seq<u8>, value: u8, other: u8)
    requires
        forall|i: int| 0 <= i < sample.len() ==> sample[i] == value,
    ensures
        occurrences(sample, value) == sample.len(),
        other != value ==> occurrences(sample, other) == 0,
    decreases sample.len(),
{
    if sample.len() > 0 {
        lemma_constant_occurrences(sample.drop_last(), value, other);
    }
}

/// The terms of a sample of one repeated value: that of the value alone.
proof fn lemma_constant_total(sample: Seq<u8>, value: u8, bound: nat)
    requires
        forall|i: int| 0 <= i < sample.len() ==> sample[i] == value,
        bound <= 256,
    ensures
        weighted_total(sample, bound) == if value < bound {
            weighted(sample.len())
        } else {
            0
        },
    decreases bound,
{
    if bound > 0 {
        lemma_constant_total(sample, value, (bound - 1) as nat);
        lemma_constant_occurrences(sample, value, (bound - 1) as u8);
        assert(weighted(0) == 0) by (nonlinear_arith)
            requires
                weighted(0) == 0 * log2_fixed(0),
        ;
    }
}

/// A sample whose bytes are all the same has entropy zero, whatever its
/// length.
pub proof fn lemma_constant_sample(sample: Seq<u8>, value: u8)
    requires
        forall|i: int| 0 <= i < sample.len() ==> sample[i] == value,
    ensures
        entropy_sum(sample) == 0,
        entropy_bits(sample) == 0,
{
    lemma_constant_total(sample, value, 256);
    let n = sample.len();
    if n > 0 {
        assert((0 + n - 1) / (n as int) == 0) by (nonlinear_arith)
            requires
                n > 0,
        ;
    }
}

/// A byte of a sample occurs in it, and two different byte values share
/// the sample between them.
proof fn lemma_occurrences_of_two(sample: Seq<u8>, a: u8, b: u8)
    requires
        a != b,
    ensures
        occurrences(sample, a) + occurrences(sample, b) <= sample.len(),
        forall|i: int| 0 <= i < sample.len() && sample[i] == a ==> occurrences(sample, a) >= 1,
    decreases sample.len(),
{
    if sample.len() > 0 {
        let init = sample.drop_last();
        lemma_occurrences_of_two(init, a, b);
        assert forall|i: int| 0 <= i < sample.len() && sample[i] == a implies occurrences(
            sample,
            a,
        ) >= 1 by {
            if i < init.len() {
                assert(init[i] == sample[i]);
            }
        }
    }
}

/// The terms of a sample fall short of its length times the logarithm of
/// its length by at least what the value `value` falls short with.
proof fn lemma_weighted_total_gap(sample: Seq<u8>, value: u8, bound: nat)
    requires
        bound <= 256,
    ensures
        weighted_total(sample, bound) + (if value < bound {
            occurrences(sample, value) * (log2_fixed(sample.len()) - log2_fixed(
                occurrences(sample, value),
            ))
        } else {
            0
        }) <= occurrences_below(sample, bound) * log2_fixed(sample.len()),
    decreases bound,
{
    if bound > 0 {
        let rest = (bound - 1) as nat;
        let count = occurrences(sample, rest as u8);
        let log = log2_fixed(sample.len());
        lemma_weighted_total_gap(sample, value, rest);
        lemma_occurrences_bound(sample, rest as u8);
        lemma_log2_monotone(count, sample.len());
        assert(count * log2_fixed(count) <= count * log) by (nonlinear_arith)
            requires
                log2_fixed(count) <= log,
        ;
        assert(count * log2_fixed(count) + count * (log - log2_fixed(count)) == count * log)
            by (nonlinear_arith);
        assert((occurrences_below(sample, rest) + count) * log == occurrences_below(sample, rest)
            * log + count * log) by (nonlinear_arith);
    } else {
        assert(0 * log2_fixed(sample.len()) == 0);
    }
}

/// A sample scores zero where it is empty or all its bytes are the same,
/// and only there: two different byte values keep the score above zero.
pub proof fn lemma_zero_entropy(sample: Seq<u8>)
    ensures
        entropy_sum(sample) >= 0,
        entropy_sum(sample) == 0 <==> is_constant(sample),
        entropy_bits(sample) == 0 <==> is_constant(sample),
{
    let n = sample.len();
    lemma_weighted_total_bound(sample, 256);
    lemma_occurrences_total(sample);
    if is_constant(sample) {
        if n > 0 {
            lemma_constant_sample(sample, sample[0]);
        } else {
            lemma_constant_sample(sample, 0u8);
        }
    } else {
        let (i, j) = choose|i: int, j: int|
            0 <= i < sample.len() && 0 <= j < sample.len() && sample[i] != sample[j];
        let a = sample[i];
        let b = sample[j];
        lemma_occurrences_of_two(sample, a, b);
        lemma_occurrences_of_two(sample, b, a);
        let rare = if occurrences(sample, a) <= occurrences(sample, b) {
            a
        } else {
            b
        };
        let count = occurrences(sample, rare);
        assert(1 <= count && 2 * count <= n);
        lemma_double(count);
        lemma_log2_monotone(2 * count, n);
        lemma_weighted_total_gap(sample, rare, 256);
        let gap = log2_fixed(n) - log2_fixed(count);
        assert(gap >= ONE);
        assert(count * gap >= 1) by (nonlinear_arith)
            requires
                count >= 1,
                gap >= 1,
        ;
        let sum = entropy_sum(sample);
        assert(sum >= 1);
        assert((sum + n - 1) / (n as int) >= 1) by (nonlinear_arith)
            requires
                sum >= 1,
                n >= 1,
        ;
    }
}

/// A file whose bytes are all the same has entropy zero at every sampling
/// ratio, and is compressed under every threshold that is not negative.
pub proof fn lemma_constant_file(content: Seq<u8>, value: u8, config: ConfigView)
    requires
        config.valid(),
        forall|i: int| 0 <= i < content.len() ==> content[i] == value,
    ensures
        file_entropy(content, config) == 0,
        config.entropy_threshold >= 0 ==> file_analysis(content, config)
            == EntropyAnalysis::Compress,
{
    let sampled = sample_length(content.len(), config.sampling_ratio) as int;
    lemma_sample_length_bound(content.len(), config.sampling_ratio);
    let sample = content.take(sampled);
    assert forall|i: int| 0 <= i < sample.len() implies sample[i] == value by {}
    lemma_constant_sample(sample, value);
}

/// Where every byte value occurs `count` times, the terms add up to 256
/// times one term and the sample holds 256 times `count` bytes.
proof fn lemma_uniform_total(sample: Seq<u8>, count: nat, bound: nat)
    requires
        forall|v: u8| occurrences(sample, v) == count,
        bound <= 256,
    ensures
        weighted_total(sample, bound) == bound * weighted(count),
        occurrences_below(sample, bound) == bound * count,
    decreases bound,
{
    if bound > 0 {
        let rest = (bound - 1) as nat;
        lemma_uniform_total(sample, count, rest);
        assert(rest * weighted(count) + weighted(count) == bound * weighted(count))
            by (nonlinear_arith)
            requires
                rest + 1 == bound,
        ;
        assert(rest * count + count == bound * count) by (nonlinear_arith)
            requires
                rest + 1 == bound,
        ;
    } else {
        assert(0 * weighted(count) == 0);
        assert(0 * count == 0);
    }
}

/// A sample in which every byte value occurs equally often has an entropy
/// of exactly eight bits, whatever its length.
pub proof fn lemma_uniform_sample(sample: Seq<u8>, count: nat)
    requires
        count > 0,
        forall|v: u8| occurrences(sample, v) == count,
    ensures
        sample.len() == 256 * count,
        entropy_bits(sample) == EIGHT_BITS,
{
    let n = sample.len();
    lemma_uniform_total(sample, count, 256);
    lemma_occurrences_total(sample);
    assert(n == 256 * count);
    vstd::arithmetic::power2::lemma2_to64();
    lemma_log2_scaled(count, 8);
    let log = log2_fixed(count);
    assert(log2_fixed(n) == log + 8 * ONE);
    assert(n * (log + 8 * ONE) - 256 * (count * log) == n * EIGHT_BITS) by (nonlinear_arith)
        requires
            n == 256 * count,
    ;
    assert(entropy_sum(sample) == n * EIGHT_BITS);
    assert((n * EIGHT_BITS + n - 1) / (n as int) == EIGHT_BITS) by (nonlinear_arith)
        requires
            n > 0,
    ;
}

} // verus!
