use ttare::config::{
    ArchiveConfig, ConfigError, ENTROPY_THRESHOLD, ENTROPY_SAMPLING,
};
use ttare::entropy::{analyze_entropy, classify, entropy, estimate, sample_len, EIGHT_BITS};
use ttare::entry::EntropyAnalysis;
use ttare::fixed::{log2, ONE};
use ttare::histogram::{count_bytes, term};

/// Bytes from a fixed linear congruential generator.
fn pseudo_random(len: usize, seed: u64) -> Vec<u8> {
    let mut state = seed;
    let mut bytes = Vec::with_capacity(len);
    for _ in 0..len {
        state = state.wrapping_mul(6364136223846793005).wrapping_add(1442695040888963407);
        bytes.push((state >> 56) as u8);
    }
    bytes
}

fn shannon(sample: &[u8]) -> f64 {
    let mut counts = [0u64; 256];
    for b in sample {
        counts[*b as usize] += 1;
    }
    let n = sample.len() as f64;
    counts
        .iter()
        .filter(|c| **c > 0)
        .map(|c| {
            let p = *c as f64 / n;
            -p * p.log2()
        })
        .sum()
}

#[test]
fn log2_of_powers_of_two_is_exact() {
    assert_eq!(log2(1), 0);
    assert_eq!(log2(2), ONE);
    assert_eq!(log2(256), 8 * ONE);
    assert_eq!(log2(1 << 32), 32 * ONE);
    assert_eq!(log2(1 << 63), 63 * ONE);
}

#[test]
fn log2_of_zero_is_zero() {
    assert_eq!(log2(0), 0);
}

#[test]
fn log2_exact_values() {
    assert_eq!(log2(3), 103872);
    assert_eq!(log2(5), 152169);
    assert_eq!(log2(10), 217705);
    assert_eq!(log2(10000), 870823);
    assert_eq!(log2(65535), 1048574);
    assert_eq!(log2(4294967295), 2097151);
    assert_eq!(log2(4294967297), 2097152);
    assert_eq!(log2(1099511640121), 2621440);
    assert_eq!(log2(u64::MAX), 4194303);
}

#[test]
fn log2_is_close_to_the_real_logarithm() {
    for x in [3u64, 7, 100, 12345, 999_999_937, 1 << 40, u64::MAX / 3] {
        let real = (x as f64).log2();
        let fixed = log2(x) as f64 / ONE as f64;
        assert!((real - fixed).abs() < 2.0 / ONE as f64, "log2({x}): {fixed} against {real}");
    }
}

#[test]
fn log2_doubling_adds_one() {
    for x in [1u64, 3, 5, 77, 1000, 123456789] {
        assert_eq!(log2(2 * x), log2(x) + ONE);
    }
}

#[test]
fn term_is_count_times_logarithm() {
    assert_eq!(term(0), 0);
    assert_eq!(term(1), 0);
    assert_eq!(term(2), 2 * ONE as u128);
    assert_eq!(term(3), 3 * 103872);
    assert_eq!(term(u64::MAX), u64::MAX as u128 * 4194303);
}

#[test]
fn count_bytes_counts_each_value() {
    let counts = count_bytes(b"abracadabra");
    assert_eq!(counts.len(), 5);
    assert_eq!(counts.get(&b'a'), Some(&5));
    assert_eq!(counts.get(&b'b'), Some(&2));
    assert_eq!(counts.get(&b'r'), Some(&2));
    assert_eq!(counts.get(&b'c'), Some(&1));
    assert_eq!(counts.get(&b'd'), Some(&1));
    assert_eq!(counts.get(&b'z'), None);
}

#[test]
fn count_bytes_of_nothing_is_empty() {
    assert!(count_bytes(b"").is_empty());
}

#[test]
fn entropy_of_empty_sample_is_zero() {
    assert_eq!(entropy(&[]), 0);
}

#[test]
fn entropy_of_constant_bytes_is_zero() {
    assert_eq!(entropy(&[b'a'; 1]), 0);
    assert_eq!(entropy(&[b'a'; 7]), 0);
    assert_eq!(entropy(&vec![b'a'; 10_000]), 0);
    assert_eq!(entropy(&vec![0u8; 12_345]), 0);
}

#[test]
fn entropy_of_evenly_spread_bytes_is_eight_bits() {
    for repeats in [1usize, 2, 3, 10, 39] {
        let mut sample = Vec::new();
        for _ in 0..repeats {
            sample.extend(0..=255u8);
        }
        assert_eq!(entropy(&sample), EIGHT_BITS);
    }
}

#[test]
fn entropy_of_evenly_spread_bytes_does_not_depend_on_order() {
    let mut sample: Vec<u8> = Vec::new();
    for v in (0..=255u8).rev() {
        sample.push(v);
        sample.push(v);
        sample.push(v);
    }
    assert_eq!(entropy(&sample), EIGHT_BITS);
}

#[test]
fn entropy_exact_values() {
    assert_eq!(entropy(&[0, 1]), ONE);
    assert_eq!(entropy(&[0, 1, 2, 3]), 2 * ONE);
    assert_eq!(entropy(&[0, 0, 1]), 60182);
    assert_eq!(entropy(b"hello world, hello entropy"), 224567);
    assert_eq!(entropy(&pseudo_random(10_000, 12345)), 523253);
    assert_eq!(entropy(&pseudo_random(10_000, 12345)[..5000]), 522317);
    assert_eq!(entropy(&[1, 1, 1, 1, 1, 1, 1, 2]), 35624);
}

#[test]
fn entropy_is_close_to_shannon_entropy() {
    let samples: Vec<Vec<u8>> = vec![
        b"the quick brown fox jumps over the lazy dog".to_vec(),
        pseudo_random(4096, 7),
        pseudo_random(100, 99),
        vec![1, 1, 1, 1, 1, 1, 1, 2],
        (0..200u8).collect(),
    ];
    for sample in samples {
        let real = shannon(&sample);
        let fixed = entropy(&sample) as f64 / ONE as f64;
        assert!((real - fixed).abs() < 1e-4, "{fixed} against {real}");
    }
}

#[test]
fn entropy_never_exceeds_eight_bits() {
    for seed in 0..50u64 {
        assert!(entropy(&pseudo_random(256 + seed as usize * 13, seed)) <= EIGHT_BITS);
    }
}

#[test]
fn classify_compresses_at_or_below_threshold() {
    assert_eq!(classify(0, 0), EntropyAnalysis::Compress);
    assert_eq!(classify(425_984, 425_984), EntropyAnalysis::Compress);
    assert_eq!(classify(425_983, 425_984), EntropyAnalysis::Compress);
    assert_eq!(classify(425_985, 425_984), EntropyAnalysis::DontCompress);
    assert_eq!(classify(EIGHT_BITS, 425_984), EntropyAnalysis::DontCompress);
}

#[test]
fn classify_degenerate_thresholds() {
    assert_eq!(classify(0, -1), EntropyAnalysis::DontCompress);
    assert_eq!(classify(EIGHT_BITS, 9 * ONE as i64), EntropyAnalysis::Compress);
    assert_eq!(classify(u32::MAX, i64::MAX), EntropyAnalysis::Compress);
    assert_eq!(classify(0, i64::MIN), EntropyAnalysis::DontCompress);
}

#[test]
fn config_rejects_ratio_out_of_range() {
    assert_eq!(ArchiveConfig::new(0, 0), Err(ConfigError::SamplingRatioZero));
    assert_eq!(ArchiveConfig::new(ONE + 1, 0), Err(ConfigError::SamplingRatioAboveOne));
    assert_eq!(ArchiveConfig::new(u32::MAX, 0), Err(ConfigError::SamplingRatioAboveOne));
}

#[test]
fn config_keeps_its_settings() {
    let config = ArchiveConfig::new(1, -5).unwrap();
    assert_eq!(config.sampling_ratio(), 1);
    assert_eq!(config.entropy_threshold(), -5);
    let config = ArchiveConfig::new(ONE, 9 * ONE as i64).unwrap();
    assert_eq!(config.sampling_ratio(), ONE);
    assert_eq!(config.entropy_threshold(), 9 * ONE as i64);
}

#[test]
fn config_default_is_half_and_six_and_a_half_bits() {
    let config = ArchiveConfig::default();
    assert_eq!(config.sampling_ratio(), ONE / 2);
    assert_eq!(config.entropy_threshold(), 6 * ONE as i64 + ONE as i64 / 2);
    assert_eq!(ENTROPY_SAMPLING, 32768);
    assert_eq!(ENTROPY_THRESHOLD, 425_984);
}

#[test]
fn sample_len_is_the_product_rounded_down() {
    let half = ArchiveConfig::default();
    assert_eq!(sample_len(0, &half), 0);
    assert_eq!(sample_len(1, &half), 0);
    assert_eq!(sample_len(7, &half), 3);
    assert_eq!(sample_len(10_000, &half), 5000);
    let whole = ArchiveConfig::new(ONE, 0).unwrap();
    assert_eq!(sample_len(10_000, &whole), 10_000);
    assert_eq!(sample_len(usize::MAX, &whole), usize::MAX);
    let tiny = ArchiveConfig::new(1, 0).unwrap();
    assert_eq!(sample_len(65_535, &tiny), 0);
    assert_eq!(sample_len(65_536, &tiny), 1);
    let third = ArchiveConfig::new(21_845, 0).unwrap();
    assert_eq!(sample_len(300, &third), 99);
}

#[test]
fn estimate_reads_the_leading_bytes_only() {
    let mut content = vec![b'a'; 5000];
    content.extend(pseudo_random(5000, 3));
    let half = ArchiveConfig::default();
    assert_eq!(estimate(&content, &half), 0);
    let whole = ArchiveConfig::new(ONE, ENTROPY_THRESHOLD).unwrap();
    assert_eq!(estimate(&content, &whole), entropy(&content));
    assert!(estimate(&content, &whole) > 0);
}

#[test]
fn analyze_entropy_of_empty_file_compresses() {
    assert_eq!(analyze_entropy(&[], &ArchiveConfig::default()), EntropyAnalysis::Compress);
}

#[test]
fn analyze_entropy_with_tiny_ratio_compresses() {
    let tiny = ArchiveConfig::new(1, 0).unwrap();
    assert_eq!(analyze_entropy(&pseudo_random(1000, 5), &tiny), EntropyAnalysis::Compress);
}

#[test]
fn analyze_entropy_text_and_noise() {
    let whole = ArchiveConfig::new(ONE, ENTROPY_THRESHOLD).unwrap();
    let text = vec![b'a'; 10_000];
    let noise = pseudo_random(10_000, 12345);
    assert_eq!(analyze_entropy(&text, &whole), EntropyAnalysis::Compress);
    assert_eq!(analyze_entropy(&noise, &whole), EntropyAnalysis::DontCompress);
    let half = ArchiveConfig::default();
    assert_eq!(analyze_entropy(&text, &half), EntropyAnalysis::Compress);
    assert_eq!(analyze_entropy(&noise, &half), EntropyAnalysis::DontCompress);
}

#[test]
fn analyze_entropy_boundary_score_compresses() {
    let sample: Vec<u8> = vec![0, 1, 2, 3];
    let at = ArchiveConfig::new(ONE, 2 * ONE as i64).unwrap();
    let below = ArchiveConfig::new(ONE, 2 * ONE as i64 - 1).unwrap();
    assert_eq!(analyze_entropy(&sample, &at), EntropyAnalysis::Compress);
    assert_eq!(analyze_entropy(&sample, &below), EntropyAnalysis::DontCompress);
}

#[test]
fn analyze_entropy_header_then_payload_is_judged_by_its_header() {
    let mut content = vec![0u8; 6000];
    content.extend(pseudo_random(4000, 11));
    assert_eq!(analyze_entropy(&content, &ArchiveConfig::default()), EntropyAnalysis::Compress);
}

#[test]
fn entropy_is_within_three_units_of_shannon_entropy() {
    for seed in 0..200u64 {
        let len = 1 + (seed as usize * 37) % 3000;
        let spread = 1 + (seed * 7) % 256;
        let sample: Vec<u8> =
            pseudo_random(len, seed).iter().map(|b| (*b as u64 % spread) as u8).collect();
        let real = shannon(&sample) * ONE as f64;
        let fixed = entropy(&sample) as f64;
        assert!(fixed < real + 3.0 && real < fixed + 2.0, "{fixed} against {real}");
    }
}

#[test]
fn log2_is_within_two_units_below_the_real_logarithm() {
    let mut x: u64 = 1;
    for step in 0..2000u64 {
        let real = (x as f64).log2() * ONE as f64;
        let fixed = log2(x) as f64;
        assert!(fixed <= real + 1e-6 && real < fixed + 2.0, "log2({x}): {fixed} against {real}");
        x = x.wrapping_mul(6364136223846793005).wrapping_add(1442695040888963407 + step) >> (step % 60);
        if x == 0 {
            x = step + 1;
        }
    }
}

#[test]
fn constant_file_has_entropy_zero_at_every_ratio() {
    let content = vec![b'x'; 9_999];
    for ratio in [1u32, 2, 100, 21_845, 32_768, 65_535, 65_536] {
        let config = ArchiveConfig::new(ratio, 0).unwrap();
        assert_eq!(estimate(&content, &config), 0);
        assert_eq!(analyze_entropy(&content, &config), EntropyAnalysis::Compress);
    }
}

#[test]
fn evenly_spread_file_has_eight_bits_at_full_ratio() {
    let mut content = Vec::new();
    for _ in 0..40 {
        content.extend(0..=255u8);
    }
    let whole = ArchiveConfig::new(ONE, ENTROPY_THRESHOLD).unwrap();
    assert_eq!(estimate(&content, &whole), EIGHT_BITS);
    assert_eq!(analyze_entropy(&content, &whole), EntropyAnalysis::DontCompress);
    let half = ArchiveConfig::default();
    assert_eq!(estimate(&content, &half), EIGHT_BITS);
}

#[test]
fn two_different_bytes_score_above_zero() {
    let mut sample = vec![0u8; 4_194_304];
    sample.push(1);
    assert_eq!(entropy(&sample), 1);
    let mut sample = vec![7u8; 100];
    sample.push(1);
    assert_eq!(entropy(&sample), 5252);
    assert!(entropy(&[0, 255]) > 0);
    let at_zero = ArchiveConfig::new(ONE, 0).unwrap();
    let mut content = vec![0u8; 4_194_304];
    content.push(1);
    assert_eq!(analyze_entropy(&content, &at_zero), EntropyAnalysis::DontCompress);
    content.pop();
    assert_eq!(analyze_entropy(&content, &at_zero), EntropyAnalysis::Compress);
}
