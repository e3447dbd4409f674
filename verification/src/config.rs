//! The two settings of the archiver, in fixed point with sixteen
//! fractional bits.

use crate::fixed::ONE;
use vstd::prelude::*;

verus! {

/// The part of a file that is sampled unless another is given: one half.
pub const ENTROPY_SAMPLING: u32 = 0x8000;

/// The entropy above which a file is stored raw unless another is given:
/// six and a half bits per byte.
pub const ENTROPY_THRESHOLD: i64 = 0x6_8000;

/// Why a configuration was refused.
#[derive(Debug, Clone, Copy, PartialEq, Eq)]
pub enum ConfigError {
    /// The sampling ratio is zero: no byte would be sampled.
    SamplingRatioZero,
    /// The sampling ratio is above one.
    SamplingRatioAboveOne,
}

/// The settings of one run: which part of a file is sampled, and above
/// which entropy a file is stored raw.
#[derive(Debug, Clone, Copy, PartialEq, Eq)]
pub struct ArchiveConfig {
    sampling_ratio: u32,
    entropy_threshold: i64,
}

/// A configuration, as a mathematical value.
pub struct ConfigView {
    /// The part of a file's leading bytes that is sampled, times `ONE`.
    pub sampling_ratio: nat,
    /// The entropy in bits per byte, times `ONE`, above which a file is
    /// stored raw.
    pub entropy_threshold: int,
}

impl ConfigView {
    /// The ratio lies in `(0, ONE]`, as that of every configuration does.
    pub open spec fn valid(self) -> bool {
        0 < self.sampling_ratio <= ONE
    }
}

impl View for ArchiveConfig {
    type V = ConfigView;

    closed spec fn view(&self) -> ConfigView {
        ConfigView {
            sampling_ratio: self.sampling_ratio as nat,
            entropy_threshold: self.entropy_threshold as int,
        }
    }
}

impl ArchiveConfig {
    #[verifier::type_invariant]
    spec fn valid(self) -> bool {
        0 < self.sampling_ratio <= ONE
    }

    /// A configuration with the given settings. The ratio must lie in
    /// `(0, ONE]`; any threshold is taken, one below zero or above eight
    /// bits meaning that nothing, or everything, is compressed.
    pub fn new(sampling_ratio: u32, entropy_threshold: i64) -> (r: Result<Self, ConfigError>)
        ensures
            sampling_ratio == 0 ==> r == Err::<Self, ConfigError>(ConfigError::SamplingRatioZero),
            sampling_ratio > ONE ==> r == Err::<Self, ConfigError>(
                ConfigError::SamplingRatioAboveOne,
            ),
            0 < sampling_ratio <= ONE ==> (r matches Ok(config) && config@ == (ConfigView {
                sampling_ratio: sampling_ratio as nat,
                entropy_threshold: entropy_threshold as int,
            })),
    {
        if sampling_ratio == 0 {
            Err(ConfigError::SamplingRatioZero)
        } else if sampling_ratio > ONE {
            Err(ConfigError::SamplingRatioAboveOne)
        } else {
            Ok(ArchiveConfig { sampling_ratio, entropy_threshold })
        }
    }

    /// The sampling ratio, times `ONE`.
    pub fn sampling_ratio(&self) -> (r: u32)
        ensures
            r == self@.sampling_ratio,
            self@.valid(),
    {
        proof {
            use_type_invariant(self);
        }
        self.sampling_ratio
    }

    /// The entropy threshold in bits per byte, times `ONE`.
    pub fn entropy_threshold(&self) -> (r: i64)
        ensures
            r == self@.entropy_threshold,
    {
        self.entropy_threshold
    }
}

impl Default for ArchiveConfig {
    /// Half of each file is sampled, and a file above six and a half bits
    /// per byte is stored raw.
    fn default() -> (config: Self)
        ensures
            config@ == (ConfigView {
                sampling_ratio: ENTROPY_SAMPLING as nat,
                entropy_threshold: ENTROPY_THRESHOLD as int,
            }),
    {
        ArchiveConfig {
            sampling_ratio: ENTROPY_SAMPLING,
            entropy_threshold: ENTROPY_THRESHOLD,
        }
    }
}

} // verus!
