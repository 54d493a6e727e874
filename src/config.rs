//! The numeric parameters that govern every stage.
use vstd::prelude::*;

verus! {

/// Why a configuration was refused.
#[derive(Clone, Copy, Debug, PartialEq, Eq, Structural)]
pub enum ConfigError {
    ZeroSampleRate,
    FrequencyRangeEmpty,
    ZeroBandsPerOctave,
}

/// Algorithm parameters. Frequencies are in hertz, factors in thousandths
/// and durations in milliseconds.
#[derive(Clone, Copy, Debug)]
pub struct PanakoConfig {
    pub sample_rate: u32,
    pub audio_block_size: usize,
    pub audio_block_overlap: usize,
    pub min_freq: u32,
    pub max_freq: u32,
    pub bands_per_octave: u32,
    pub ref_freq: u32,
    pub time_resolution: usize,
    pub freq_max_filter_size: usize,
    pub time_max_filter_size: usize,
    pub fp_min_freq_dist: i16,
    pub fp_max_freq_dist: i16,
    pub fp_min_time_dist: i32,
    pub fp_max_time_dist: i32,
    pub query_range: i32,
    pub min_hits_unfiltered: usize,
    pub min_hits_filtered: usize,
    pub min_time_factor_permille: u32,
    pub max_time_factor_permille: u32,
    pub min_freq_factor_permille: u32,
    pub max_freq_factor_permille: u32,
    pub min_sec_with_match_permille: u32,
    pub min_match_duration_ms: u32,
}

impl PanakoConfig {
    /// The configuration accepted by `validate`.
    pub open spec fn valid(&self) -> bool {
        &&& self.sample_rate > 0
        &&& self.min_freq < self.max_freq
        &&& self.bands_per_octave > 0
    }

    /// Refuses a zero sample rate, an empty frequency range and zero bands per
    /// octave, in that order.
    pub fn validate(&self) -> (r: Result<(), ConfigError>)
        ensures
            r is Ok <==> self.valid(),
            self.sample_rate == 0 ==> r == Err::<(), ConfigError>(ConfigError::ZeroSampleRate),
            self.sample_rate > 0 && self.min_freq >= self.max_freq ==> r == Err::<(), ConfigError>(
                ConfigError::FrequencyRangeEmpty,
            ),
            self.sample_rate > 0 && self.min_freq < self.max_freq && self.bands_per_octave == 0
                ==> r == Err::<(), ConfigError>(ConfigError::ZeroBandsPerOctave),
    {
        if self.sample_rate == 0 {
            Err(ConfigError::ZeroSampleRate)
        } else if self.min_freq >= self.max_freq {
            Err(ConfigError::FrequencyRangeEmpty)
        } else if self.bands_per_octave == 0 {
            Err(ConfigError::ZeroBandsPerOctave)
        } else {
            Ok(())
        }
    }
}

impl Default for PanakoConfig {
    fn default() -> (r: PanakoConfig)
        ensures
            r.sample_rate == 16000,
            r.audio_block_size == 8192,
            r.time_resolution == 128,
            r.min_freq == 110,
            r.max_freq == 7040,
            r.bands_per_octave == 85,
            r.freq_max_filter_size == 103,
            r.time_max_filter_size == 25,
            r.fp_min_freq_dist == 1,
            r.fp_max_freq_dist == 128,
            r.fp_min_time_dist == 2,
            r.fp_max_time_dist == 33,
            r.query_range == 2,
            r.min_hits_filtered == 5,
            r.min_match_duration_ms == 2000,
            r.valid(),
    {
        PanakoConfig {
            sample_rate: 16000,
            audio_block_size: 8192,
            audio_block_overlap: 0,
            min_freq: 110,
            max_freq: 7040,
            bands_per_octave: 85,
            ref_freq: 440,
            time_resolution: 128,
            freq_max_filter_size: 103,
            time_max_filter_size: 25,
            fp_min_freq_dist: 1,
            fp_max_freq_dist: 128,
            fp_min_time_dist: 2,
            fp_max_time_dist: 33,
            query_range: 2,
            min_hits_unfiltered: 10,
            min_hits_filtered: 5,
            min_time_factor_permille: 800,
            max_time_factor_permille: 1200,
            min_freq_factor_permille: 800,
            max_freq_factor_permille: 1200,
            min_sec_with_match_permille: 200,
            min_match_duration_ms: 2000,
        }
    }
}

} // verus!
