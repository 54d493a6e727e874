//! Acoustic fingerprinting: spectral event points, triplet hashes,
//! an inverted index with histogram alignment, and the segmentation and
//! merging used to monitor long recordings.
use vstd::prelude::*;

pub mod audio;
pub mod config;
pub mod order;
pub mod records;
pub mod segmentation;
pub mod storage;
pub mod eventpoint;
pub mod fingerprint;
pub mod format;
pub mod matching;
pub mod merger;

verus! {

} // verus!
