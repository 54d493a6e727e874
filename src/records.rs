//! Stored record types: reference metadata, segments and summaries.
use vstd::prelude::*;

verus! {

/// Metadata of a fingerprinted recording.
#[derive(Clone, Debug)]
pub struct FpJsonMetadata {
    pub original_path: String,
    pub filename: String,
    pub algorithm: String,
    pub sample_rate: u32,
    pub duration_ms: u32,
    pub channels: u16,
    pub created_at: String,
}

/// A stored segment of a recording.
#[derive(Clone, Copy, Debug, PartialEq, Eq, Structural)]
pub struct Segment {
    pub id: i32,
    pub metadata_id: i32,
    pub segment_index: i32,
    pub start_ms: i32,
    pub end_ms: i32,
}

/// Metadata of a recording about to be stored.
#[derive(Clone, Debug)]
pub struct NewFingerprintMetadata {
    pub original_path: String,
    pub filename: String,
    pub sample_rate: i32,
    pub duration_ms: i32,
    pub channels: i16,
}

/// Segmentation settings of a recording about to be stored.
#[derive(Clone, Copy, Debug, PartialEq, Eq, Structural)]
pub struct NewSegmentationConfig {
    pub metadata_id: i32,
    pub enabled: bool,
    pub segment_duration_ms: Option<i32>,
    pub overlap_ms: Option<i32>,
}

/// A segment about to be stored.
#[derive(Clone, Copy, Debug, PartialEq, Eq, Structural)]
pub struct NewSegment {
    pub metadata_id: i32,
    pub segment_index: i32,
    pub start_ms: i32,
    pub end_ms: i32,
}

/// Filters for looking up stored fingerprints.
#[derive(Clone, Copy, Debug, Default, PartialEq, Eq, Structural)]
pub struct FingerprintQuery {
    pub metadata_id: Option<i32>,
    pub segment_id: Option<i32>,
    pub hash: Option<i64>,
    pub limit: Option<i64>,
}

/// Totals of one stored recording.
#[derive(Clone, Debug)]
pub struct FingerprintSummary {
    pub metadata_id: i32,
    pub filename: String,
    pub duration_ms: i32,
    pub total_segments: i64,
    pub total_fingerprints: i64,
}

} // verus!
