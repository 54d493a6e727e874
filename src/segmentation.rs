//! Overlapping segmentation of long recordings for monitor mode.
use vstd::prelude::*;

use crate::fingerprint::{hash_of, Fingerprint};

verus! {

/// Segment lengths in milliseconds.
#[derive(Clone, Copy, Debug)]
pub struct SegmentationConfig {
    pub segment_duration_ms: u32,
    pub overlap_duration_ms: u32,
    pub min_segment_duration_ms: u32,
}

impl SegmentationConfig {
    /// Segments advance: the overlap is shorter than a segment.
    pub open spec fn wf(self) -> bool {
        self.overlap_duration_ms < self.segment_duration_ms
    }

    /// The distance from one segment start to the next.
    pub open spec fn step(self) -> int {
        self.segment_duration_ms - self.overlap_duration_ms
    }
}

impl Default for SegmentationConfig {
    fn default() -> (r: SegmentationConfig)
        ensures
            r.segment_duration_ms == 25000,
            r.overlap_duration_ms == 5000,
            r.min_segment_duration_ms == 10000,
    {
        SegmentationConfig {
            segment_duration_ms: 25000,
            overlap_duration_ms: 5000,
            min_segment_duration_ms: 10000,
        }
    }
}

/// One segment of a recording: its place in milliseconds and in samples.
#[derive(Clone, Copy, Debug, PartialEq, Eq, Structural)]
pub struct SegmentSpan {
    pub segment_id: usize,
    pub start_ms: u32,
    pub end_ms: u32,
    pub start_sample: usize,
    pub end_sample: usize,
}

/// A recording longer than one segment is cut into segments.
pub open spec fn segments_needed(duration_ms: int, config: SegmentationConfig) -> bool {
    duration_ms > config.segment_duration_ms
}

pub fn should_segment(duration_ms: u32, config: &SegmentationConfig) -> (r: bool)
    ensures
        r == segments_needed(duration_ms as int, *config),
{
    duration_ms > config.segment_duration_ms
}

/// The `(start, end)` of the segments from `start` on: each runs one
/// segment length (or to the end), the last one is stretched to the end when
/// less than the minimum would remain after it.
pub open spec fn bounds_from(start: int, duration: int, config: SegmentationConfig) -> Seq<(int, int)>
    decreases duration + config.segment_duration_ms - start,
    when config.overlap_duration_ms < config.segment_duration_ms
{
    if start >= duration {
        Seq::empty()
    } else {
        let end = if start + config.segment_duration_ms < duration {
            start + config.segment_duration_ms
        } else {
            duration
        };
        if duration - end < config.min_segment_duration_ms {
            seq![(start, duration)]
        } else {
            seq![(start, end)] + bounds_from(
                start + (config.segment_duration_ms - config.overlap_duration_ms),
                duration,
                config,
            )
        }
    }
}

/// The `(start, end)` of every segment of a recording.
pub open spec fn segment_bounds(duration: int, config: SegmentationConfig) -> Seq<(int, int)> {
    if !segments_needed(duration, config) {
        seq![(0, duration)]
    } else {
        bounds_from(0, duration, config)
    }
}

/// The sample at time `ms`, rounded down and kept within the recording.
pub open spec fn sample_at(ms: int, sample_rate: int, num_samples: int) -> int {
    let s = ms * sample_rate / 1000;
    if s < num_samples {
        s
    } else {
        num_samples
    }
}

/// The segments of a recording of `duration_ms` milliseconds and
/// `num_samples` samples at `sample_rate`.
pub fn segment_spans(
    duration_ms: u32,
    sample_rate: u32,
    num_samples: usize,
    config: &SegmentationConfig,
) -> (r: Vec<SegmentSpan>)
    requires
        config.wf(),
    ensures
        r.len() == segment_bounds(duration_ms as int, *config).len(),
        !segments_needed(duration_ms as int, *config) ==> r@ == seq![
            SegmentSpan {
                segment_id: 0,
                start_ms: 0,
                end_ms: duration_ms,
                start_sample: 0,
                end_sample: num_samples,
            },
        ],
        segments_needed(duration_ms as int, *config) ==> forall|k: int|
            0 <= k < r.len() ==> {
                let b = #[trigger] segment_bounds(duration_ms as int, *config)[k];
                &&& r[k].segment_id == k
                &&& r[k].start_ms == b.0
                &&& r[k].end_ms == b.1
                &&& r[k].start_sample == sample_at(b.0, sample_rate as int, num_samples as int)
                &&& r[k].end_sample == sample_at(b.1, sample_rate as int, num_samples as int)
            },
{
    let ghost all = segment_bounds(duration_ms as int, *config);
    let mut out: Vec<SegmentSpan> = Vec::new();
    if !should_segment(duration_ms, config) {
        out.push(
            SegmentSpan {
                segment_id: 0,
                start_ms: 0,
                end_ms: duration_ms,
                start_sample: 0,
                end_sample: num_samples,
            },
        );
        assert(out@ =~= seq![out[0]]);
        return out;
    }
    let seg = config.segment_duration_ms as u64;
    let step = (config.segment_duration_ms - config.overlap_duration_ms) as u64;
    let min_len = config.min_segment_duration_ms as u64;
    let d = duration_ms as u64;
    let mut start: u64 = 0;
    let mut id: usize = 0;
    while start < d
        invariant
            config.wf(),
            seg == config.segment_duration_ms,
            step == config.step(),
            min_len == config.min_segment_duration_ms,
            d == duration_ms,
            segments_needed(d as int, *config),
            all == bounds_from(0, d as int, *config),
            out.len() == id,
            start <= d + step,
            id * step == start,
            all == out@.map_values(|s: SegmentSpan| (s.start_ms as int, s.end_ms as int)) + bounds_from(
                start as int,
                d as int,
                *config,
            ),
            forall|k: int|
                0 <= k < out.len() ==> #[trigger] out[k].segment_id == k && out[k].start_sample
                    == sample_at(out[k].start_ms as int, sample_rate as int, num_samples as int)
                    && out[k].end_sample == sample_at(
                    out[k].end_ms as int,
                    sample_rate as int,
                    num_samples as int,
                ),
        decreases d + step - start,
    {
        assert(id <= start) by (nonlinear_arith)
            requires
                id * step == start,
                step >= 1,
        ;
        let end = if start + seg < d {
            start + seg
        } else {
            d
        };
        let last = d - end < min_len;
        let actual_end = if last {
            d
        } else {
            end
        };
        let ghost before = out@;
        out.push(span(id, start as u32, actual_end as u32, sample_rate, num_samples));
        assert forall|k: int| 0 <= k < out.len() implies #[trigger] out[k].segment_id == k
            && out[k].start_sample == sample_at(
            out[k].start_ms as int,
            sample_rate as int,
            num_samples as int,
        ) && out[k].end_sample == sample_at(out[k].end_ms as int, sample_rate as int, num_samples as int) by {
            if k < before.len() {
                assert(out[k] == before[k]);
            }
        }
        assert((id + 1) * step == start + step) by (nonlinear_arith)
            requires
                id * step == start,
        ;
        assert(out@.map_values(|s: SegmentSpan| (s.start_ms as int, s.end_ms as int)) =~= before.map_values(
            |s: SegmentSpan| (s.start_ms as int, s.end_ms as int),
        ).push((start as int, actual_end as int)));
        if last {
            assert(bounds_from(start as int, d as int, *config) =~= seq![(start as int, d as int)]);
            assert(all =~= out@.map_values(|s: SegmentSpan| (s.start_ms as int, s.end_ms as int)));
            id += 1;
            proof {
                lemma_spans_exact(all, out@, duration_ms as int, sample_rate as int, num_samples as int);
            }
            return out;
        }
        assert(all =~= out@.map_values(|s: SegmentSpan| (s.start_ms as int, s.end_ms as int))
            + bounds_from(start + step, d as int, *config));
        start = start + step;
        id += 1;
    }
    assert(bounds_from(start as int, d as int, *config) =~= Seq::<(int, int)>::empty());
    assert(all =~= out@.map_values(|s: SegmentSpan| (s.start_ms as int, s.end_ms as int)));
    proof {
        lemma_spans_exact(all, out@, duration_ms as int, sample_rate as int, num_samples as int);
    }
    out
}

proof fn lemma_spans_exact(
    all: Seq<(int, int)>,
    out: Seq<SegmentSpan>,
    duration: int,
    sample_rate: int,
    num_samples: int,
)
    requires
        all == out.map_values(|s: SegmentSpan| (s.start_ms as int, s.end_ms as int)),
        forall|k: int|
            0 <= k < out.len() ==> #[trigger] out[k].segment_id == k && out[k].start_sample
                == sample_at(out[k].start_ms as int, sample_rate, num_samples) && out[k].end_sample
                == sample_at(out[k].end_ms as int, sample_rate, num_samples),
    ensures
        out.len() == all.len(),
        forall|k: int|
            0 <= k < out.len() ==> {
                let b = #[trigger] all[k];
                &&& out[k].segment_id == k
                &&& out[k].start_ms == b.0
                &&& out[k].end_ms == b.1
                &&& out[k].start_sample == sample_at(b.0, sample_rate, num_samples)
                &&& out[k].end_sample == sample_at(b.1, sample_rate, num_samples)
            },
{
    assert forall|k: int| 0 <= k < out.len() implies {
        let b = #[trigger] all[k];
        &&& out[k].segment_id == k
        &&& out[k].start_ms == b.0
        &&& out[k].end_ms == b.1
        &&& out[k].start_sample == sample_at(b.0, sample_rate, num_samples)
        &&& out[k].end_sample == sample_at(b.1, sample_rate, num_samples)
    } by {
        assert(out[k].segment_id == k);
    }
}

/// The span of segment `id` from `start_ms` to `end_ms`.
fn span(id: usize, start_ms: u32, end_ms: u32, sample_rate: u32, num_samples: usize) -> (r: SegmentSpan)
    ensures
        r.segment_id == id,
        r.start_ms == start_ms,
        r.end_ms == end_ms,
        r.start_sample == sample_at(start_ms as int, sample_rate as int, num_samples as int),
        r.end_sample == sample_at(end_ms as int, sample_rate as int, num_samples as int),
{
    SegmentSpan {
        segment_id: id,
        start_ms,
        end_ms,
        start_sample: sample_index(start_ms, sample_rate, num_samples),
        end_sample: sample_index(end_ms, sample_rate, num_samples),
    }
}

fn sample_index(ms: u32, sample_rate: u32, num_samples: usize) -> (r: usize)
    ensures
        r == sample_at(ms as int, sample_rate as int, num_samples as int),
{
    assert(ms as u64 * sample_rate as u64 <= 0xFFFF_FFFF * 0xFFFF_FFFF) by (nonlinear_arith);
    let s: u64 = (ms as u64) * (sample_rate as u64) / 1000;
    if s < num_samples as u64 {
        s as usize
    } else {
        num_samples
    }
}

/// The frame offset of a segment that starts at `start_ms` (8 ms per frame).
pub open spec fn offset_frames_of(start_ms: int) -> int {
    start_ms / 8
}

pub fn offset_frames(start_ms: u32) -> (r: i32)
    ensures
        r == offset_frames_of(start_ms as int),
{
    (start_ms / 8) as i32
}

/// Every time of the fingerprints moved by `offset` frames.
pub fn shift_fingerprints(fingerprints: &Vec<Fingerprint>, offset: i32) -> (r: Vec<Fingerprint>)
    requires
        forall|k: int|
            0 <= k < fingerprints.len() ==> i32::MIN <= #[trigger] fingerprints[k].t1 + offset
                && fingerprints[k].t3 + offset <= i32::MAX && fingerprints[k].t1 <= fingerprints[k].t2
                <= fingerprints[k].t3,
    ensures
        r.len() == fingerprints.len(),
        forall|k: int|
            0 <= k < r.len() ==> {
                let a = #[trigger] fingerprints[k];
                r[k] == Fingerprint {
                    t1: (a.t1 + offset) as i32,
                    t2: (a.t2 + offset) as i32,
                    t3: (a.t3 + offset) as i32,
                    ..a
                }
            },
{
    let mut out: Vec<Fingerprint> = Vec::new();
    let mut i: usize = 0;
    while i < fingerprints.len()
        invariant
            i <= fingerprints.len(),
            out.len() == i,
            forall|k: int|
                0 <= k < fingerprints.len() ==> i32::MIN <= #[trigger] fingerprints[k].t1 + offset
                    && fingerprints[k].t3 + offset <= i32::MAX && fingerprints[k].t1
                    <= fingerprints[k].t2 <= fingerprints[k].t3,
            forall|k: int|
                0 <= k < i ==> {
                    let a = #[trigger] fingerprints[k];
                    out[k] == Fingerprint {
                        t1: (a.t1 + offset) as i32,
                        t2: (a.t2 + offset) as i32,
                        t3: (a.t3 + offset) as i32,
                        ..a
                    }
                },
        decreases fingerprints.len() - i,
    {
        let a = fingerprints[i];
        out.push(Fingerprint { t1: a.t1 + offset, t2: a.t2 + offset, t3: a.t3 + offset, ..a });
        i += 1;
    }
    out
}

/// Shifting every time of a fingerprint by the same amount keeps its hash:
/// the hash reads only time differences.
pub proof fn lemma_shift_keeps_hash(a: Fingerprint, offset: int)
    requires
        a.wf(),
        i32::MIN <= a.t1 + offset,
        a.t3 + offset <= i32::MAX,
    ensures
        (Fingerprint {
            t1: (a.t1 + offset) as i32,
            t2: (a.t2 + offset) as i32,
            t3: (a.t3 + offset) as i32,
            ..a
        }).wf(),
{
    let b = Fingerprint {
        t1: (a.t1 + offset) as i32,
        t2: (a.t2 + offset) as i32,
        t3: (a.t3 + offset) as i32,
        ..a
    };
    assert(b.t2 - b.t1 == a.t2 - a.t1);
    assert(b.t3 - b.t1 == a.t3 - a.t1);
    assert(b.t3 - b.t2 == a.t3 - a.t2);
    assert(hash_of(b.points().0, b.points().1, b.points().2) == hash_of(
        a.points().0,
        a.points().1,
        a.points().2,
    ));
}

/// A recording no longer than one segment is one segment, from the start
/// to the end, at frame offset zero: monitor mode sees it as a whole (and
/// `segment_spans` hands it every sample).
pub proof fn lemma_short_recording_whole(duration_ms: int, config: SegmentationConfig)
    requires
        0 <= duration_ms <= config.segment_duration_ms,
    ensures
        !segments_needed(duration_ms, config),
        segment_bounds(duration_ms, config) == seq![(0int, duration_ms)],
        offset_frames_of(0) == 0,
{
}

} // verus!
