use panako::matching::QueryResult;
use panako::merger::{filter_for_output, merge_overlapping_detections};
use panako::segmentation::{
    offset_frames, segment_spans, shift_fingerprints, should_segment, SegmentationConfig,
};
use panako::eventpoint::EventPoint;
use panako::fingerprint::Fingerprint;

#[test]
fn test_no_segmentation_for_short_audio() {
    let samples = 16000 * 20; // 20 seconds
    let config = SegmentationConfig::default();
    assert!(!should_segment(20000, &config));

    let segments = segment_spans(20000, 16000, samples, &config);
    assert_eq!(segments.len(), 1);
    assert_eq!(segments[0].segment_id, 0);
}

#[test]
fn test_segmentation_for_long_audio() {
    let samples = 16000 * 60; // 60 seconds
    let config = SegmentationConfig::default();
    assert!(should_segment(60000, &config));

    let segments = segment_spans(60000, 16000, samples, &config);

    // 60s with 25s segments and 20s step = 3 segments
    // Seg 0: 0-25, Seg 1: 20-45, Seg 2: 40-60
    assert_eq!(segments.len(), 3);

    // Check overlap
    assert!(((segments[0].end_ms as f64 - segments[1].start_ms as f64) / 1000.0 - 5.0).abs() < 0.1);
}

#[test]
fn sixty_seconds_make_three_segments() {
    let spans = segment_spans(60000, 16000, 960000, &SegmentationConfig::default());
    let bounds: Vec<(u32, u32)> = spans.iter().map(|s| (s.start_ms, s.end_ms)).collect();
    assert_eq!(bounds, vec![(0, 25000), (20000, 45000), (40000, 60000)]);
    assert_eq!(spans[1].start_sample, 320000);
    assert_eq!(spans[1].end_sample, 720000);
    assert_eq!(spans[2].end_sample, 960000);
    assert_eq!(offset_frames(spans[1].start_ms), 2500);
}

#[test]
fn short_tail_is_folded_into_the_last_segment() {
    // 50 s: 0-25, then 20-45 would leave 5 s < 10 s, so it runs to 50
    let spans = segment_spans(50000, 1000, 50000, &SegmentationConfig::default());
    let bounds: Vec<(u32, u32)> = spans.iter().map(|s| (s.start_ms, s.end_ms)).collect();
    assert_eq!(bounds, vec![(0, 25000), (20000, 50000)]);
}

#[test]
fn short_recording_is_one_whole_segment() {
    let spans = segment_spans(25000, 16000, 400000, &SegmentationConfig::default());
    assert_eq!(spans.len(), 1);
    assert_eq!((spans[0].start_ms, spans[0].end_ms), (0, 25000));
    assert_eq!((spans[0].start_sample, spans[0].end_sample), (0, 400000));
    assert_eq!(offset_frames(0), 0);
}

#[test]
fn sample_ends_are_clamped_to_the_recording() {
    let spans = segment_spans(60000, 16000, 900000, &SegmentationConfig::default());
    assert_eq!(spans[2].end_sample, 900000);
}

#[test]
fn shifting_moves_times_and_keeps_hashes() {
    let fp = Fingerprint::new(
        &EventPoint::new(0, 100, 1),
        &EventPoint::new(10, 120, 2),
        &EventPoint::new(20, 110, 3),
    );
    let shifted = shift_fingerprints(&vec![fp], 2500);
    assert_eq!((shifted[0].t1, shifted[0].t2, shifted[0].t3), (2500, 2510, 2520));
    assert_eq!(shifted[0].hash, fp.hash);
    let again = Fingerprint::new(
        &EventPoint::new(2500, 100, 1),
        &EventPoint::new(2510, 120, 2),
        &EventPoint::new(2520, 110, 3),
    );
    assert_eq!(again, shifted[0]);
}

fn detection(id: Option<&str>, start_ms: i64, score: i32, duration_ms: Option<u32>) -> QueryResult {
    let mut r = QueryResult::empty("long.ts".to_string(), start_ms, start_ms + 5000);
    r.ref_identifier = id.map(|s| s.to_string());
    r.score = score;
    r.ref_duration_ms = duration_ms;
    r.absolute_start_ms = duration_ms.map(|_| start_ms);
    r.ref_start_ms = 0;
    r.ref_stop_ms = 30000;
    r
}

#[test]
fn overlapping_segments_deduplicate_to_one_detection() {
    // the same 30 s reference seen from segment 0 and segment 1
    let merged = merge_overlapping_detections(vec![
        detection(Some("ad"), 22000, 40, Some(30000)),
        detection(Some("ad"), 22008, 55, Some(30000)),
    ]);
    assert_eq!(merged.len(), 1);
    assert_eq!(merged[0].score, 55);
    assert_eq!(merged[0].absolute_start_ms, Some(22008));
}

#[test]
fn merger_keeps_distinct_occurrences_and_sorts() {
    let merged = merge_overlapping_detections(vec![
        detection(Some("ad"), 50000, 10, Some(30000)),
        detection(Some("jingle"), 1000, 20, Some(3000)),
        detection(Some("ad"), 0, 30, Some(30000)),
        detection(None, 500, 99, None),
        detection(Some("jingle"), 1500, 20, Some(3000)),
    ]);
    let got: Vec<(Option<String>, i64, i32)> =
        merged.iter().map(|r| (r.ref_identifier.clone(), r.absolute_start_ms.unwrap(), r.score)).collect();
    assert_eq!(
        got,
        vec![
            (Some("ad".to_string()), 0, 30),
            (Some("jingle".to_string()), 1000, 20),
            (Some("ad".to_string()), 50000, 10),
        ]
    );
}

#[test]
fn merger_falls_back_to_query_start_and_reference_span() {
    // no duration: the threshold is a third of the 30 s reference span
    let merged = merge_overlapping_detections(vec![
        detection(Some("x"), 0, 5, None),
        detection(Some("x"), 9000, 6, None),
        detection(Some("x"), 10000, 7, None),
    ]);
    let got: Vec<(i64, i32)> = merged.iter().map(|r| (r.query_start_ms, r.score)).collect();
    assert_eq!(got, vec![(9000, 6), (10000, 7)]);
}

#[test]
fn merger_of_nothing_is_nothing() {
    assert!(merge_overlapping_detections(vec![]).is_empty());
}

#[test]
fn output_drops_short_and_unnamed_detections_and_sorts_by_query_start() {
    let mut short = detection(Some("a"), 100, 9, None);
    short.query_stop_ms = 1999 + 100;
    let mut long_late = detection(Some("b"), 9000, 5, None);
    long_late.query_stop_ms = 12000;
    let mut exact = detection(Some("c"), 300, 7, None);
    exact.query_stop_ms = 2300;
    let unnamed = detection(None, 0, 50, None);
    let out = filter_for_output(vec![short, long_late, unnamed, exact]);
    let got: Vec<(Option<String>, i64)> = out.iter().map(|r| (r.ref_identifier.clone(), r.query_start_ms)).collect();
    assert_eq!(got, vec![(Some("c".to_string()), 300), (Some("b".to_string()), 9000)]);
}

#[test]
fn unsegmented_recording_hands_over_every_sample() {
    let spans = segment_spans(1000, 16000, 16001, &SegmentationConfig::default());
    assert_eq!(spans.len(), 1);
    assert_eq!((spans[0].start_sample, spans[0].end_sample), (0, 16001));
}

#[test]
fn merger_keeps_the_earliest_of_equal_scores() {
    let merged = merge_overlapping_detections(vec![
        detection(Some("ad"), 1000, 40, Some(30000)),
        detection(Some("ad"), 0, 40, Some(30000)),
    ]);
    assert_eq!(merged.len(), 1);
    assert_eq!(merged[0].absolute_start_ms, Some(0));
}

#[test]
fn report_is_named_after_its_first_detection() {
    let reported = vec![detection(Some("a"), 0, 9, None)];
    assert_eq!(panako::merger::report_path(&reported, "other".to_string()), "long.ts");
    assert_eq!(panako::merger::report_path(&vec![], "fallback".to_string()), "fallback");
}
