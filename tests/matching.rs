use panako::config::PanakoConfig;
use panako::eventpoint::EventPoint;
use panako::fingerprint::FingerprintGenerator;
use panako::matching::{
    coverage, frequency_factor, time_factor, FingerprintTuple, Match, Matcher,
    QueryResult,
};

fn m(query_time: i32, match_time: i32, query_f1: i16, match_f1: i16) -> Match {
    Match { ref_index: 0, query_time, match_time, query_f1, match_f1 }
}

#[test]
fn test_matcher_basic() {
    let mut matcher = Matcher::new();

    // Create reference fingerprints in tuple format: (hash, t1, f1, m1)
    let ref_fps: Vec<FingerprintTuple> = vec![
        (12345, 100, 50, 1.0f32.to_bits()),
        (67890, 200, 60, 1.0f32.to_bits()),
        (11111, 300, 70, 1.0f32.to_bits()),
        (22222, 400, 80, 1.0f32.to_bits()),
        (33333, 500, 90, 1.0f32.to_bits()),
        (44444, 600, 100, 1.0f32.to_bits()),
    ];

    matcher.add_fingerprints("test_ref".to_string(), &ref_fps);
    matcher.add_duration("test_ref".to_string(), 5000);

    // Create query fingerprints (same as reference)
    let query_fps = ref_fps.clone();

    let results = matcher.query("test_query", &query_fps);

    // Should find a match (we have 6 aligned matches)
    assert!(!results.is_empty());
    assert_eq!(results[0].ref_identifier, Some("test_ref".to_string()));
}

#[test]
fn test_time_factor_calculation() {
    // Create matches with normal speed (1:1 ratio)
    let matches = vec![m(100, 100, 50, 50), m(200, 200, 50, 50), m(300, 300, 50, 50)];
    let (num, den) = time_factor(&matches);
    let factor = num as f64 / den as f64;

    // Should be close to 1.0 (normal speed)
    assert!((factor - 1.0).abs() < 0.01);
}

#[test]
fn test_frequency_factor_calculation() {
    // Create matches with same frequency
    let matches = vec![m(100, 100, 50, 50), m(200, 200, 60, 60)];
    let (num, den) = frequency_factor(&matches);
    let factor = num as f64 / den as f64;

    // Should be close to 1.0 (no pitch change)
    assert!((factor - 1.0).abs() < 0.01);
}

#[test]
fn test_coverage_calculation() {
    // Create matches spanning 3 seconds
    let matches = vec![m(0, 0, 50, 50), m(125, 125, 50, 50), m(250, 250, 50, 50)];
    let (covered, total) = coverage(&matches, 0, 375); // 0-3 seconds
    let coverage = covered as f64 / total as f64;

    // Should cover all 3 seconds
    assert!(coverage > 0.9); // Allow some rounding
}

#[test]
fn time_factor_exact_values() {
    // slope exactly 2 is kept as the regression fraction
    let doubled = vec![m(0, 0, 1, 1), m(10, 20, 1, 1), m(20, 40, 1, 1)];
    assert_eq!(time_factor(&doubled), (1200, 600));
    // slope 1.1 = (n*Sxy - Sx*Sy) / (n*Sxx - Sx^2)
    let stretched = vec![m(0, 0, 1, 1), m(10, 11, 1, 1), m(20, 22, 1, 1)];
    let (num, den) = time_factor(&stretched);
    assert_eq!(num * 10, den * 11);
    // slope 4 is clamped to 2, slope 1/4 to 1/2
    let steep = vec![m(0, 0, 1, 1), m(10, 40, 1, 1)];
    assert_eq!(time_factor(&steep), (2, 1));
    let flat = vec![m(0, 0, 1, 1), m(40, 10, 1, 1)];
    assert_eq!(time_factor(&flat), (1, 2));
    // all query times equal: the regression is undefined
    let singular = vec![m(7, 1, 1, 1), m(7, 9, 1, 1), m(7, 30, 1, 1)];
    assert_eq!(time_factor(&singular), (1, 1));
    assert_eq!(time_factor(&vec![m(3, 4, 1, 1)]), (1, 1));
    assert_eq!(time_factor(&vec![]), (1, 1));
}

#[test]
fn frequency_factor_is_the_median_ratio() {
    // ratios 1/1, 6/5, 3/2 -> median 6/5
    let odd = vec![m(0, 0, 10, 15), m(0, 0, 10, 10), m(0, 0, 50, 60)];
    let (num, den) = frequency_factor(&odd);
    assert_eq!(num * 5, den * 6);
    // ratios 1, 2 -> mean of the middle two = 3/2
    let even = vec![m(0, 0, 10, 10), m(0, 0, 10, 20)];
    let (num, den) = frequency_factor(&even);
    assert_eq!(num * 2, den * 3);
    // ratio 5 is out of range, zero bins are skipped: nothing kept
    let none = vec![m(0, 0, 10, 50), m(0, 0, 0, 10), m(0, 0, 10, 0)];
    assert_eq!(frequency_factor(&none), (1, 1));
}

#[test]
fn coverage_counts_distinct_seconds_and_caps_at_one() {
    // seconds 0, 0, 1 over a window of 2 s
    let ms = vec![m(0, 0, 1, 1), m(100, 0, 1, 1), m(130, 0, 1, 1)];
    assert_eq!(coverage(&ms, 0, 250), (2, 2));
    // frames 124 and 126 fall in seconds 0 and 1, but the window rounds up to 1 s
    let ms = vec![m(124, 0, 1, 1), m(126, 0, 1, 1)];
    assert_eq!(coverage(&ms, 124, 126), (1, 1));
    // no window
    assert_eq!(coverage(&ms, 126, 126), (0, 1));
    assert_eq!(coverage(&vec![], 0, 100), (0, 1));
    // negative frames round down
    let ms = vec![m(-1, 0, 1, 1), m(0, 0, 1, 1)];
    assert_eq!(coverage(&ms, -1, 200), (2, 2));
}

fn fps(hashes: &[u64], t0: i32, step: i32) -> Vec<FingerprintTuple> {
    hashes.iter().enumerate().map(|(i, h)| (*h, t0 + step * i as i32, 40 + i as i16, 0)).collect()
}

#[test]
fn self_match_reports_exact_fields() {
    let reference = fps(&[1, 2, 3, 4, 5, 6, 7], 1000, 125);
    let mut matcher = Matcher::new();
    matcher.add_fingerprints("song".to_string(), &reference);
    matcher.add_duration("song".to_string(), 60000);
    let results = matcher.query("clip.wav", &reference);
    assert_eq!(results.len(), 1);
    let r: &QueryResult = &results[0];
    assert_eq!(r.query_path, "clip.wav");
    assert_eq!(r.score, 7);
    assert_eq!(r.query_start_ms, 8000);
    assert_eq!(r.query_stop_ms, 8 * (1000 + 6 * 125));
    assert_eq!(r.ref_start_ms, 8000);
    assert_eq!(r.ref_stop_ms, 14000);
    assert_eq!(r.time_factor.0, r.time_factor.1);
    assert_eq!(r.frequency_factor.0, r.frequency_factor.1);
    assert_eq!(r.seconds_with_match, (6, 6));
    assert_eq!(r.ref_duration_ms, Some(60000));
    assert_eq!(r.absolute_start_ms, Some(0));
    assert_eq!(r.absolute_end_ms, Some(60000));
    assert_eq!(r.segment_index, None);
}

#[test]
fn shifted_reference_still_matches_at_the_shift() {
    let reference = fps(&[1, 2, 3, 4, 5, 6], 500, 40);
    let query = fps(&[1, 2, 3, 4, 5, 6], 0, 40);
    let mut matcher = Matcher::new();
    matcher.add_fingerprints("r".to_string(), &reference);
    let results = matcher.query("q", &query);
    assert_eq!(results.len(), 1);
    assert_eq!(results[0].ref_start_ms - results[0].query_start_ms, 8 * 500);
    assert_eq!(results[0].time_factor.0, results[0].time_factor.1);
    assert_eq!(results[0].absolute_start_ms, None);
}

#[test]
fn too_few_matches_give_no_detection() {
    let reference = fps(&[1, 2, 3, 4], 0, 10);
    let mut matcher = Matcher::new();
    matcher.add_fingerprints("r".to_string(), &reference);
    assert!(matcher.query("q", &reference).is_empty());
    assert!(Matcher::new().query("q", &reference).is_empty());
}

#[test]
fn scattered_offsets_give_no_detection() {
    // five matches, each at a different offset: no offset has five votes
    let reference = fps(&[1, 2, 3, 4, 5], 0, 10);
    let query: Vec<FingerprintTuple> =
        reference.iter().enumerate().map(|(i, f)| (f.0, f.1 + 7 * i as i32, f.2, 0)).collect();
    let mut matcher = Matcher::new();
    matcher.add_fingerprints("r".to_string(), &reference);
    assert!(matcher.query("q", &query).is_empty());
}

#[test]
fn results_come_by_descending_score() {
    let mut matcher = Matcher::new();
    matcher.add_fingerprints("small".to_string(), &fps(&[1, 2, 3, 4, 5], 0, 10));
    matcher.add_fingerprints("large".to_string(), &fps(&[1, 2, 3, 4, 5, 6, 7, 8], 0, 10));
    let query = fps(&[1, 2, 3, 4, 5, 6, 7, 8], 0, 10);
    let results = matcher.query("q", &query);
    assert_eq!(results.len(), 2);
    assert_eq!(results[0].ref_identifier, Some("large".to_string()));
    assert_eq!(results[0].score, 8);
    assert_eq!(results[1].ref_identifier, Some("small".to_string()));
    assert_eq!(results[1].score, 5);
}

#[test]
fn postings_of_one_reference_accumulate() {
    let mut matcher = Matcher::new();
    matcher.add_fingerprints("r".to_string(), &fps(&[1, 2, 3], 0, 10));
    matcher.add_fingerprints("r".to_string(), &fps(&[4, 5, 6], 30, 10));
    let results = matcher.query("q", &fps(&[1, 2, 3, 4, 5, 6], 0, 10));
    assert_eq!(results.len(), 1);
    assert_eq!(results[0].score, 6);
}

#[test]
fn empty_result_names_no_reference() {
    let r = QueryResult::empty("q".to_string(), 0, 1000);
    assert_eq!(r.score, -1);
    assert_eq!(r.ref_identifier, None);
    assert_eq!(r.query_stop_ms, 1000);
}

#[test]
fn end_to_end_self_match_on_synthetic_points() {
    // a pseudo-random field of event points standing in for white noise
    let mut seed: u64 = 12345;
    let mut eps = Vec::new();
    for t in 0..3750 {
        if t % 12 == 0 {
            seed = seed.wrapping_mul(6364136223846793005).wrapping_add(1442695040888963407);
            let f = ((seed >> 33) % 500) as i16;
            let mag = ((seed >> 13) % 1000) as u32 + 1;
            eps.push(EventPoint::new(t, f, mag));
        }
    }
    let generated = FingerprintGenerator::new(&PanakoConfig::default()).generate(&eps);
    assert!(!generated.is_empty());
    let tuples: Vec<FingerprintTuple> = generated.iter().map(|f| (f.hash, f.t1, f.f1, f.m1)).collect();
    let mut matcher = Matcher::new();
    matcher.add_fingerprints("noise".to_string(), &tuples);
    let results = matcher.query("noise", &tuples);
    assert_eq!(results.len(), 1);
    let r = &results[0];
    assert!(r.score as usize >= tuples.len() * 95 / 100);
    let tf = r.time_factor.0 as f64 / r.time_factor.1 as f64;
    assert!((0.98..=1.02).contains(&tf));
    let cov = r.seconds_with_match.0 as f64 / r.seconds_with_match.1 as f64;
    assert!(cov >= 0.9);
}

#[test]
fn tempo_change_is_estimated_from_the_aligned_matches() {
    // reference at 4-frame spacing, query played 5% faster
    let alpha = 1.05f64;
    let hashes: Vec<u64> = (1..=40).collect();
    let reference = fps(&hashes, 0, 4);
    let query: Vec<FingerprintTuple> = reference
        .iter()
        .map(|f| (f.0, (f.1 as f64 / alpha).round() as i32, f.2, 0))
        .collect();
    let mut matcher = Matcher::new();
    matcher.add_fingerprints("r".to_string(), &reference);
    let results = matcher.query("q", &query);
    assert_eq!(results.len(), 1);
    // offsets 2 and 6 have six votes each; the smaller wins and 24 lie within two frames
    assert_eq!(results[0].score, 24);
    let tf = results[0].time_factor.0 as f64 / results[0].time_factor.1 as f64;
    assert!((tf - alpha).abs() <= 0.05);
}
