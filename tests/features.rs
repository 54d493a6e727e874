use panako::config::{ConfigError, PanakoConfig};
use panako::eventpoint::{EventPoint, EventPointExtractor, Spectrogram};
use panako::fingerprint::{compute_hash, Fingerprint, FingerprintGenerator};

fn key(m: f32) -> u32 {
    m.to_bits()
}

fn zeros(frames: usize, bins: usize) -> Vec<Vec<u32>> {
    vec![vec![0u32; bins]; frames]
}

#[test]
fn test_event_point_creation() {
    let ep = EventPoint::new(100, 50, key(0.8));
    assert_eq!(ep.t, 100);
    assert_eq!(ep.f, 50);
    assert!((f32::from_bits(ep.m) - 0.8).abs() < 1e-6);
}

#[test]
fn test_fingerprint_hash() {
    let e1 = EventPoint::new(0, 100, key(0.5));
    let e2 = EventPoint::new(10, 120, key(0.7));
    let e3 = EventPoint::new(20, 110, key(0.6));

    let fp = Fingerprint::new(&e1, &e2, &e3);

    // Hash should be non-zero
    assert_ne!(fp.hash, 0);

    // Same event points should produce same hash
    let fp2 = Fingerprint::new(&e1, &e2, &e3);
    assert_eq!(fp.hash, fp2.hash);
}

#[test]
fn hash_vector_matches_field_table() {
    let e1 = EventPoint::new(0, 100, key(0.5));
    let e2 = EventPoint::new(10, 120, key(0.7));
    let e3 = EventPoint::new(20, 110, key(0.6));
    let h = compute_hash(&e1, &e2, &e3);
    assert_eq!(h, 557903264);
    assert_eq!(h >> 34, 0);
    assert_eq!(Fingerprint::new(&e1, &e2, &e3).hash, h);
}

#[test]
fn hash_reads_negative_bins_arithmetically() {
    let e1 = EventPoint::new(5, -40, key(1.0));
    let e2 = EventPoint::new(8, -10, key(0.5));
    let e3 = EventPoint::new(40, -20, key(2.0));
    let h = compute_hash(&e1, &e2, &e3);
    // ratio 3*64/35 = 5, f3 > f1, m1 > m2, m3 > m1, |f2-f1| = 30 > 10,
    // (-40 >> 5) & 0xFF = 254, 30 >> 2 = 7, 10 >> 2 = 2
    let expected: u64 = 5 | (1 << 7) | (1 << 8) | (1 << 9) | (1 << 11) | (1 << 13) | (254 << 14) | (7 << 22) | (2 << 28);
    assert_eq!(h, expected);
}

#[test]
fn hash_ignores_a_common_time_shift() {
    let a = [EventPoint::new(0, 100, key(0.5)), EventPoint::new(10, 120, key(0.7)), EventPoint::new(20, 110, key(0.6))];
    let b = [EventPoint::new(500, 100, key(0.5)), EventPoint::new(510, 120, key(0.7)), EventPoint::new(520, 110, key(0.6))];
    assert_eq!(compute_hash(&a[0], &a[1], &a[2]), compute_hash(&b[0], &b[1], &b[2]));
}

fn extractor() -> EventPointExtractor {
    EventPointExtractor::new(&PanakoConfig::default())
}

#[test]
fn single_local_max_is_the_only_event_point() {
    let mut m = zeros(100, 100);
    m[50][40] = key(1.0);
    let s = Spectrogram { num_frames: 100, num_bins: 100, magnitudes: m };
    let eps = extractor().extract(&s);
    assert_eq!(eps, vec![EventPoint::new(50, 40, key(1.0))]);
}

#[test]
fn plateau_emits_every_tied_cell() {
    let mut m = zeros(100, 100);
    for t in 49..=51 {
        for f in 39..=41 {
            m[t][f] = key(1.0);
        }
    }
    let s = Spectrogram { num_frames: 100, num_bins: 100, magnitudes: m };
    let eps = extractor().extract(&s);
    assert_eq!(eps.len(), 9);
    let mut k = 0;
    for t in 49..=51 {
        for f in 39..=41 {
            assert_eq!(eps[k], EventPoint::new(t, f, key(1.0)));
            k += 1;
        }
    }
}

#[test]
fn a_larger_neighbour_suppresses_a_peak() {
    let mut m = zeros(60, 300);
    m[20][100] = key(1.0);
    m[30][140] = key(2.0); // within 12 frames and 51 bins
    m[20][200] = key(0.5); // 100 bins away from the larger one
    let s = Spectrogram { num_frames: 60, num_bins: 300, magnitudes: m };
    let eps = extractor().extract(&s);
    assert_eq!(eps, vec![EventPoint::new(20, 200, key(0.5)), EventPoint::new(30, 140, key(2.0))]);
}

#[test]
fn empty_spectrogram_has_no_event_points() {
    let s = Spectrogram { num_frames: 0, num_bins: 0, magnitudes: vec![] };
    assert!(extractor().extract(&s).is_empty());
    let s = Spectrogram { num_frames: 5, num_bins: 5, magnitudes: zeros(5, 5) };
    assert!(extractor().extract(&s).is_empty());
}

fn generator() -> FingerprintGenerator {
    FingerprintGenerator::new(&PanakoConfig::default())
}

#[test]
fn trivial_triplet_gives_one_fingerprint() {
    let eps = vec![
        EventPoint::new(0, 100, key(0.5)),
        EventPoint::new(10, 120, key(0.7)),
        EventPoint::new(20, 110, key(0.6)),
    ];
    let fps = generator().generate(&eps);
    assert_eq!(fps.len(), 1);
    assert_eq!(fps[0], Fingerprint::new(&eps[0], &eps[1], &eps[2]));
    assert_eq!(fps[0].t1, 0);
    assert_eq!(fps[0].t3, 20);
}

#[test]
fn time_distance_below_minimum_gives_none() {
    let eps = vec![
        EventPoint::new(0, 100, key(0.5)),
        EventPoint::new(1, 120, key(0.7)),
        EventPoint::new(11, 110, key(0.6)),
    ];
    assert!(generator().generate(&eps).is_empty());
    let eps = vec![
        EventPoint::new(0, 100, key(0.5)),
        EventPoint::new(10, 120, key(0.7)),
        EventPoint::new(11, 110, key(0.6)),
    ];
    assert!(generator().generate(&eps).is_empty());
}

#[test]
fn frequency_distance_bounds_are_inclusive() {
    // |df| = 128 is allowed, 129 is not; 0 is below the minimum of 1
    let ok = vec![EventPoint::new(0, 0, 1), EventPoint::new(33, 128, 2), EventPoint::new(35, 0, 3)];
    assert_eq!(generator().generate(&ok).len(), 1);
    let wide = vec![EventPoint::new(0, 0, 1), EventPoint::new(33, 129, 2), EventPoint::new(35, 0, 3)];
    assert!(generator().generate(&wide).is_empty());
    let flat = vec![EventPoint::new(0, 5, 1), EventPoint::new(3, 5, 2), EventPoint::new(6, 9, 3)];
    assert!(generator().generate(&flat).is_empty());
}

#[test]
fn fingerprints_come_sorted_by_first_time() {
    // listed out of time order
    let eps = vec![
        EventPoint::new(50, 10, 1),
        EventPoint::new(0, 10, 1),
        EventPoint::new(60, 20, 1),
        EventPoint::new(10, 20, 1),
        EventPoint::new(70, 10, 1),
        EventPoint::new(20, 10, 1),
    ];
    let fps = generator().generate(&eps);
    // (50,60,70) by index order and (0,10,20)
    assert_eq!(fps.len(), 2);
    assert_eq!(fps[0].t1, 0);
    assert_eq!(fps[1].t1, 50);
    for w in fps.windows(2) {
        assert!(w[0].t1 <= w[1].t1);
    }
    for fp in &fps {
        let (dt12, dt23) = (fp.t2 - fp.t1, fp.t3 - fp.t2);
        assert!((2..=33).contains(&dt12) && (2..=33).contains(&dt23));
    }
}

#[test]
fn default_config_is_valid() {
    let c = PanakoConfig::default();
    assert_eq!(c.validate(), Ok(()));
    assert_eq!(c.sample_rate, 16000);
    assert_eq!(c.bands_per_octave, 85);
}

#[test]
fn invalid_configs_are_refused() {
    let mut c = PanakoConfig::default();
    c.sample_rate = 0;
    assert_eq!(c.validate(), Err(ConfigError::ZeroSampleRate));
    let mut c = PanakoConfig::default();
    c.min_freq = 7040;
    assert_eq!(c.validate(), Err(ConfigError::FrequencyRangeEmpty));
    let mut c = PanakoConfig::default();
    c.bands_per_octave = 0;
    assert_eq!(c.validate(), Err(ConfigError::ZeroBandsPerOctave));
}
