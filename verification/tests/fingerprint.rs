use varuna::fingerprint::{AcousticFingerprinter, FingerprintHash, KeySpectrogram};
use varuna::order::order_key;

fn key(x: f32) -> Option<u32> {
    order_key(x.to_bits())
}

fn make_spectrogram(n_frames: usize, n_bins: usize, peak_t: usize, peak_f: usize) -> KeySpectrogram {
    // Background noise
    let mut rows = vec![vec![key(-50.0); n_bins]; n_frames];
    // Peaks
    for dt in 0..3 {
        let t = (peak_t + dt * 10).min(n_frames - 2);
        let f = (peak_f + dt * 5).min(n_bins - 2);
        rows[t][f] = key(0.0);
    }
    KeySpectrogram::from_rows(rows, n_bins).unwrap()
}

#[test]
fn test_fingerprint_roundtrip() {
    let mut fp = AcousticFingerprinter::new(key(-30.0), 5, 20);
    let spec = make_spectrogram(100, 64, 10, 20);
    fp.add_track("track_001", &spec);
    assert!(fp.db_size() > 0, "DB should contain hashes");

    // Query with same spectrogram should return track_001
    let result = fp.query(&spec);
    assert!(result.is_some(), "Should find a match");
    assert_eq!(result.unwrap().track_id, "track_001");
}

#[test]
fn peaks_and_hashes_of_constellation() {
    let fp = AcousticFingerprinter::new(key(-30.0), 5, 20);
    let spec = make_spectrogram(100, 64, 10, 20);
    let peaks = fp.extract_peaks(&spec);
    assert_eq!(peaks, vec![(10, 20), (20, 25), (30, 30)]);
    let hashes = fp.generate_hashes(&peaks);
    assert_eq!(
        hashes,
        vec![
            (FingerprintHash { freq1: 20, freq2: 25, delta_frames: 10 }, 10),
            (FingerprintHash { freq1: 20, freq2: 30, delta_frames: 20 }, 10),
            (FingerprintHash { freq1: 25, freq2: 30, delta_frames: 10 }, 20),
        ]
    );
}

#[test]
fn fan_out_and_window_limit_pairs() {
    let fp = AcousticFingerprinter::new(Some(0), 1, 15);
    let peaks = vec![(10, 20), (20, 25), (30, 30)];
    let hashes = fp.generate_hashes(&peaks);
    assert_eq!(
        hashes,
        vec![
            (FingerprintHash { freq1: 20, freq2: 25, delta_frames: 10 }, 10),
            (FingerprintHash { freq1: 25, freq2: 30, delta_frames: 10 }, 20),
        ]
    );
    let none = AcousticFingerprinter::new(Some(0), 0, 15).generate_hashes(&peaks);
    assert!(none.is_empty());
}

#[test]
fn peaks_need_threshold_and_local_maximum() {
    let mut rows = vec![vec![key(-50.0); 5]; 5];
    rows[2][2] = key(-40.0); // below threshold -30
    rows[1][1] = key(-10.0);
    rows[1][2] = key(-10.0); // equal neighbours: both count as peaks
    let spec = KeySpectrogram::from_rows(rows, 5).unwrap();
    let fp = AcousticFingerprinter::new(key(-30.0), 5, 20);
    assert_eq!(fp.extract_peaks(&spec), vec![(1, 1), (1, 2)]);
    // border cells are never peaks
    let mut border = vec![vec![key(-50.0); 3]; 3];
    border[0][1] = key(0.0);
    let spec = KeySpectrogram::from_rows(border, 3).unwrap();
    assert!(fp.extract_peaks(&spec).is_empty());
}

#[test]
fn ragged_rows_are_rejected() {
    assert!(KeySpectrogram::from_rows(vec![vec![Some(1), Some(2)], vec![Some(3)]], 2).is_none());
    let s = KeySpectrogram::from_rows(vec![vec![Some(1), Some(2)], vec![Some(3), None]], 2).unwrap();
    assert_eq!((s.n_frames(), s.n_bins(), s.get(1, 0), s.get(1, 1)), (2, 2, Some(3), None));
}

#[test]
fn query_on_empty_store_finds_nothing() {
    let fp = AcousticFingerprinter::new(key(-30.0), 5, 20);
    let spec = make_spectrogram(100, 64, 10, 20);
    assert_eq!(fp.db_size(), 0);
    assert!(fp.query(&spec).is_none());
}

#[test]
fn query_reports_votes_and_offset() {
    let mut fp = AcousticFingerprinter::new(key(-30.0), 5, 20);
    let stored = make_spectrogram(100, 64, 30, 20);
    fp.add_track("ship_a", &stored);
    fp.add_track("ship_b", &make_spectrogram(100, 64, 10, 40));
    assert_eq!(fp.db_size(), 6);
    // the same constellation 20 frames earlier
    let probe = make_spectrogram(100, 64, 10, 20);
    let m = fp.query(&probe).unwrap();
    assert_eq!(m.track_id, "ship_a");
    assert_eq!(m.time_offset_frames, 20);
    assert_eq!(m.hits, 3);
    assert_eq!(m.total_hashes, 3);
}

#[test]
fn nan_cells_follow_float_comparisons() {
    let fp = AcousticFingerprinter::new(key(-30.0), 5, 20);
    // a NaN cell is never a peak
    let mut rows = vec![vec![key(-50.0); 5]; 5];
    rows[2][2] = key(f32::NAN);
    assert!(fp.extract_peaks(&KeySpectrogram::from_rows(rows, 5).unwrap()).is_empty());
    // a NaN neighbour keeps a cell from being a peak
    let mut rows = vec![vec![key(-50.0); 5]; 5];
    rows[2][2] = key(0.0);
    rows[1][1] = key(-f32::NAN);
    assert!(fp.extract_peaks(&KeySpectrogram::from_rows(rows, 5).unwrap()).is_empty());
    // nothing compares below a NaN threshold
    let nan_threshold = AcousticFingerprinter::new(key(f32::NAN), 5, 20);
    let mut rows = vec![vec![key(-100.0); 5]; 5];
    rows[2][2] = key(-90.0);
    assert_eq!(nan_threshold.extract_peaks(&KeySpectrogram::from_rows(rows, 5).unwrap()), vec![(2, 2)]);
}

#[test]
fn every_stored_track_is_found_among_several() {
    let mut fp = AcousticFingerprinter::new(key(-30.0), 5, 20);
    let a = make_spectrogram(100, 64, 10, 20);
    let b = make_spectrogram(100, 64, 10, 40);
    let c = make_spectrogram(100, 64, 50, 5);
    fp.add_track("a", &a);
    fp.add_track("b", &b);
    fp.add_track("c", &c);
    assert_eq!(fp.query(&a).unwrap().track_id, "a");
    assert_eq!(fp.query(&b).unwrap().track_id, "b");
    assert_eq!(fp.query(&c).unwrap().track_id, "c");
}

#[test]
fn vote_total_bound() {
    let mut fp = AcousticFingerprinter::new(key(-30.0), 5, 20);
    let a = make_spectrogram(100, 64, 10, 20);
    assert!(fp.votes_within(&a, 0));
    fp.add_track("a", &a);
    fp.add_track("a2", &a);
    assert!(fp.votes_within(&a, 6));
    assert!(!fp.votes_within(&a, 5));
}
