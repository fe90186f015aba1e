use varuna::framing::{frame_starts, integration_groups, lofar_band, num_bins, stft_frames, StftError};

#[test]
fn stft_frame_count_and_bins() {
    // 2048 samples, window 256, hop 64: (2048 - 256) / 64 + 1 frames
    assert_eq!(stft_frames(2048, 256, 64), Ok(29));
    assert_eq!(num_bins(256), 129);
    assert_eq!(num_bins(1024), 513);
}

#[test]
fn stft_signal_too_short() {
    assert_eq!(stft_frames(100, 256, 64), Err(StftError::SignalTooShort { window_size: 256 }));
    assert_eq!(stft_frames(256, 256, 64), Ok(1));
}

#[test]
fn frame_starts_fit_the_signal() {
    let starts = frame_starts(1000, 256, 100);
    assert_eq!(starts, vec![0, 100, 200, 300, 400, 500, 600, 700]);
    assert!(frame_starts(100, 256, 64).is_empty());
    // the loop count agrees with the closed formula
    let n = frame_starts(44100, 4096, 1024).len();
    assert_eq!(Ok(n), stft_frames(44100, 4096, 1024));
}

#[test]
fn integration_groups_cover_all_frames() {
    assert_eq!(integration_groups(10, 4), vec![(0, 4), (4, 8), (8, 10)]);
    assert_eq!(integration_groups(8, 4), vec![(0, 4), (4, 8)]);
    assert!(integration_groups(0, 3).is_empty());
}

#[test]
fn lofar_band_clamps_and_counts() {
    // 4096-sample window at 44.1 kHz: 1 Hz .. 500 Hz -> bins 0 .. 46
    assert_eq!(lofar_band(0, 46, 2049), (46, 46));
    assert_eq!(lofar_band(10, 5000, 2049), (2048, 2038));
    assert_eq!(lofar_band(30, 20, 2049), (20, 1));
    assert_eq!(lofar_band(7, 7, 2049), (7, 1));
}

#[test]
fn short_signal_has_no_frames_whatever_the_hop() {
    assert!(frame_starts(100, 256, 0).is_empty());
}
