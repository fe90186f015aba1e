use varuna::tracker::{KalmanTracker, Track};

#[test]
fn test_tracker_prunes_coasted_tracks() {
    let mut tracker = KalmanTracker::new(2);
    // Init with measurement
    tracker.update(&vec![], 0, 1);
    assert_eq!(tracker.tracks().len(), 1);
    // Update with no matching measurement several times
    for _ in 0..5 {
        let rows = vec![vec![]; tracker.tracks().len()];
        tracker.update(&rows, 0, 0);
    }
    assert_eq!(tracker.tracks().len(), 0, "Track should have been pruned");
}

#[test]
fn unassociated_measurement_starts_track() {
    let mut tracker = KalmanTracker::new(10);
    let a = tracker.update(&vec![], 5, 1);
    assert_eq!(tracker.tracks(), &[Track { id: 0, coasting_frames: 0 }]);
    assert_eq!(a.spawned, vec![0]);
    assert!(a.assignments.is_empty());
    assert_eq!(a.kept, vec![true]);
    assert_eq!(tracker.next_id(), 1);
}

#[test]
fn nearest_gated_measurement_is_associated() {
    let mut tracker = KalmanTracker::new(10);
    tracker.update(&vec![], 100, 2);
    assert_eq!(tracker.tracks().len(), 2);
    // track 0: measurement 1 nearest; track 1: measurement 1 is taken, 0 is not below the gating key
    let dist = vec![vec![Some(50), Some(20), Some(70)], vec![Some(150), Some(10), None]];
    let a = tracker.update(&dist, 100, 3);
    assert_eq!(a.assignments, vec![Some(1), None]);
    assert_eq!(a.spawned, vec![0, 2]);
    assert_eq!(
        tracker.tracks(),
        &[
            Track { id: 0, coasting_frames: 0 },
            Track { id: 1, coasting_frames: 1 },
            Track { id: 2, coasting_frames: 0 },
            Track { id: 3, coasting_frames: 0 },
        ]
    );
}

#[test]
fn equal_distances_take_the_first_measurement() {
    let mut tracker = KalmanTracker::new(10);
    tracker.update(&vec![], 100, 1);
    let a = tracker.update(&vec![vec![Some(30), Some(30)]], 100, 2);
    assert_eq!(a.assignments, vec![Some(0)]);
    assert_eq!(a.spawned, vec![1]);
}

#[test]
fn coasting_limit_prunes_after_threshold() {
    let mut tracker = KalmanTracker::new(1);
    tracker.update(&vec![], 0, 1);
    let a = tracker.update(&vec![vec![]], 0, 0);
    assert_eq!(a.kept, vec![true]);
    assert_eq!(tracker.tracks()[0].coasting_frames, 1);
    let a = tracker.update(&vec![vec![]], 0, 0);
    assert_eq!(a.kept, vec![false]);
    assert!(tracker.tracks().is_empty());
    assert_eq!(tracker.max_coasting(), 1);
}

#[test]
fn update_fits_on_new_tracker() {
    let tracker = KalmanTracker::new(3);
    assert!(tracker.update_fits(&vec![], 0, 5));
    let (assignments, taken) = tracker.association(&vec![], 0, 2);
    assert!(assignments.is_empty());
    assert_eq!(taken, vec![false, false]);
}

#[test]
fn association_matches_update() {
    let mut tracker = KalmanTracker::new(10);
    tracker.update(&vec![], 100, 2);
    let dist = vec![vec![Some(50), Some(20), Some(70)], vec![Some(150), Some(10), None]];
    let (assignments, taken) = tracker.association(&dist, 100, 3);
    assert_eq!(assignments, vec![Some(1), None]);
    assert_eq!(taken, vec![false, true, false]);
    assert!(tracker.update_fits(&dist, 100, 3));
}
