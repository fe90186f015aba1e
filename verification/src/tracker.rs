//! Track bookkeeping of the multi-target tracker: association of measurements
//! to tracks by nearest-neighbour gating, coasting counts, new track
//! identities and pruning.
//!
//! The filter arithmetic (prediction, Mahalanobis distances, Kalman update)
//! is done on floating-point state outside this module; it hands in, for every
//! track and measurement, the order key of the distance (or `None` when the
//! innovation covariance could not be inverted), and applies the
//! [`Association`] that comes back to its filter states.
use vstd::prelude::*;

verus! {

/// Identity and coasting count of one tracked target.
#[derive(Debug, Clone, Copy, PartialEq, Eq, Structural)]
pub struct Track {
    pub id: u32,
    /// Consecutive updates without an associated measurement.
    pub coasting_frames: u32,
}

/// What one update decided, for the caller to apply to its filter states.
#[derive(Debug, Clone)]
pub struct Association {
    /// For each track before the update, the measurement it was associated with.
    pub assignments: Vec<Option<usize>>,
    /// Measurements that started a new track, in order.
    pub spawned: Vec<usize>,
    /// For each track after association and spawning (old tracks first, then
    /// the new ones), whether it survives pruning.
    pub kept: Vec<bool>,
}

/// The first unassigned measurement among `0 .. n` whose distance key is
/// below the gating key and smaller than that of every earlier candidate.
pub open spec fn best_upto(row: Seq<Option<u32>>, assigned: Seq<bool>, gate: u32, n: int) -> Option<int>
    decreases n,
{
    if n <= 0 {
        None
    } else {
        let b = best_upto(row, assigned, gate, n - 1);
        let j = n - 1;
        if !assigned[j] && row[j] is Some && row[j]->0 < gate && (b is None || row[j]->0 < row[b->0]->0) {
            Some(j)
        } else {
            b
        }
    }
}

/// Measurements `0 .. m`, none assigned.
pub open spec fn none_assigned(m: int) -> Seq<bool> {
    Seq::new(m as nat, |j: int| false)
}

/// Nearest-neighbour association of the first `i` tracks, track by track:
/// the chosen measurement of each track, and which measurements are taken.
pub open spec fn associate(dist: Seq<Seq<Option<u32>>>, gate: u32, m: int, i: int) -> (Seq<Option<int>>, Seq<bool>)
    decreases i,
{
    if i <= 0 {
        (seq![], none_assigned(m))
    } else {
        let prev = associate(dist, gate, m, i - 1);
        let c = best_upto(dist[i - 1], prev.1, gate, m);
        (prev.0.push(c), if c is Some { prev.1.update(c->0, true) } else { prev.1 })
    }
}

/// Tracks after association: an associated track restarts its coasting
/// count, any other coasts one more frame.
pub open spec fn coast(tracks: Seq<Track>, choices: Seq<Option<int>>) -> Seq<Track> {
    Seq::new(tracks.len(), |i: int| Track {
        id: tracks[i].id,
        coasting_frames: if choices[i] is Some { 0 } else { (tracks[i].coasting_frames + 1) as u32 },
    })
}

/// The measurements among `0 .. n` that no track took, in order.
pub open spec fn unassigned_upto(assigned: Seq<bool>, n: int) -> Seq<int>
    decreases n,
{
    if n <= 0 {
        seq![]
    } else {
        unassigned_upto(assigned, n - 1) + if !assigned[n - 1] {
            seq![n - 1]
        } else {
            seq![]
        }
    }
}

/// New tracks for `count` measurements, numbered from `next_id`.
pub open spec fn spawn(next_id: u32, count: int) -> Seq<Track> {
    Seq::new(count as nat, |k: int| Track { id: (next_id + k) as u32, coasting_frames: 0 })
}

/// The tracks among the first `n` that have coasted at most `max_coasting` frames.
pub open spec fn retain_upto(tracks: Seq<Track>, max_coasting: u32, n: int) -> Seq<Track>
    decreases n,
{
    if n <= 0 {
        seq![]
    } else {
        retain_upto(tracks, max_coasting, n - 1) + if tracks[n - 1].coasting_frames <= max_coasting {
            seq![tracks[n - 1]]
        } else {
            seq![]
        }
    }
}

/// An optional index as an optional integer.
pub open spec fn opt_index(o: Option<usize>) -> Option<int> {
    match o {
        Some(j) => Some(j as int),
        None => None,
    }
}

/// The rows of a distance table as plain sequences.
pub open spec fn table(dist: Seq<Vec<Option<u32>>>) -> Seq<Seq<Option<u32>>> {
    dist.map_values(|r: Vec<Option<u32>>| r@)
}

/// The measurement nearest to a track among those not yet taken.
fn nearest(row: &Vec<Option<u32>>, assigned: &Vec<bool>, gate: u32) -> (b: Option<usize>)
    requires
        row@.len() == assigned@.len(),
    ensures
        opt_index(b) == best_upto(row@, assigned@, gate, row@.len() as int),
        b matches Some(j) ==> j < row@.len(),
{
    let m = row.len();
    let mut best: Option<usize> = None;
    let mut best_key: u32 = 0;
    let mut j: usize = 0;
    while j < m
        invariant
            m == row@.len(),
            m == assigned@.len(),
            j <= m,
            opt_index(best) == best_upto(row@, assigned@, gate, j as int),
            best matches Some(b) ==> b < j && row@[b as int] == Some(best_key),
        decreases m - j,
    {
        if !assigned[j] {
            if let Some(d) = row[j] {
                let better = match best {
                    None => true,
                    Some(_) => d < best_key,
                };
                if d < gate && better {
                    best = Some(j);
                    best_key = d;
                }
            }
        }
        j = j + 1;
    }
    best
}

proof fn lemma_best_upto_range(row: Seq<Option<u32>>, assigned: Seq<bool>, gate: u32, n: int)
    ensures
        best_upto(row, assigned, gate, n) matches Some(j) ==> 0 <= j < n && !assigned[j],
    decreases n,
{
    if n > 0 {
        lemma_best_upto_range(row, assigned, gate, n - 1);
    }
}

/// Measurement `k` can still be taken: no track took it yet and its
/// distance key is known and below the gating key.
pub open spec fn gated_free(row: Seq<Option<u32>>, taken: Seq<bool>, gate: u32, k: int) -> bool {
    &&& !taken[k]
    &&& row[k] is Some
    &&& row[k]->0 < gate
}

/// The choice among measurements `0 .. n` is the nearest one that can still
/// be taken (the first of equally near ones), and there is no choice exactly
/// when none can be taken; taken measurements play no part.
pub proof fn lemma_best_is_nearest_free(row: Seq<Option<u32>>, taken: Seq<bool>, gate: u32, n: int)
    requires
        0 <= n <= row.len(),
        n <= taken.len(),
    ensures
        best_upto(row, taken, gate, n) is None <==> forall|k: int| 0 <= k < n ==> !#[trigger] gated_free(row, taken, gate, k),
        best_upto(row, taken, gate, n) matches Some(j) ==> {
            &&& 0 <= j < n
            &&& gated_free(row, taken, gate, j)
            &&& forall|k: int| 0 <= k < n && #[trigger] gated_free(row, taken, gate, k) ==> row[j]->0 <= row[k]->0
            &&& forall|k: int| 0 <= k < j && #[trigger] gated_free(row, taken, gate, k) ==> row[j]->0 < row[k]->0
        },
    decreases n,
{
    if n > 0 {
        lemma_best_is_nearest_free(row, taken, gate, n - 1);
        let b = best_upto(row, taken, gate, n - 1);
        let j = n - 1;
        if gated_free(row, taken, gate, j) && (b is None || row[j]->0 < row[b->0]->0) {
            assert(best_upto(row, taken, gate, n) == Some(j));
        } else {
            assert(best_upto(row, taken, gate, n) == b);
            if b is None {
                assert forall|k: int| 0 <= k < n implies !#[trigger] gated_free(row, taken, gate, k) by {
                    if k < n - 1 {
                    }
                }
            }
        }
    }
}

/// The measurements that the tracks before position `i` took.
pub open spec fn taken_before(choices: Seq<Option<int>>, i: int, m: int) -> Seq<bool> {
    Seq::new(m as nat, |k: int| exists|a: int| 0 <= a < i && choices[a] == Some(k))
}

proof fn lemma_taken_is_associated(dist: Seq<Seq<Option<u32>>>, gate: u32, m: int, n: int, i: int)
    requires
        0 <= m,
        0 <= i <= n,
    ensures
        associate(dist, gate, m, i).1 == taken_before(associate(dist, gate, m, n).0, i, m),
    decreases i,
{
    lemma_associate_shape(dist, gate, m, n);
    let ch = associate(dist, gate, m, n).0;
    let cur = associate(dist, gate, m, i);
    if i == 0 {
        assert(cur.1 =~= taken_before(ch, 0, m));
    } else {
        lemma_taken_is_associated(dist, gate, m, n, i - 1);
        let prev = associate(dist, gate, m, i - 1);
        lemma_associate_shape(dist, gate, m, i - 1);
        let c = best_upto(dist[i - 1], prev.1, gate, m);
        lemma_best_upto_range(dist[i - 1], prev.1, gate, m);
        assert(associate(dist, gate, m, i).0[i - 1] == ch[i - 1]);
        assert(ch[i - 1] == c);
        assert forall|k: int| 0 <= k < m implies cur.1[k] == taken_before(ch, i, m)[k] by {
            if exists|a: int| 0 <= a < i - 1 && ch[a] == Some(k) {
                assert(prev.1[k]);
                let a = choose|a: int| 0 <= a < i - 1 && ch[a] == Some(k);
                assert(0 <= a < i && ch[a] == Some(k));
            } else {
                assert(!prev.1[k]);
                if c == Some(k) {
                    assert(0 <= i - 1 < i && ch[i - 1] == Some(k));
                } else {
                    assert forall|a: int| 0 <= a < i implies ch[a] != Some(k) by {
                        if a == i - 1 {
                        }
                    }
                }
            }
        }
        assert(cur.1 =~= taken_before(ch, i, m));
    }
}

/// Nearest-neighbour association, track by track: track `i` takes a
/// measurement exactly when some measurement still free (taken by no track
/// before it) has a distance key below the gating key, and then takes the
/// nearest free one, the lowest index among ties. Measurements already
/// taken do not affect its choice.
pub proof fn lemma_association_nearest(dist: Seq<Seq<Option<u32>>>, gate: u32, m: int, n: int)
    requires
        0 <= m,
        0 <= n <= dist.len(),
        forall|i: int| 0 <= i < n ==> #[trigger] dist[i].len() == m,
    ensures
        forall|i: int| 0 <= i < n ==> {
            &&& (#[trigger] associate(dist, gate, m, n).0[i]) is None <==> forall|k: int| 0 <= k < m
                ==> !#[trigger] gated_free(dist[i], taken_before(associate(dist, gate, m, n).0, i, m), gate, k)
            &&& associate(dist, gate, m, n).0[i] matches Some(j) ==> {
                &&& 0 <= j < m
                &&& gated_free(dist[i], taken_before(associate(dist, gate, m, n).0, i, m), gate, j)
                &&& forall|k: int| 0 <= k < m && #[trigger] gated_free(dist[i], taken_before(associate(dist, gate, m, n).0, i, m), gate, k)
                    ==> dist[i][j]->0 <= dist[i][k]->0
                &&& forall|k: int| 0 <= k < j && #[trigger] gated_free(dist[i], taken_before(associate(dist, gate, m, n).0, i, m), gate, k)
                    ==> dist[i][j]->0 < dist[i][k]->0
            }
        },
{
    lemma_associate_shape(dist, gate, m, n);
    let ch = associate(dist, gate, m, n).0;
    assert forall|i: int| 0 <= i < n implies {
        &&& (#[trigger] ch[i]) is None <==> forall|k: int| 0 <= k < m ==> !#[trigger] gated_free(dist[i], taken_before(ch, i, m), gate, k)
        &&& ch[i] matches Some(j) ==> {
            &&& 0 <= j < m
            &&& gated_free(dist[i], taken_before(ch, i, m), gate, j)
            &&& forall|k: int| 0 <= k < m && #[trigger] gated_free(dist[i], taken_before(ch, i, m), gate, k) ==> dist[i][j]->0 <= dist[i][k]->0
            &&& forall|k: int| 0 <= k < j && #[trigger] gated_free(dist[i], taken_before(ch, i, m), gate, k) ==> dist[i][j]->0 < dist[i][k]->0
        }
    } by {
        lemma_taken_is_associated(dist, gate, m, n, i);
        lemma_associate_shape(dist, gate, m, i);
        lemma_associate_shape(dist, gate, m, i + 1);
        let prev = associate(dist, gate, m, i);
        assert(associate(dist, gate, m, i + 1).0[i] == ch[i]);
        assert(ch[i] == best_upto(dist[i], prev.1, gate, m));
        lemma_best_is_nearest_free(dist[i], prev.1, gate, m);
    }
}

proof fn lemma_associate_shape(dist: Seq<Seq<Option<u32>>>, gate: u32, m: int, n: int)
    requires
        0 <= n,
        0 <= m,
    ensures
        associate(dist, gate, m, n).0.len() == n,
        associate(dist, gate, m, n).1.len() == m,
        forall|i: int, k: int| 0 <= k < i <= n ==> #[trigger] associate(dist, gate, m, i).0[k] == associate(dist, gate, m, n).0[k],
    decreases n,
{
    if n > 0 {
        lemma_associate_shape(dist, gate, m, n - 1);
        let prev = associate(dist, gate, m, n - 1);
        lemma_best_upto_range(dist[n - 1], prev.1, gate, m);
        assert forall|i: int, k: int| 0 <= k < i <= n implies #[trigger] associate(dist, gate, m, i).0[k] == associate(dist, gate, m, n).0[k] by {
            if i < n {
                assert(associate(dist, gate, m, i).0[k] == prev.0[k]);
            }
        }
    }
}

proof fn lemma_unassigned_monotone(a: Seq<bool>, j: int, n: int)
    requires
        j <= n,
    ensures
        unassigned_upto(a, j).len() <= unassigned_upto(a, n).len(),
    decreases n - j,
{
    if j < n {
        lemma_unassigned_monotone(a, j, n - 1);
    }
}

/// Multi-target track bookkeeping.
pub struct KalmanTracker {
    max_coasting: u32,
    tracks: Vec<Track>,
    next_id: u32,
}

impl View for KalmanTracker {
    type V = Seq<Track>;

    closed spec fn view(&self) -> Seq<Track> {
        self.tracks@
    }
}

impl KalmanTracker {
    #[verifier::type_invariant]
    closed spec fn wf(self) -> bool {
        tracks_valid(self.tracks@, self.next_id, self.max_coasting)
    }

    /// Tracks that coast more than this many frames are dropped.
    pub closed spec fn spec_max_coasting(&self) -> u32 {
        self.max_coasting
    }

    /// The identity the next new track receives.
    pub closed spec fn spec_next_id(&self) -> u32 {
        self.next_id
    }

    /// A tracker with no tracks.
    pub fn new(max_coasting: u32) -> (tr: Self)
        ensures
            tr@ == Seq::<Track>::empty(),
            tr.spec_next_id() == 0,
            tr.spec_max_coasting() == max_coasting,
    {
        KalmanTracker { max_coasting, tracks: Vec::new(), next_id: 0 }
    }

    /// The association of the current tracks with `n_meas` measurements.
    pub open spec fn spec_association(&self, dist: Seq<Vec<Option<u32>>>, gate: u32, n_meas: int) -> (Seq<Option<int>>, Seq<bool>) {
        associate(table(dist), gate, n_meas, self@.len() as int)
    }

    /// The tracks after association and spawning, before pruning.
    pub open spec fn spec_grown(&self, dist: Seq<Vec<Option<u32>>>, gate: u32, n_meas: int) -> Seq<Track> {
        let a = self.spec_association(dist, gate, n_meas);
        coast(self@, a.0) + spawn(self.spec_next_id(), unassigned_upto(a.1, n_meas).len() as int)
    }

    /// The counters of an update stay in range: every track left without a
    /// measurement can coast one more frame, and every leftover measurement
    /// gets a new identity.
    pub open spec fn update_in_range(&self, dist: Seq<Vec<Option<u32>>>, gate: u32, n_meas: int) -> bool {
        let assoc = self.spec_association(dist, gate, n_meas);
        &&& forall|i: int| 0 <= i < self@.len() && (#[trigger] assoc.0[i]) is None ==> self@[i].coasting_frames < u32::MAX
        &&& self.spec_next_id() + unassigned_upto(assoc.1, n_meas).len() <= u32::MAX
    }

    /// The nearest-neighbour association of the current tracks with
    /// `n_meas` measurements: the measurement each track takes, and which
    /// measurements are taken.
    pub fn association(&self, dist: &Vec<Vec<Option<u32>>>, gate: u32, n_meas: usize) -> (r: (Vec<Option<usize>>, Vec<bool>))
        requires
            dist@.len() == self@.len(),
            forall|i: int| 0 <= i < dist@.len() ==> (#[trigger] dist@[i])@.len() == n_meas,
        ensures
            r.0@.map_values(|o: Option<usize>| opt_index(o)) == self.spec_association(dist@, gate, n_meas as int).0,
            r.1@ == self.spec_association(dist@, gate, n_meas as int).1,
            r.1@.len() == n_meas,
            forall|i: int| 0 <= i < r.0@.len() ==> (#[trigger] r.0@[i] matches Some(j) ==> j < n_meas),
    {
        let ghost rows = table(dist@);
        let n_tracks = self.tracks.len();
        let mut assigned: Vec<bool> = Vec::new();
        let mut j: usize = 0;
        while j < n_meas
            invariant
                j <= n_meas,
                assigned@ == Seq::new(j as nat, |k: int| false),
            decreases n_meas - j,
        {
            assigned.push(false);
            assert(assigned@ =~= Seq::new((j + 1) as nat, |k: int| false));
            j = j + 1;
        }
        let mut assignments: Vec<Option<usize>> = Vec::new();
        let mut i: usize = 0;
        proof {
            assert(assigned@ =~= none_assigned(n_meas as int));
            assert(assignments@.map_values(|o: Option<usize>| opt_index(o)) =~= Seq::<Option<int>>::empty());
        }
        while i < n_tracks
            invariant
                n_tracks == self@.len(),
                rows == table(dist@),
                dist@.len() == n_tracks,
                forall|r: int| 0 <= r < dist@.len() ==> (#[trigger] dist@[r])@.len() == n_meas,
                i <= n_tracks,
                assigned@ == associate(rows, gate, n_meas as int, i as int).1,
                assigned@.len() == n_meas,
                assignments@.len() == i,
                assignments@.map_values(|o: Option<usize>| opt_index(o)) == associate(rows, gate, n_meas as int, i as int).0,
                forall|k: int| 0 <= k < assignments@.len() ==> (#[trigger] assignments@[k] matches Some(j) ==> j < n_meas),
            decreases n_tracks - i,
        {
            let ghost prev = associate(rows, gate, n_meas as int, i as int);
            proof {
                lemma_associate_shape(rows, gate, n_meas as int, i as int);
                assert(rows[i as int] == dist@[i as int]@);
            }
            let choice = nearest(&dist[i], &assigned, gate);
            let ghost next = associate(rows, gate, n_meas as int, i + 1);
            assert(next.0 == prev.0.push(opt_index(choice)));
            if let Some(jj) = choice {
                assigned.set(jj, true);
            }
            assignments.push(choice);
            proof {
                assert(assigned@ =~= next.1);
                assert(assignments@.map_values(|o: Option<usize>| opt_index(o)) =~= next.0);
            }
            i = i + 1;
        }
        (assignments, assigned)
    }

    /// Whether an update with this distance table keeps its counters in
    /// range (see [`KalmanTracker::update_in_range`]).
    pub fn update_fits(&self, dist: &Vec<Vec<Option<u32>>>, gate: u32, n_meas: usize) -> (b: bool)
        requires
            dist@.len() == self@.len(),
            forall|i: int| 0 <= i < dist@.len() ==> (#[trigger] dist@[i])@.len() == n_meas,
        ensures
            b == self.update_in_range(dist@, gate, n_meas as int),
    {
        let (assignments, assigned) = self.association(dist, gate, n_meas);
        let ghost assoc = self.spec_association(dist@, gate, n_meas as int);
        proof {
            lemma_associate_shape(table(dist@), gate, n_meas as int, self@.len() as int);
        }
        let n_tracks = self.tracks.len();
        let mut i: usize = 0;
        while i < n_tracks
            invariant
                n_tracks == self@.len(),
                assoc == self.spec_association(dist@, gate, n_meas as int),
                assignments@.len() == n_tracks,
                assignments@.map_values(|o: Option<usize>| opt_index(o)) == assoc.0,
                i <= n_tracks,
                forall|k: int| 0 <= k < i && (#[trigger] assoc.0[k]) is None ==> self@[k].coasting_frames < u32::MAX,
            decreases n_tracks - i,
        {
            assert(assoc.0[i as int] == opt_index(assignments@[i as int]));
            if assignments[i].is_none() && self.tracks[i].coasting_frames == u32::MAX {
                proof {
                    assert(self.spec_association(dist@, gate, n_meas as int).0[i as int] is None);
                }
                return false;
            }
            i = i + 1;
        }
        let mut fresh: usize = 0;
        let mut j: usize = 0;
        while j < n_meas
            invariant
                assoc == self.spec_association(dist@, gate, n_meas as int),
                forall|k: int| 0 <= k < self@.len() && (#[trigger] assoc.0[k]) is None ==> self@[k].coasting_frames < u32::MAX,
                assigned@ == assoc.1,
                assigned@.len() == n_meas,
                j <= n_meas,
                fresh as int == unassigned_upto(assoc.1, j as int).len(),
                fresh <= j,
            decreases n_meas - j,
        {
            if !assigned[j] {
                fresh = fresh + 1;
            }
            j = j + 1;
        }
        if fresh as u64 > 0xffff_ffff {
            return false;
        }
        (self.next_id as u64) + (fresh as u64) <= 0xffff_ffff
    }

    /// One tracker update. `dist[i][j]` is the order key of the distance of
    /// measurement `j` to the predicted state of track `i`, or `None` when it
    /// could not be computed (or is NaN); `gate` is the key of the gating
    /// threshold. Each track in turn takes the nearest measurement not yet
    /// taken whose key is below the gating key (the first of equal nearest
    /// ones); every measurement left over starts a new track with the next
    /// identity; then tracks that have coasted more than the allowed number
    /// of frames are dropped. Track identities stay strictly increasing and
    /// below the next identity, and no kept track has coasted too long.
    pub fn update(&mut self, dist: &Vec<Vec<Option<u32>>>, gate: u32, n_meas: usize) -> (a: Association)
        requires
            dist@.len() == old(self)@.len(),
            forall|i: int| 0 <= i < dist@.len() ==> (#[trigger] dist@[i])@.len() == n_meas,
            old(self).update_in_range(dist@, gate, n_meas as int),
        ensures
            ({
                let assoc = old(self).spec_association(dist@, gate, n_meas as int);
                let fresh = unassigned_upto(assoc.1, n_meas as int);
                let grown = old(self).spec_grown(dist@, gate, n_meas as int);
                &&& final(self)@ == retain_upto(grown, old(self).spec_max_coasting(), grown.len() as int)
                &&& final(self).spec_next_id() == old(self).spec_next_id() + fresh.len()
                &&& final(self).spec_max_coasting() == old(self).spec_max_coasting()
                &&& a.assignments@.map_values(|o: Option<usize>| opt_index(o)) == assoc.0
                &&& a.spawned@.map_values(|j: usize| j as int) == fresh
                &&& a.kept@ == Seq::new(grown.len(), |k: int| grown[k].coasting_frames <= old(self).spec_max_coasting())
            }),
            tracks_valid(final(self)@, final(self).spec_next_id(), final(self).spec_max_coasting()),
            forall|i: int| 0 <= i < old(self)@.len() && (#[trigger] a.assignments@[i]) is Some
                ==> a.kept@[i] && final(self)@.contains(Track { id: old(self)@[i].id, coasting_frames: 0 }),
            forall|i: int| 0 <= i < old(self)@.len() && (#[trigger] a.assignments@[i]) is None
                ==> a.kept@[i] == (old(self)@[i].coasting_frames + 1 <= old(self).spec_max_coasting())
                    && (final(self)@.contains(Track { id: old(self)@[i].id, coasting_frames: (old(self)@[i].coasting_frames + 1) as u32 })
                        == (old(self)@[i].coasting_frames + 1 <= old(self).spec_max_coasting())),
    {
        proof {
            use_type_invariant(&*self);
        }
        let ghost old_self = *self;
        let ghost old_tracks = self.tracks@;
        let ghost old_next = self.next_id;
        let ghost full = self.spec_association(dist@, gate, n_meas as int);
        let n_tracks = self.tracks.len();
        proof {
            lemma_associate_shape(table(dist@), gate, n_meas as int, n_tracks as int);
        }
        let (assignments, assigned) = self.association(dist, gate, n_meas);
        let mut grown: Vec<Track> = Vec::new();
        let mut i: usize = 0;
        while i < n_tracks
            invariant
                n_tracks == old_tracks.len(),
                self.tracks@ == old_tracks,
                full.0.len() == n_tracks,
                assignments@.len() == n_tracks,
                assignments@.map_values(|o: Option<usize>| opt_index(o)) == full.0,
                forall|r: int| 0 <= r < n_tracks && (#[trigger] full.0[r]) is None ==> old_tracks[r].coasting_frames < u32::MAX,
                i <= n_tracks,
                grown@ == coast(old_tracks.take(i as int), full.0),
            decreases n_tracks - i,
        {
            let t = self.tracks[i];
            assert(full.0[i as int] == opt_index(assignments@[i as int]));
            let updated = match assignments[i] {
                Some(_) => Track { id: t.id, coasting_frames: 0 },
                None => Track { id: t.id, coasting_frames: t.coasting_frames + 1 },
            };
            grown.push(updated);
            proof {
                assert(grown@ =~= coast(old_tracks.take(i + 1), full.0));
            }
            i = i + 1;
        }
        proof {
            assert(old_tracks.take(n_tracks as int) =~= old_tracks);
            lemma_unassigned_monotone(full.1, 0, n_meas as int);
        }
        let ghost coasted = grown@;
        let mut spawned: Vec<usize> = Vec::new();
        let mut j: usize = 0;
        proof {
            assert(spawned@.map_values(|x: usize| x as int) =~= unassigned_upto(full.1, 0));
            assert(grown@ =~= coasted + spawn(old_next, 0));
        }
        while j < n_meas
            invariant
                j <= n_meas,
                assigned@ == full.1,
                assigned@.len() == n_meas,
                self.next_id == old_next + spawned@.len(),
                self.tracks@ == old_tracks,
                self.max_coasting == old_self.max_coasting,
                tracks_valid(old_tracks, old_next, old_self.max_coasting),
                old_next + unassigned_upto(full.1, n_meas as int).len() <= u32::MAX,
                spawned@.map_values(|x: usize| x as int) == unassigned_upto(full.1, j as int),
                grown@ == coasted + spawn(old_next, spawned@.len() as int),
            decreases n_meas - j,
        {
            proof {
                lemma_unassigned_monotone(full.1, j + 1, n_meas as int);
            }
            if !assigned[j] {
                grown.push(Track { id: self.next_id, coasting_frames: 0 });
                spawned.push(j);
                self.next_id = self.next_id + 1;
                proof {
                    assert(grown@ =~= coasted + spawn(old_next, spawned@.len() as int));
                }
            }
            proof {
                assert(spawned@.map_values(|x: usize| x as int) =~= unassigned_upto(full.1, j + 1));
            }
            j = j + 1;
        }
        let ghost all = grown@;
        let max = self.max_coasting;
        let mut kept: Vec<bool> = Vec::new();
        let mut out: Vec<Track> = Vec::new();
        let total = grown.len();
        let mut k: usize = 0;
        while k < total
            invariant
                total == all.len(),
                grown@ == all,
                k <= total,
                out@ == retain_upto(all, max, k as int),
                kept@ == Seq::new(k as nat, |x: int| all[x].coasting_frames <= max),
            decreases total - k,
        {
            let keep = grown[k].coasting_frames <= max;
            kept.push(keep);
            if keep {
                out.push(grown[k]);
            }
            proof {
                assert(kept@ =~= Seq::new((k + 1) as nat, |x: int| all[x].coasting_frames <= max));
                assert(out@ =~= retain_upto(all, max, k + 1));
            }
            k = k + 1;
        }
        proof {
            assert(all == old_self.spec_grown(dist@, gate, n_meas as int));
            lemma_update_keeps_ids_ordered(old_self, dist@, gate, n_meas as int);
            lemma_retain(all, max, all.len() as int);
            lemma_update_track_fates(old_self, dist@, gate, n_meas as int);
            let c = coast(old_tracks, full.0);
            assert forall|i: int| 0 <= i < n_tracks implies #[trigger] assignments@[i] is Some == full.0[i] is Some
                && all[i] == c[i] by {
                assert(full.0[i] == opt_index(assignments@[i]));
            }
        }
        self.tracks = out;
        Association { assignments, spawned, kept }
    }

    /// Tracks that coast more than this many frames are dropped.
    pub fn max_coasting(&self) -> (m: u32)
        ensures
            m == self.spec_max_coasting(),
    {
        self.max_coasting
    }

    /// The current tracks.
    pub fn tracks(&self) -> (t: &[Track])
        ensures
            t@ == self@,
            tracks_valid(t@, self.spec_next_id(), self.spec_max_coasting()),
    {
        proof {
            use_type_invariant(self);
        }
        self.tracks.as_slice()
    }

    /// The identity the next new track receives.
    pub fn next_id(&self) -> (n: u32)
        ensures
            n == self.spec_next_id(),
    {
        self.next_id
    }
}


/// Track identities increase strictly along the list.
pub open spec fn ids_increasing(tracks: Seq<Track>) -> bool {
    forall|a: int, b: int| 0 <= a < b < tracks.len() ==> (#[trigger] tracks[a]).id < (#[trigger] tracks[b]).id
}

/// Track identities increase strictly along the list and stay below `next_id`.
pub open spec fn ids_ordered(tracks: Seq<Track>, next_id: u32) -> bool {
    &&& ids_increasing(tracks)
    &&& forall|a: int| 0 <= a < tracks.len() ==> (#[trigger] tracks[a]).id < next_id
}

/// The tracker's lasting properties: identities strictly increasing along
/// the list and below the next identity, and no track coasting more than the
/// allowed number of frames.
pub open spec fn tracks_valid(tracks: Seq<Track>, next_id: u32, max_coasting: u32) -> bool {
    &&& ids_ordered(tracks, next_id)
    &&& forall|i: int| 0 <= i < tracks.len() ==> (#[trigger] tracks[i]).coasting_frames <= max_coasting
}

/// A measurement is associated with at most one track, and every
/// associated measurement is marked as taken.
pub proof fn lemma_association_injective(dist: Seq<Seq<Option<u32>>>, gate: u32, m: int, n: int)
    requires
        0 <= m,
        0 <= n,
    ensures
        ({
            let assoc = associate(dist, gate, m, n);
            &&& forall|a: int| 0 <= a < n && (#[trigger] assoc.0[a]) is Some ==> 0 <= assoc.0[a]->0 < m && assoc.1[assoc.0[a]->0]
            &&& forall|a: int, b: int| 0 <= a < b < n && (#[trigger] assoc.0[a]) is Some ==> #[trigger] assoc.0[b] != assoc.0[a]
        }),
    decreases n,
{
    lemma_associate_shape(dist, gate, m, n);
    if n > 0 {
        lemma_association_injective(dist, gate, m, n - 1);
        lemma_associate_shape(dist, gate, m, n - 1);
        let prev = associate(dist, gate, m, n - 1);
        let assoc = associate(dist, gate, m, n);
        let c = best_upto(dist[n - 1], prev.1, gate, m);
        lemma_best_upto_range(dist[n - 1], prev.1, gate, m);
        assert forall|a: int| 0 <= a < n && (#[trigger] assoc.0[a]) is Some implies 0 <= assoc.0[a]->0 < m && assoc.1[assoc.0[a]->0] by {
            if a < n - 1 {
                assert(assoc.0[a] == prev.0[a]);
                let j = prev.0[a]->0;
                assert(prev.1[j]);
                if c is Some {
                    assert(assoc.1 == prev.1.update(c->0, true));
                }
            }
        }
        assert forall|a: int, b: int| 0 <= a < b < n && (#[trigger] assoc.0[a]) is Some implies #[trigger] assoc.0[b] != assoc.0[a] by {
            assert(assoc.0[a] == prev.0[a]);
            if b < n - 1 {
                assert(assoc.0[b] == prev.0[b]);
            } else {
                assert(prev.1[prev.0[a]->0]);
            }
        }
    }
}

proof fn lemma_retain(tracks: Seq<Track>, max_coasting: u32, n: int)
    requires
        0 <= n <= tracks.len(),
    ensures
        forall|i: int| 0 <= i < retain_upto(tracks, max_coasting, n).len() ==>
            (#[trigger] retain_upto(tracks, max_coasting, n)[i]).coasting_frames <= max_coasting,
        forall|i: int| 0 <= i < retain_upto(tracks, max_coasting, n).len() ==>
            exists|k: int| 0 <= k < n && #[trigger] retain_upto(tracks, max_coasting, n)[i] == tracks[k],
        ids_increasing(tracks) ==> ids_increasing(retain_upto(tracks, max_coasting, n)),
    decreases n,
{
    if n > 0 {
        lemma_retain(tracks, max_coasting, n - 1);
        let prev = retain_upto(tracks, max_coasting, n - 1);
        let cur = retain_upto(tracks, max_coasting, n);
        assert forall|i: int| 0 <= i < cur.len() implies
            exists|k: int| 0 <= k < n && #[trigger] cur[i] == tracks[k] by {
            if i < prev.len() {
                assert(cur[i] == prev[i]);
                let k = choose|k: int| 0 <= k < n - 1 && prev[i] == tracks[k];
                assert(cur[i] == tracks[k]);
            } else {
                assert(cur[i] == tracks[n - 1]);
            }
        }
        assert forall|i: int| 0 <= i < cur.len() implies (#[trigger] cur[i]).coasting_frames <= max_coasting by {
            if i < prev.len() {
                assert(cur[i] == prev[i]);
            }
        }
        if ids_increasing(tracks) {
            assert forall|a: int, b: int| 0 <= a < b < cur.len() implies (#[trigger] cur[a]).id < (#[trigger] cur[b]).id by {
                assert(cur[a] == prev[a]);
                if b < prev.len() {
                    assert(cur[b] == prev[b]);
                } else {
                    let k = choose|k: int| 0 <= k < n - 1 && prev[a] == tracks[k];
                    assert(cur[b] == tracks[n - 1]);
                }
            }
        }
    }
}

/// A track that has just started: identity `id`, no frame coasted yet.
pub open spec fn fresh_track(id: u32) -> Track {
    Track { id, coasting_frames: 0 }
}

proof fn lemma_retain_keeps(tracks: Seq<Track>, max_coasting: u32, n: int, k: int)
    requires
        0 <= k < n <= tracks.len(),
        tracks[k].coasting_frames <= max_coasting,
    ensures
        retain_upto(tracks, max_coasting, n).contains(tracks[k]),
    decreases n,
{
    let cur = retain_upto(tracks, max_coasting, n);
    let prev = retain_upto(tracks, max_coasting, n - 1);
    if k == n - 1 {
        assert(cur[prev.len() as int] == tracks[k]);
    } else {
        lemma_retain_keeps(tracks, max_coasting, n - 1, k);
        let x = choose|x: int| 0 <= x < prev.len() && prev[x] == tracks[k];
        assert(cur[x] == prev[x]);
    }
}

/// What an update does to each track: a track associated with a measurement
/// is kept with its coasting count reset to 0, whatever it was before; a
/// track left without one is kept, one frame further coasted, exactly when
/// that count stays within the allowed number of frames; and every leftover
/// measurement adds a kept track with the next identities in turn and a
/// coasting count of 0.
pub proof fn lemma_update_track_fates(tr: KalmanTracker, dist: Seq<Vec<Option<u32>>>, gate: u32, n_meas: int)
    requires
        0 <= n_meas,
        tr.update_in_range(dist, gate, n_meas),
    ensures
        ({
            let assoc = tr.spec_association(dist, gate, n_meas);
            let grown = tr.spec_grown(dist, gate, n_meas);
            let after = retain_upto(grown, tr.spec_max_coasting(), grown.len() as int);
            &&& forall|i: int| 0 <= i < tr@.len() && (#[trigger] assoc.0[i]) is Some
                ==> after.contains(Track { id: tr@[i].id, coasting_frames: 0 })
            &&& forall|i: int| 0 <= i < tr@.len() && (#[trigger] assoc.0[i]) is None
                ==> (after.contains(Track { id: tr@[i].id, coasting_frames: (tr@[i].coasting_frames + 1) as u32 })
                    <==> tr@[i].coasting_frames + 1 <= tr.spec_max_coasting())
            &&& forall|k: int| 0 <= k < unassigned_upto(assoc.1, n_meas).len()
                ==> after.contains(#[trigger] fresh_track((tr.spec_next_id() + k) as u32))
        }),
{
    let assoc = tr.spec_association(dist, gate, n_meas);
    let fresh = unassigned_upto(assoc.1, n_meas);
    let c = coast(tr@, assoc.0);
    let sp = spawn(tr.spec_next_id(), fresh.len() as int);
    let grown = tr.spec_grown(dist, gate, n_meas);
    let max = tr.spec_max_coasting();
    let after = retain_upto(grown, max, grown.len() as int);
    lemma_associate_shape(table(dist), gate, n_meas, tr@.len() as int);
    assert(grown == c + sp);
    lemma_retain(grown, max, grown.len() as int);
    assert forall|i: int| 0 <= i < tr@.len() && (#[trigger] assoc.0[i]) is Some
        implies after.contains(Track { id: tr@[i].id, coasting_frames: 0 }) by {
        assert(grown[i] == c[i]);
        lemma_retain_keeps(grown, max, grown.len() as int, i);
    }
    assert forall|i: int| 0 <= i < tr@.len() && (#[trigger] assoc.0[i]) is None
        implies (after.contains(Track { id: tr@[i].id, coasting_frames: (tr@[i].coasting_frames + 1) as u32 })
            <==> tr@[i].coasting_frames + 1 <= max) by {
        let t = Track { id: tr@[i].id, coasting_frames: (tr@[i].coasting_frames + 1) as u32 };
        assert(grown[i] == c[i]);
        assert(c[i] == t);
        if tr@[i].coasting_frames + 1 <= max {
            lemma_retain_keeps(grown, max, grown.len() as int, i);
        }
        if after.contains(t) {
            let x = choose|x: int| 0 <= x < after.len() && after[x] == t;
            assert(after[x].coasting_frames <= max);
        }
    }
    assert forall|k: int| 0 <= k < fresh.len()
        implies after.contains(#[trigger] fresh_track((tr.spec_next_id() + k) as u32)) by {
        assert(grown[c.len() + k] == sp[k]);
        lemma_retain_keeps(grown, max, grown.len() as int, c.len() + k);
    }
}

/// After an update, no track has coasted more than the allowed number of frames.
pub proof fn lemma_update_prunes_coasted(tr: KalmanTracker, dist: Seq<Vec<Option<u32>>>, gate: u32, n_meas: int)
    ensures
        ({
            let grown = tr.spec_grown(dist, gate, n_meas);
            let after = retain_upto(grown, tr.spec_max_coasting(), grown.len() as int);
            forall|i: int| 0 <= i < after.len() ==> (#[trigger] after[i]).coasting_frames <= tr.spec_max_coasting()
        }),
{
    let grown = tr.spec_grown(dist, gate, n_meas);
    lemma_retain(grown, tr.spec_max_coasting(), grown.len() as int);
}

/// Every update keeps the track identities strictly increasing along the
/// list and below the next identity to be handed out; in particular no two
/// tracks share an identity.
pub proof fn lemma_update_keeps_ids_ordered(tr: KalmanTracker, dist: Seq<Vec<Option<u32>>>, gate: u32, n_meas: int)
    requires
        ids_ordered(tr@, tr.spec_next_id()),
        0 <= n_meas,
        tr.spec_next_id() + unassigned_upto(tr.spec_association(dist, gate, n_meas).1, n_meas).len() <= u32::MAX,
    ensures
        ({
            let grown = tr.spec_grown(dist, gate, n_meas);
            let fresh = unassigned_upto(tr.spec_association(dist, gate, n_meas).1, n_meas);
            ids_ordered(
                retain_upto(grown, tr.spec_max_coasting(), grown.len() as int),
                (tr.spec_next_id() + fresh.len()) as u32,
            )
        }),
{
    let assoc = tr.spec_association(dist, gate, n_meas);
    let fresh = unassigned_upto(assoc.1, n_meas);
    let c = coast(tr@, assoc.0);
    let sp = spawn(tr.spec_next_id(), fresh.len() as int);
    let grown = tr.spec_grown(dist, gate, n_meas);
    let top = (tr.spec_next_id() + fresh.len()) as u32;
    assert(grown == c + sp);
    assert forall|a: int| 0 <= a < grown.len() implies (#[trigger] grown[a]).id < top by {
        if a < c.len() {
            assert(grown[a] == c[a]);
            assert(tr@[a].id < tr.spec_next_id());
        } else {
            assert(grown[a] == sp[a - c.len()]);
        }
    }
    assert(ids_increasing(grown)) by {
        assert forall|a: int, b: int| 0 <= a < b < grown.len() implies (#[trigger] grown[a]).id < (#[trigger] grown[b]).id by {
            if b < c.len() {
                assert(grown[a] == c[a]);
                assert(grown[b] == c[b]);
                assert(tr@[a].id < tr@[b].id);
            } else if a < c.len() {
                assert(grown[a] == c[a]);
                assert(tr@[a].id < tr.spec_next_id());
                assert(grown[b] == sp[b - c.len()]);
            } else {
                assert(grown[a] == sp[a - c.len()]);
                assert(grown[b] == sp[b - c.len()]);
            }
        }
    }
    lemma_retain(grown, tr.spec_max_coasting(), grown.len() as int);
    let after = retain_upto(grown, tr.spec_max_coasting(), grown.len() as int);
    assert forall|a: int| 0 <= a < after.len() implies (#[trigger] after[a]).id < top by {
        let k = choose|k: int| 0 <= k < grown.len() && after[a] == grown[k];
    }
}

} // verus!
