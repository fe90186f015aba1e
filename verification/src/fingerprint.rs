//! Acoustic fingerprinting by spectrogram constellation peak hashing.
//!
//! A spectrogram enters the library as a grid of order keys (see
//! [`crate::order::order_key`]), one per time frame and frequency bin.
use crate::order::{key_le, key_lt, less, less_eq};
use std::collections::HashMap;
use vstd::prelude::*;

verus! {

/// A magnitude spectrogram of shape `(n_frames, n_bins)` whose cells are
/// order keys of the spectral values.
pub struct KeySpectrogram {
    rows: Vec<Vec<Option<u32>>>,
    n_bins: usize,
}

/// A grid that can serve as a spectrogram: every row has `n_bins` cells,
/// and frame and bin indices fit the signed 32-bit range.
pub open spec fn is_grid(rows: Seq<Seq<Option<u32>>>, n_bins: int) -> bool {
    &&& rows.len() <= i32::MAX
    &&& 0 <= n_bins <= i32::MAX
    &&& forall|t: int| 0 <= t < rows.len() ==> #[trigger] rows[t].len() == n_bins
}

impl View for KeySpectrogram {
    type V = Seq<Seq<Option<u32>>>;

    closed spec fn view(&self) -> Seq<Seq<Option<u32>>> {
        self.rows@.map_values(|r: Vec<Option<u32>>| r@)
    }
}

impl KeySpectrogram {
    #[verifier::type_invariant]
    closed spec fn wf(self) -> bool {
        is_grid(self@, self.n_bins as int)
    }

    /// Number of frequency bins per frame.
    pub closed spec fn width(&self) -> int {
        self.n_bins as int
    }

    /// Build a spectrogram from its rows; `None` unless every row has
    /// `n_bins` cells and both dimensions fit the signed 32-bit range.
    pub fn from_rows(rows: Vec<Vec<Option<u32>>>, n_bins: usize) -> (res: Option<Self>)
        ensures
            res is Some <== is_grid(rows@.map_values(|r: Vec<Option<u32>>| r@), n_bins as int),
            res is Some ==> is_grid(rows@.map_values(|r: Vec<Option<u32>>| r@), n_bins as int),
            res matches Some(s) ==> s@ == rows@.map_values(|r: Vec<Option<u32>>| r@) && s.width() == n_bins,
    {
        let ghost grid = rows@.map_values(|r: Vec<Option<u32>>| r@);
        if rows.len() > 0x7fff_ffff || n_bins > 0x7fff_ffff {
            return None;
        }
        let mut t: usize = 0;
        while t < rows.len()
            invariant
                t <= rows@.len(),
                grid == rows@.map_values(|r: Vec<Option<u32>>| r@),
                forall|k: int| 0 <= k < t ==> #[trigger] grid[k].len() == n_bins,
            decreases rows@.len() - t,
        {
            if rows[t].len() != n_bins {
                assert(grid[t as int].len() != n_bins);
                return None;
            }
            t = t + 1;
        }
        Some(KeySpectrogram { rows, n_bins })
    }

    /// Number of time frames.
    pub fn n_frames(&self) -> (n: usize)
        ensures
            n == self@.len(),
    {
        self.rows.len()
    }

    /// Number of frequency bins per frame.
    pub fn n_bins(&self) -> (n: usize)
        ensures
            n == self.width(),
    {
        self.n_bins
    }

    /// The key at frame `t`, bin `f`.
    pub fn get(&self, t: usize, f: usize) -> (k: Option<u32>)
        requires
            t < self@.len(),
            f < self.width(),
        ensures
            k == self@[t as int][f as int],
    {
        proof {
            use_type_invariant(self);
            assert(self@[t as int] == self.rows@[t as int]@);
        }
        self.rows[t][f]
    }
}

/// A single acoustic fingerprint hash.
#[derive(Debug, Clone, Copy, PartialEq, Eq, Hash, Structural)]
pub struct FingerprintHash {
    /// Frequency bin of anchor peak.
    pub freq1: u32,
    /// Frequency bin of paired peak.
    pub freq2: u32,
    /// Time delta between anchor and paired peak (in frames).
    pub delta_frames: u32,
}

/// Each of the eight neighbours of cell `(t, f)` compares at most equal to
/// it (so neither the cell nor a neighbour is NaN).
pub open spec fn dominates_neighbours(g: Seq<Seq<Option<u32>>>, t: int, f: int) -> bool {
    let v = g[t][f];
    &&& key_le(g[t - 1][f - 1], v)
    &&& key_le(g[t - 1][f], v)
    &&& key_le(g[t - 1][f + 1], v)
    &&& key_le(g[t][f - 1], v)
    &&& key_le(g[t][f + 1], v)
    &&& key_le(g[t + 1][f - 1], v)
    &&& key_le(g[t + 1][f], v)
    &&& key_le(g[t + 1][f + 1], v)
}

/// Cell `(t, f)` is a constellation peak: an interior cell that does not
/// compare below the threshold and is a local maximum of its 3x3 neighbourhood.
pub open spec fn is_peak(g: Seq<Seq<Option<u32>>>, n_bins: int, threshold: Option<u32>, t: int, f: int) -> bool {
    &&& 1 <= t < g.len() - 1
    &&& 1 <= f < n_bins - 1
    &&& !key_lt(g[t][f], threshold)
    &&& dominates_neighbours(g, t, f)
}

/// Peaks of frame `t` among bins `1 .. f_end`, in increasing bin order.
pub open spec fn row_peaks(g: Seq<Seq<Option<u32>>>, n_bins: int, threshold: Option<u32>, t: int, f_end: int) -> Seq<(u32, u32)>
    decreases f_end,
{
    if f_end <= 1 {
        seq![]
    } else {
        row_peaks(g, n_bins, threshold, t, f_end - 1) + if is_peak(g, n_bins, threshold, t, f_end - 1) {
            seq![(t as u32, (f_end - 1) as u32)]
        } else {
            seq![]
        }
    }
}

/// Peaks of frames `1 .. t_end`, frame by frame.
pub open spec fn rows_peaks(g: Seq<Seq<Option<u32>>>, n_bins: int, threshold: Option<u32>, t_end: int) -> Seq<(u32, u32)>
    decreases t_end,
{
    if t_end <= 1 {
        seq![]
    } else {
        rows_peaks(g, n_bins, threshold, t_end - 1) + row_peaks(g, n_bins, threshold, t_end - 1, n_bins - 1)
    }
}

/// All constellation peaks `(frame, bin)` of a spectrogram in row-major order.
pub open spec fn peak_list(g: Seq<Seq<Option<u32>>>, n_bins: int, threshold: Option<u32>) -> Seq<(u32, u32)> {
    rows_peaks(g, n_bins, threshold, g.len() - 1)
}

/// Whether cell `(t, f)` is a constellation peak.
fn peak_at(spectrogram: &KeySpectrogram, threshold: Option<u32>, t: usize, f: usize) -> (b: bool)
    requires
        1 <= t < spectrogram@.len() - 1,
        1 <= f < spectrogram.width() - 1,
    ensures
        b == is_peak(spectrogram@, spectrogram.width(), threshold, t as int, f as int),
{
    proof {
        use_type_invariant(spectrogram);
    }
    let v = spectrogram.get(t, f);
    if less(v, threshold) {
        return false;
    }
    less_eq(spectrogram.get(t - 1, f - 1), v) && less_eq(spectrogram.get(t - 1, f), v)
        && less_eq(spectrogram.get(t - 1, f + 1), v) && less_eq(spectrogram.get(t, f - 1), v)
        && less_eq(spectrogram.get(t, f + 1), v) && less_eq(spectrogram.get(t + 1, f - 1), v)
        && less_eq(spectrogram.get(t + 1, f), v) && less_eq(spectrogram.get(t + 1, f + 1), v)
}

/// Constellation peaks `(frame, bin)` of a spectrogram, in row-major order.
fn constellation_peaks(spectrogram: &KeySpectrogram, threshold: Option<u32>) -> (peaks: Vec<(u32, u32)>)
    ensures
        peaks@ == peak_list(spectrogram@, spectrogram.width(), threshold),
{
    proof {
        use_type_invariant(spectrogram);
    }
    let ghost g = spectrogram@;
    let ghost nb = spectrogram.width();
    let n_frames = spectrogram.n_frames();
    let n_bins = spectrogram.n_bins();
    let t_end: usize = if n_frames >= 1 { n_frames - 1 } else { 0 };
    let f_end: usize = if n_bins >= 1 { n_bins - 1 } else { 0 };
    let mut peaks: Vec<(u32, u32)> = Vec::new();
    let mut t: usize = 1;
    while t < t_end
        invariant
            g == spectrogram@,
            nb == spectrogram.width(),
            n_frames == g.len(),
            n_bins == nb,
            t_end == (if n_frames >= 1 { n_frames - 1 } else { 0 }),
            f_end == (if n_bins >= 1 { n_bins - 1 } else { 0 }),
            1 <= t,
            t <= t_end || t == 1,
            is_grid(g, nb),
            peaks@ == rows_peaks(g, nb, threshold, t as int),
        decreases t_end - t,
    {
        let mut f: usize = 1;
        while f < f_end
            invariant
                g == spectrogram@,
                nb == spectrogram.width(),
                n_frames == g.len(),
                n_bins == nb,
                1 <= t < t_end,
                t_end == n_frames - 1,
                f_end == (if n_bins >= 1 { n_bins - 1 } else { 0 }),
                1 <= f,
                f <= f_end || f == 1,
                is_grid(g, nb),
                peaks@ == rows_peaks(g, nb, threshold, t as int) + row_peaks(g, nb, threshold, t as int, f as int),
            decreases f_end - f,
        {
            let ghost before = peaks@;
            if peak_at(spectrogram, threshold, t, f) {
                peaks.push((t as u32, f as u32));
            }
            proof {
                let rp = row_peaks(g, nb, threshold, t as int, f as int);
                assert(row_peaks(g, nb, threshold, t as int, f + 1) == rp + if is_peak(g, nb, threshold, t as int, f as int) {
                    seq![(t as u32, f as u32)]
                } else {
                    seq![]
                });
                assert(peaks@ =~= rows_peaks(g, nb, threshold, t as int) + row_peaks(g, nb, threshold, t as int, f + 1));
            }
            f = f + 1;
        }
        proof {
            assert(row_peaks(g, nb, threshold, t as int, f as int) == row_peaks(g, nb, threshold, t as int, nb - 1));
            assert(rows_peaks(g, nb, threshold, t + 1) == rows_peaks(g, nb, threshold, t as int) + row_peaks(g, nb, threshold, t as int, nb - 1));
        }
        t = t + 1;
    }
    proof {
        assert(rows_peaks(g, nb, threshold, t as int) == rows_peaks(g, nb, threshold, g.len() - 1));
    }
    peaks
}

/// Peak `p` lies strictly after frame `t1` and at most `window` frames later.
pub open spec fn is_partner(t1: u32, window: u32, p: (u32, u32)) -> bool {
    &&& p.0 > t1
    &&& p.0 <= t1 + window
}

/// The first `budget` peaks from position `from` on that pair with an
/// anchor at frame `t1` (the fan-out partners of that anchor).
pub open spec fn partners(peaks: Seq<(u32, u32)>, t1: u32, window: u32, from: int, budget: nat) -> Seq<(u32, u32)>
    decreases peaks.len() - from,
{
    if from >= peaks.len() || budget == 0 || from < 0 {
        seq![]
    } else if is_partner(t1, window, peaks[from]) {
        seq![peaks[from]] + partners(peaks, t1, window, from + 1, (budget - 1) as nat)
    } else {
        partners(peaks, t1, window, from + 1, budget)
    }
}

/// The hash of an anchor peak `(t1, f1)` paired with partner `p`, with the
/// anchor's frame.
pub open spec fn pair_hash(t1: u32, f1: u32, p: (u32, u32)) -> (FingerprintHash, u32) {
    (FingerprintHash { freq1: f1, freq2: p.1, delta_frames: (p.0 - t1) as u32 }, t1)
}

/// Hashes generated by the anchor at position `i` of the peak list.
pub open spec fn anchor_hashes(peaks: Seq<(u32, u32)>, fan_out: nat, window: u32, i: int) -> Seq<(FingerprintHash, u32)> {
    let t1 = peaks[i].0;
    let f1 = peaks[i].1;
    partners(peaks, t1, window, i + 1, fan_out).map_values(|p: (u32, u32)| pair_hash(t1, f1, p))
}

/// Hashes generated by the anchors at positions `0 .. n`, anchor by anchor.
pub open spec fn hashes_upto(peaks: Seq<(u32, u32)>, fan_out: nat, window: u32, n: int) -> Seq<(FingerprintHash, u32)>
    decreases n,
{
    if n <= 0 {
        seq![]
    } else {
        hashes_upto(peaks, fan_out, window, n - 1) + anchor_hashes(peaks, fan_out, window, n - 1)
    }
}

/// All `(hash, anchor frame)` pairs of a peak list under the fan-out pairing.
pub open spec fn hash_list(peaks: Seq<(u32, u32)>, fan_out: nat, window: u32) -> Seq<(FingerprintHash, u32)> {
    hashes_upto(peaks, fan_out, window, peaks.len() as int)
}

/// Pair each peak with up to `fan_out` later peaks of the list that lie at
/// most `window` frames after it.
fn pair_peaks(peaks: &[(u32, u32)], fan_out: usize, window: u32) -> (hashes: Vec<(FingerprintHash, u32)>)
    ensures
        hashes@ == hash_list(peaks@, fan_out as nat, window),
{
    let mut hashes: Vec<(FingerprintHash, u32)> = Vec::new();
    let n = peaks.len();
    let mut i: usize = 0;
    while i < n
        invariant
            n == peaks@.len(),
            i <= n,
            hashes@ == hashes_upto(peaks@, fan_out as nat, window, i as int),
        decreases n - i,
    {
        let (t1, f1) = peaks[i];
        let ghost all = partners(peaks@, t1, window, i + 1, fan_out as nat);
        let ghost mut taken_seq: Seq<(u32, u32)> = seq![];
        let mut taken: usize = 0;
        let mut j: usize = i + 1;
        while j < n && taken < fan_out
            invariant
                n == peaks@.len(),
                i < n,
                i + 1 <= j <= n,
                (t1, f1) == peaks@[i as int],
                taken <= fan_out,
                taken == taken_seq.len(),
                all == partners(peaks@, t1, window, i + 1, fan_out as nat),
                all == taken_seq + partners(peaks@, t1, window, j as int, (fan_out - taken) as nat),
                hashes@ == hashes_upto(peaks@, fan_out as nat, window, i as int)
                    + taken_seq.map_values(|p: (u32, u32)| pair_hash(t1, f1, p)),
            decreases n - j,
        {
            let (t2, f2) = peaks[j];
            if t2 > t1 && (t2 as u64) <= (t1 as u64) + (window as u64) {
                hashes.push((FingerprintHash { freq1: f1, freq2: f2, delta_frames: t2 - t1 }, t1));
                proof {
                    let rest = partners(peaks@, t1, window, j + 1, (fan_out - taken - 1) as nat);
                    assert(partners(peaks@, t1, window, j as int, (fan_out - taken) as nat) == seq![(t2, f2)] + rest);
                    assert(all =~= taken_seq.push((t2, f2)) + rest);
                    assert(taken_seq.push((t2, f2)).map_values(|p: (u32, u32)| pair_hash(t1, f1, p))
                        =~= taken_seq.map_values(|p: (u32, u32)| pair_hash(t1, f1, p)).push(pair_hash(t1, f1, (t2, f2))));
                    taken_seq = taken_seq.push((t2, f2));
                }
                taken = taken + 1;
            }
            j = j + 1;
        }
        proof {
            assert(partners(peaks@, t1, window, j as int, (fan_out - taken) as nat) == Seq::<(u32, u32)>::empty());
            assert(all =~= taken_seq);
            assert(hashes_upto(peaks@, fan_out as nat, window, i + 1)
                == hashes_upto(peaks@, fan_out as nat, window, i as int) + anchor_hashes(peaks@, fan_out as nat, window, i as int));
        }
        i = i + 1;
    }
    hashes
}

proof fn lemma_row_peaks_sound(g: Seq<Seq<Option<u32>>>, nb: int, thr: Option<u32>, t: int, f_end: int)
    requires
        0 <= t <= i32::MAX,
        f_end <= nb <= i32::MAX,
    ensures
        forall|i: int| 0 <= i < row_peaks(g, nb, thr, t, f_end).len() ==> {
            let p = #[trigger] row_peaks(g, nb, thr, t, f_end)[i];
            &&& p.0 as int == t
            &&& is_peak(g, nb, thr, t, p.1 as int)
            &&& (p.1 as int) < f_end
        },
    decreases f_end,
{
    if f_end > 1 {
        lemma_row_peaks_sound(g, nb, thr, t, f_end - 1);
        let a = row_peaks(g, nb, thr, t, f_end - 1);
        assert forall|i: int| 0 <= i < row_peaks(g, nb, thr, t, f_end).len() implies {
            let p = #[trigger] row_peaks(g, nb, thr, t, f_end)[i];
            &&& p.0 as int == t
            &&& is_peak(g, nb, thr, t, p.1 as int)
            &&& (p.1 as int) < f_end
        } by {
            if i < a.len() {
                assert(row_peaks(g, nb, thr, t, f_end)[i] == a[i]);
            } else {
                assert(row_peaks(g, nb, thr, t, f_end)[i] == (t as u32, (f_end - 1) as u32));
            }
        }
    }
}

proof fn lemma_rows_peaks_sound(g: Seq<Seq<Option<u32>>>, nb: int, thr: Option<u32>, t_end: int)
    requires
        g.len() <= i32::MAX,
        nb <= i32::MAX,
        t_end <= g.len(),
    ensures
        forall|i: int| 0 <= i < rows_peaks(g, nb, thr, t_end).len() ==> {
            let p = #[trigger] rows_peaks(g, nb, thr, t_end)[i];
            &&& is_peak(g, nb, thr, p.0 as int, p.1 as int)
            &&& (p.0 as int) < t_end
        },
    decreases t_end,
{
    if t_end > 1 {
        lemma_rows_peaks_sound(g, nb, thr, t_end - 1);
        lemma_row_peaks_sound(g, nb, thr, t_end - 1, nb - 1);
        let a = rows_peaks(g, nb, thr, t_end - 1);
        let b = row_peaks(g, nb, thr, t_end - 1, nb - 1);
        assert forall|i: int| 0 <= i < rows_peaks(g, nb, thr, t_end).len() implies {
            let p = #[trigger] rows_peaks(g, nb, thr, t_end)[i];
            &&& is_peak(g, nb, thr, p.0 as int, p.1 as int)
            &&& (p.0 as int) < t_end
        } by {
            if i < a.len() {
                assert(rows_peaks(g, nb, thr, t_end)[i] == a[i]);
            } else {
                assert(rows_peaks(g, nb, thr, t_end)[i] == b[i - a.len()]);
            }
        }
    }
}

/// Every listed peak is a constellation peak of the spectrogram.
proof fn lemma_peak_list_sound(g: Seq<Seq<Option<u32>>>, nb: int, thr: Option<u32>)
    requires
        is_grid(g, nb),
    ensures
        forall|i: int| 0 <= i < peak_list(g, nb, thr).len() ==> {
            let p = #[trigger] peak_list(g, nb, thr)[i];
            is_peak(g, nb, thr, p.0 as int, p.1 as int)
        },
{
    lemma_rows_peaks_sound(g, nb, thr, g.len() - 1);
}

proof fn lemma_row_peaks_complete(g: Seq<Seq<Option<u32>>>, nb: int, thr: Option<u32>, t: int, f_end: int, f: int)
    requires
        0 <= t <= i32::MAX,
        f_end <= nb <= i32::MAX,
        f < f_end,
        is_peak(g, nb, thr, t, f),
    ensures
        row_peaks(g, nb, thr, t, f_end).contains((t as u32, f as u32)),
    decreases f_end,
{
    let cur = row_peaks(g, nb, thr, t, f_end);
    if f == f_end - 1 {
        assert(cur[cur.len() - 1] == (t as u32, f as u32));
    } else {
        lemma_row_peaks_complete(g, nb, thr, t, f_end - 1, f);
        let prev = row_peaks(g, nb, thr, t, f_end - 1);
        let i = choose|i: int| 0 <= i < prev.len() && prev[i] == (t as u32, f as u32);
        assert(cur[i] == prev[i]);
    }
}

proof fn lemma_rows_peaks_complete(g: Seq<Seq<Option<u32>>>, nb: int, thr: Option<u32>, t_end: int, t: int, f: int)
    requires
        g.len() <= i32::MAX,
        nb <= i32::MAX,
        t_end <= g.len(),
        t < t_end,
        is_peak(g, nb, thr, t, f),
    ensures
        rows_peaks(g, nb, thr, t_end).contains((t as u32, f as u32)),
    decreases t_end,
{
    let cur = rows_peaks(g, nb, thr, t_end);
    let prev = rows_peaks(g, nb, thr, t_end - 1);
    if t == t_end - 1 {
        lemma_row_peaks_complete(g, nb, thr, t, nb - 1, f);
        let row = row_peaks(g, nb, thr, t, nb - 1);
        let i = choose|i: int| 0 <= i < row.len() && row[i] == (t as u32, f as u32);
        assert(cur[prev.len() + i] == row[i]);
    } else {
        lemma_rows_peaks_complete(g, nb, thr, t_end - 1, t, f);
        let i = choose|i: int| 0 <= i < prev.len() && prev[i] == (t as u32, f as u32);
        assert(cur[i] == prev[i]);
    }
}

/// The peak list holds exactly the constellation peaks: every listed cell is
/// a local maximum at or above the threshold, and every such cell is listed.
pub proof fn lemma_peak_list_exact(g: Seq<Seq<Option<u32>>>, nb: int, thr: Option<u32>)
    requires
        is_grid(g, nb),
    ensures
        forall|i: int| 0 <= i < peak_list(g, nb, thr).len() ==> {
            let p = #[trigger] peak_list(g, nb, thr)[i];
            is_peak(g, nb, thr, p.0 as int, p.1 as int)
        },
        forall|t: int, f: int| #[trigger] is_peak(g, nb, thr, t, f) ==> peak_list(g, nb, thr).contains((t as u32, f as u32)),
{
    lemma_peak_list_sound(g, nb, thr);
    assert forall|t: int, f: int| #[trigger] is_peak(g, nb, thr, t, f) implies peak_list(g, nb, thr).contains((t as u32, f as u32)) by {
        lemma_rows_peaks_complete(g, nb, thr, g.len() - 1, t, f);
    }
}

/// A cell is listed as a peak exactly when it is an interior cell that does
/// not compare below the threshold and every cell of its 3x3 neighbourhood
/// (frame and bin distance at most 1) compares at most equal to it.
pub proof fn lemma_peak_is_local_maximum(g: Seq<Seq<Option<u32>>>, nb: int, thr: Option<u32>, t: int, f: int)
    requires
        is_grid(g, nb),
        0 <= t <= u32::MAX,
        0 <= f <= u32::MAX,
    ensures
        peak_list(g, nb, thr).contains((t as u32, f as u32)) <==> {
            &&& 1 <= t < g.len() - 1
            &&& 1 <= f < nb - 1
            &&& !key_lt(g[t][f], thr)
            &&& forall|a: int, b: int| t - 1 <= a <= t + 1 && f - 1 <= b <= f + 1 ==> key_le(#[trigger] g[a][b], g[t][f])
        },
{
    lemma_peak_list_exact(g, nb, thr);
    let ps = peak_list(g, nb, thr);
    if ps.contains((t as u32, f as u32)) {
        let i = choose|i: int| 0 <= i < ps.len() && ps[i] == (t as u32, f as u32);
        assert(is_peak(g, nb, thr, ps[i].0 as int, ps[i].1 as int));
        assert(is_peak(g, nb, thr, t, f));
        assert forall|a: int, b: int| t - 1 <= a <= t + 1 && f - 1 <= b <= f + 1 implies key_le(#[trigger] g[a][b], g[t][f]) by {
            assert(key_le(g[t - 1][f - 1], g[t][f]));
            if a == t - 1 {
                if b == f - 1 {
                } else if b == f {
                } else {
                }
            } else if a == t {
                if b == f - 1 {
                } else if b == f {
                } else {
                }
            } else {
                if b == f - 1 {
                } else if b == f {
                } else {
                }
            }
        }
    }
    if 1 <= t < g.len() - 1 && 1 <= f < nb - 1 && !key_lt(g[t][f], thr)
        && forall|a: int, b: int| t - 1 <= a <= t + 1 && f - 1 <= b <= f + 1 ==> key_le(#[trigger] g[a][b], g[t][f]) {
        assert(key_le(g[t - 1][f - 1], g[t][f]));
        assert(key_le(g[t - 1][f], g[t][f]));
        assert(key_le(g[t - 1][f + 1], g[t][f]));
        assert(key_le(g[t][f - 1], g[t][f]));
        assert(key_le(g[t][f + 1], g[t][f]));
        assert(key_le(g[t + 1][f - 1], g[t][f]));
        assert(key_le(g[t + 1][f], g[t][f]));
        assert(key_le(g[t + 1][f + 1], g[t][f]));
        assert(is_peak(g, nb, thr, t, f));
    }
}

/// Whether a cell is a peak depends only on the threshold and its 3x3
/// neighbourhood: two spectrograms of the same shape that agree on that
/// neighbourhood agree on whether the cell is listed, whatever they hold elsewhere.
pub proof fn lemma_peak_depends_on_neighbourhood(
    g1: Seq<Seq<Option<u32>>>,
    g2: Seq<Seq<Option<u32>>>,
    nb: int,
    thr: Option<u32>,
    t: int,
    f: int,
)
    requires
        is_grid(g1, nb),
        is_grid(g2, nb),
        g1.len() == g2.len(),
        0 <= t <= u32::MAX,
        0 <= f <= u32::MAX,
        forall|a: int, b: int| t - 1 <= a <= t + 1 && f - 1 <= b <= f + 1 && 0 <= a < g1.len() && 0 <= b < nb
            ==> #[trigger] g1[a][b] == g2[a][b],
    ensures
        peak_list(g1, nb, thr).contains((t as u32, f as u32)) <==> peak_list(g2, nb, thr).contains((t as u32, f as u32)),
{
    lemma_peak_is_local_maximum(g1, nb, thr, t, f);
    lemma_peak_is_local_maximum(g2, nb, thr, t, f);
    if 1 <= t < g1.len() - 1 && 1 <= f < nb - 1 {
        assert(g1[t][f] == g2[t][f]);
        let v1 = g1[t][f];
        let v2 = g2[t][f];
        if forall|a: int, b: int| t - 1 <= a <= t + 1 && f - 1 <= b <= f + 1 ==> key_le(#[trigger] g1[a][b], v1) {
            assert forall|a: int, b: int| t - 1 <= a <= t + 1 && f - 1 <= b <= f + 1 implies key_le(#[trigger] g2[a][b], v2) by {
                assert(g1[a][b] == g2[a][b]);
            }
        }
        if forall|a: int, b: int| t - 1 <= a <= t + 1 && f - 1 <= b <= f + 1 ==> key_le(#[trigger] g2[a][b], v2) {
            assert forall|a: int, b: int| t - 1 <= a <= t + 1 && f - 1 <= b <= f + 1 implies key_le(#[trigger] g1[a][b], v1) by {
                assert(g1[a][b] == g2[a][b]);
                assert(key_le(g2[a][b], v2));
            }
        }
    }
}

proof fn lemma_partners_from(peaks: Seq<(u32, u32)>, t1: u32, w: u32, from: int, budget: nat)
    ensures
        forall|i: int| 0 <= i < partners(peaks, t1, w, from, budget).len() ==>
            is_partner(t1, w, #[trigger] partners(peaks, t1, w, from, budget)[i]),
    decreases peaks.len() - from,
{
    if from >= peaks.len() || budget == 0 || from < 0 {
    } else if is_partner(t1, w, peaks[from]) {
        lemma_partners_from(peaks, t1, w, from + 1, (budget - 1) as nat);
        let rest = partners(peaks, t1, w, from + 1, (budget - 1) as nat);
        assert forall|i: int| 0 <= i < partners(peaks, t1, w, from, budget).len() implies
            is_partner(t1, w, #[trigger] partners(peaks, t1, w, from, budget)[i]) by {
            if i > 0 {
                assert(partners(peaks, t1, w, from, budget)[i] == rest[i - 1]);
            } else {
                assert(partners(peaks, t1, w, from, budget)[0] == peaks[from]);
            }
        }
    } else {
        lemma_partners_from(peaks, t1, w, from + 1, budget);
        assert(partners(peaks, t1, w, from, budget) == partners(peaks, t1, w, from + 1, budget));
    }
}

/// The peaks from position `from` on, in list order, that lie 1 to `window`
/// frames after frame `t1`.
pub open spec fn window_peaks(peaks: Seq<(u32, u32)>, t1: u32, window: u32, from: int) -> Seq<(u32, u32)> {
    peaks.subrange(from, peaks.len() as int).filter(|p: (u32, u32)| t1 < p.0 && p.0 <= t1 + window)
}

/// The fan-out partners taken from position `from` on are the first
/// `min(budget, q)` of the `q` peaks from there on that lie 1 to `window`
/// frames after `t1`: peaks outside that window are skipped and never use up
/// the budget.
pub proof fn lemma_partners_first_in_window(peaks: Seq<(u32, u32)>, t1: u32, window: u32, from: int, budget: nat)
    requires
        0 <= from <= peaks.len(),
    ensures
        partners(peaks, t1, window, from, budget) == window_peaks(peaks, t1, window, from).take(
            if budget < window_peaks(peaks, t1, window, from).len() {
                budget as int
            } else {
                window_peaks(peaks, t1, window, from).len() as int
            },
        ),
        partners(peaks, t1, window, from, budget).len() == if budget < window_peaks(peaks, t1, window, from).len() {
            budget as int
        } else {
            window_peaks(peaks, t1, window, from).len() as int
        },
    decreases peaks.len() - from,
{
    let pred = |p: (u32, u32)| t1 < p.0 && p.0 <= t1 + window;
    let cand = window_peaks(peaks, t1, window, from);
    let res = partners(peaks, t1, window, from, budget);
    if from == peaks.len() {
        assert(peaks.subrange(from, peaks.len() as int) =~= Seq::<(u32, u32)>::empty());
        reveal(Seq::filter);
        assert(cand.len() == 0);
        assert(res =~= cand.take(0));
    } else {
        let x = peaks[from];
        let tail = peaks.subrange(from + 1, peaks.len() as int);
        assert(peaks.subrange(from, peaks.len() as int) =~= seq![x] + tail);
        tail.lemma_filter_prepend(x, pred);
        let rest = window_peaks(peaks, t1, window, from + 1);
        if is_partner(t1, window, x) {
            assert(cand =~= seq![x] + rest);
            if budget == 0 {
                assert(res =~= cand.take(0));
            } else {
                lemma_partners_first_in_window(peaks, t1, window, from + 1, (budget - 1) as nat);
                let k: int = if budget < cand.len() { budget as int } else { cand.len() as int };
                assert(res == seq![x] + partners(peaks, t1, window, from + 1, (budget - 1) as nat));
                assert(res =~= cand.take(k));
            }
        } else {
            assert(cand =~= rest);
            if budget == 0 {
                assert(res =~= cand.take(0));
            } else {
                lemma_partners_first_in_window(peaks, t1, window, from + 1, budget);
            }
        }
    }
}

/// The hashes of the anchor at position `i` pair it with the first
/// `min(fan_out, q)` of the `q` later peaks of the list that lie 1 to
/// `window` frames after it, in list order.
pub proof fn lemma_anchor_hashes_first_in_window(peaks: Seq<(u32, u32)>, fan_out: nat, window: u32, i: int)
    requires
        0 <= i < peaks.len(),
    ensures
        anchor_hashes(peaks, fan_out, window, i) == window_peaks(peaks, peaks[i].0, window, i + 1).take(
            if fan_out < window_peaks(peaks, peaks[i].0, window, i + 1).len() {
                fan_out as int
            } else {
                window_peaks(peaks, peaks[i].0, window, i + 1).len() as int
            },
        ).map_values(|p: (u32, u32)| pair_hash(peaks[i].0, peaks[i].1, p)),
{
    lemma_partners_first_in_window(peaks, peaks[i].0, window, i + 1, fan_out);
}

/// Every hash anchor frame is the frame of some peak, so a bound on the
/// peak frames bounds the anchors.
proof fn lemma_hash_anchors_bounded(peaks: Seq<(u32, u32)>, fan: nat, w: u32, n: int, bound: int)
    requires
        n <= peaks.len(),
        forall|i: int| 0 <= i < peaks.len() ==> (#[trigger] peaks[i]).0 <= bound,
    ensures
        forall|j: int| 0 <= j < hashes_upto(peaks, fan, w, n).len() ==> (#[trigger] hashes_upto(peaks, fan, w, n)[j]).1 <= bound,
    decreases n,
{
    if n > 0 {
        lemma_hash_anchors_bounded(peaks, fan, w, n - 1, bound);
        let a = hashes_upto(peaks, fan, w, n - 1);
        let b = anchor_hashes(peaks, fan, w, n - 1);
        assert forall|j: int| 0 <= j < hashes_upto(peaks, fan, w, n).len() implies (#[trigger] hashes_upto(peaks, fan, w, n)[j]).1 <= bound by {
            if j < a.len() {
                assert(hashes_upto(peaks, fan, w, n)[j] == a[j]);
            } else {
                assert(hashes_upto(peaks, fan, w, n)[j] == b[j - a.len()]);
                assert(b[j - a.len()].1 == peaks[n - 1].0);
            }
        }
    }
}

proof fn lemma_hashes_upto_in_window(peaks: Seq<(u32, u32)>, fan: nat, w: u32, n: int)
    requires
        n <= peaks.len(),
    ensures
        forall|j: int| 0 <= j < hashes_upto(peaks, fan, w, n).len() ==> {
            let d = (#[trigger] hashes_upto(peaks, fan, w, n)[j]).0.delta_frames;
            1 <= d <= w
        },
    decreases n,
{
    if n > 0 {
        lemma_hashes_upto_in_window(peaks, fan, w, n - 1);
        let a = hashes_upto(peaks, fan, w, n - 1);
        let b = anchor_hashes(peaks, fan, w, n - 1);
        let t1 = peaks[n - 1].0;
        let ps = partners(peaks, t1, w, n, fan);
        lemma_partners_from(peaks, t1, w, n, fan);
        assert forall|j: int| 0 <= j < hashes_upto(peaks, fan, w, n).len() implies {
            let d = (#[trigger] hashes_upto(peaks, fan, w, n)[j]).0.delta_frames;
            1 <= d <= w
        } by {
            if j < a.len() {
                assert(hashes_upto(peaks, fan, w, n)[j] == a[j]);
            } else {
                assert(hashes_upto(peaks, fan, w, n)[j] == b[j - a.len()]);
                assert(is_partner(t1, w, ps[j - a.len()]));
            }
        }
    }
}

/// Every hash pairs an anchor with a partner between 1 and `window` frames later.
pub proof fn lemma_hash_deltas_in_window(peaks: Seq<(u32, u32)>, fan_out: nat, window: u32)
    ensures
        forall|j: int| 0 <= j < hash_list(peaks, fan_out, window).len() ==> {
            let d = (#[trigger] hash_list(peaks, fan_out, window)[j]).0.delta_frames;
            1 <= d <= window
        },
{
    lemma_hashes_upto_in_window(peaks, fan_out, window, peaks.len() as int);
}

proof fn lemma_partners_bounded(peaks: Seq<(u32, u32)>, t1: u32, w: u32, from: int, budget: nat)
    ensures
        partners(peaks, t1, w, from, budget).len() <= budget,
    decreases peaks.len() - from,
{
    if from >= peaks.len() || budget == 0 || from < 0 {
    } else if is_partner(t1, w, peaks[from]) {
        lemma_partners_bounded(peaks, t1, w, from + 1, (budget - 1) as nat);
    } else {
        lemma_partners_bounded(peaks, t1, w, from + 1, budget);
    }
}

proof fn lemma_hashes_upto_bounded(peaks: Seq<(u32, u32)>, fan: nat, w: u32, n: int)
    requires
        0 <= n <= peaks.len(),
    ensures
        hashes_upto(peaks, fan, w, n).len() <= n * fan,
    decreases n,
{
    if n > 0 {
        lemma_hashes_upto_bounded(peaks, fan, w, n - 1);
        lemma_partners_bounded(peaks, peaks[n - 1].0, w, n, fan);
        assert((n - 1) * fan + fan == n * fan) by (nonlinear_arith);
    }
}

/// Each anchor peak is paired with at most `fan_out` partners, so a peak list
/// yields at most `fan_out` hashes per peak.
pub proof fn lemma_hash_count_bounded(peaks: Seq<(u32, u32)>, fan_out: nat, window: u32)
    ensures
        forall|i: int| 0 <= i < peaks.len() ==> (#[trigger] anchor_hashes(peaks, fan_out, window, i)).len() <= fan_out,
        hash_list(peaks, fan_out, window).len() <= peaks.len() * fan_out,
{
    assert forall|i: int| 0 <= i < peaks.len() implies (#[trigger] anchor_hashes(peaks, fan_out, window, i)).len() <= fan_out by {
        lemma_partners_bounded(peaks, peaks[i].0, window, i + 1, fan_out);
    }
    lemma_hashes_upto_bounded(peaks, fan_out, window, peaks.len() as int);
}

/// The 96-bit code under which a hash is stored.
pub open spec fn hash_code(h: FingerprintHash) -> u128 {
    (h.freq1 as int * 0x1_0000_0000_0000_0000 + h.freq2 as int * 0x1_0000_0000 + h.delta_frames as int) as u128
}

/// The hash whose code is `k`.
pub open spec fn decode_hash(k: u128) -> FingerprintHash {
    FingerprintHash {
        freq1: (k / 0x1_0000_0000_0000_0000) as u32,
        freq2: ((k / 0x1_0000_0000) % 0x1_0000_0000) as u32,
        delta_frames: (k % 0x1_0000_0000) as u32,
    }
}

proof fn lemma_code_then_decode(h: FingerprintHash)
    ensures
        hash_code(h) < 0x1_0000_0000_0000_0000_0000_0000,
        decode_hash(hash_code(h)) == h,
{
    let a = h.freq1 as int;
    let b = h.freq2 as int;
    let c = h.delta_frames as int;
    let k = a * 0x1_0000_0000_0000_0000 + b * 0x1_0000_0000 + c;
    assert(k / 0x1_0000_0000_0000_0000 == a && (k / 0x1_0000_0000) % 0x1_0000_0000 == b
        && k % 0x1_0000_0000 == c) by (nonlinear_arith)
        requires
            0 <= a < 0x1_0000_0000,
            0 <= b < 0x1_0000_0000,
            0 <= c < 0x1_0000_0000,
            k == a * 0x1_0000_0000_0000_0000 + b * 0x1_0000_0000 + c,
    ;
}

proof fn lemma_decode_then_code(k: u128)
    requires
        k < 0x1_0000_0000_0000_0000_0000_0000,
    ensures
        hash_code(decode_hash(k)) == k,
{
    let kk = k as int;
    assert(kk == (kk / 0x1_0000_0000_0000_0000) * 0x1_0000_0000_0000_0000
        + ((kk / 0x1_0000_0000) % 0x1_0000_0000) * 0x1_0000_0000 + kk % 0x1_0000_0000
        && kk / 0x1_0000_0000_0000_0000 < 0x1_0000_0000) by (nonlinear_arith)
        requires
            0 <= kk < 0x1_0000_0000_0000_0000_0000_0000,
    ;
}

fn code_of(h: &FingerprintHash) -> (k: u128)
    ensures
        k == hash_code(*h),
{
    (h.freq1 as u128) * 0x1_0000_0000_0000_0000 + (h.freq2 as u128) * 0x1_0000_0000 + (h.delta_frames as u128)
}

/// Stored entries `(track id, anchor frame)` as plain values.
pub open spec fn entry_views(v: Seq<(String, u32)>) -> Seq<(Seq<char>, u32)> {
    v.map_values(|e: (String, u32)| (e.0@, e.1))
}

/// The entries a database holds for hash `h` (none when `h` is absent).
pub open spec fn entries_of(m: Map<FingerprintHash, Seq<(Seq<char>, u32)>>, h: FingerprintHash) -> Seq<(Seq<char>, u32)> {
    if m.contains_key(h) {
        m[h]
    } else {
        seq![]
    }
}

/// The database after storing the hashes `hs` of track `id`, one after the
/// other: each `(hash, anchor)` appends `(id, anchor)` to the entries of its hash.
pub open spec fn add_hashes(
    m: Map<FingerprintHash, Seq<(Seq<char>, u32)>>,
    id: Seq<char>,
    hs: Seq<(FingerprintHash, u32)>,
) -> Map<FingerprintHash, Seq<(Seq<char>, u32)>>
    decreases hs.len(),
{
    if hs.len() == 0 {
        m
    } else {
        let prev = add_hashes(m, id, hs.drop_last());
        let h = hs.last().0;
        prev.insert(h, entries_of(prev, h).push((id, hs.last().1)))
    }
}

/// Every stored anchor frame fits the signed 32-bit range.
pub open spec fn anchors_fit(m: Map<FingerprintHash, Seq<(Seq<char>, u32)>>) -> bool {
    forall|h: FingerprintHash, i: int|
        m.contains_key(h) && 0 <= i < m[h].len() ==> #[trigger] m[h][i].1 <= i32::MAX
}

/// The votes of one query hash `q = (hash, query anchor)`: one per stored
/// entry of that hash, naming the entry's track and the offset
/// `stored anchor - query anchor`.
pub open spec fn hash_votes(m: Map<FingerprintHash, Seq<(Seq<char>, u32)>>, q: (FingerprintHash, u32)) -> Seq<(Seq<char>, int)> {
    entries_of(m, q.0).map_values(|e: (Seq<char>, u32)| (e.0, e.1 - q.1))
}

/// The votes of all query hashes `qh`, hash by hash.
pub open spec fn votes(m: Map<FingerprintHash, Seq<(Seq<char>, u32)>>, qh: Seq<(FingerprintHash, u32)>) -> Seq<(Seq<char>, int)>
    decreases qh.len(),
{
    if qh.len() == 0 {
        seq![]
    } else {
        votes(m, qh.drop_last()) + hash_votes(m, qh.last())
    }
}

/// How many of the votes `vs` name the `(track, offset)` pair `k`.
pub open spec fn vote_count(vs: Seq<(Seq<char>, int)>, k: (Seq<char>, int)) -> nat
    decreases vs.len(),
{
    if vs.len() == 0 {
        0
    } else {
        vote_count(vs.drop_last(), k) + if vs.last() == k {
            1nat
        } else {
            0nat
        }
    }
}

proof fn lemma_vote_count_push(vs: Seq<(Seq<char>, int)>, v: (Seq<char>, int), k: (Seq<char>, int))
    ensures
        vote_count(vs.push(v), k) == vote_count(vs, k) + if v == k {
            1nat
        } else {
            0nat
        },
{
    assert(vs.push(v).drop_last() =~= vs);
}

proof fn lemma_vote_count_prefix(vs: Seq<(Seq<char>, int)>, n: int, k: (Seq<char>, int))
    requires
        0 <= n <= vs.len(),
    ensures
        vote_count(vs.take(n), k) <= vote_count(vs, k),
    decreases vs.len(),
{
    if n == vs.len() {
        assert(vs.take(n) =~= vs);
    } else {
        lemma_vote_count_prefix(vs.drop_last(), n, k);
        assert(vs.drop_last().take(n) =~= vs.take(n));
    }
}

/// A pair that received a vote occurs among the votes.
pub proof fn lemma_vote_count_positive(vs: Seq<(Seq<char>, int)>, k: (Seq<char>, int))
    requires
        vote_count(vs, k) > 0,
    ensures
        vs.contains(k),
    decreases vs.len(),
{
    if vs.last() != k {
        lemma_vote_count_positive(vs.drop_last(), k);
        let i = choose|i: int| 0 <= i < vs.drop_last().len() && vs.drop_last()[i] == k;
        assert(vs[i] == k);
    } else {
        assert(vs[vs.len() - 1] == k);
    }
}

proof fn lemma_votes_step(m: Map<FingerprintHash, Seq<(Seq<char>, u32)>>, qh: Seq<(FingerprintHash, u32)>, i: int)
    requires
        0 <= i < qh.len(),
    ensures
        votes(m, qh.take(i + 1)) == votes(m, qh.take(i)) + hash_votes(m, qh[i]),
{
    assert(qh.take(i + 1).drop_last() =~= qh.take(i));
}

proof fn lemma_votes_prefix(m: Map<FingerprintHash, Seq<(Seq<char>, u32)>>, qh: Seq<(FingerprintHash, u32)>, i: int)
    requires
        0 <= i <= qh.len(),
    ensures
        votes(m, qh.take(i)).len() <= votes(m, qh).len(),
        votes(m, qh).take(votes(m, qh.take(i)).len() as int) == votes(m, qh.take(i)),
    decreases qh.len(),
{
    if i == qh.len() {
        assert(qh.take(i) =~= qh);
        assert(votes(m, qh).take(votes(m, qh).len() as int) =~= votes(m, qh));
    } else {
        lemma_votes_prefix(m, qh.drop_last(), i);
        assert(qh.drop_last().take(i) =~= qh.take(i));
        let a = votes(m, qh.take(i));
        let b = votes(m, qh.drop_last());
        assert(votes(m, qh).take(a.len() as int) =~= b.take(a.len() as int));
    }
}

/// The `(track, offset)` key of a score entry.
pub open spec fn tally_key(e: (String, i32, u32)) -> (Seq<char>, int) {
    (e.0@, e.1 as int)
}

/// `scores` counts the votes `vs`: one entry per voted pair, with its count.
pub open spec fn is_tally(scores: Seq<(String, i32, u32)>, vs: Seq<(Seq<char>, int)>) -> bool {
    &&& forall|a: int, b: int|
        0 <= a < b < scores.len() ==> #[trigger] tally_key(scores[a]) != #[trigger] tally_key(scores[b])
    &&& forall|a: int|
        0 <= a < scores.len() ==> (#[trigger] scores[a]).2 == vote_count(vs, tally_key(scores[a])) && scores[a].2 > 0
    &&& forall|k: (Seq<char>, int)|
        #[trigger] vote_count(vs, k) > 0 ==> exists|a: int| 0 <= a < scores.len() && #[trigger] tally_key(scores[a]) == k
}

/// Count one more vote for `(track, offset)`.
fn tally_vote(scores: &mut Vec<(String, i32, u32)>, track: &String, offset: i32, Ghost(vs): Ghost<Seq<(Seq<char>, int)>>)
    requires
        is_tally(old(scores)@, vs),
        vote_count(vs.push((track@, offset as int)), (track@, offset as int)) <= u32::MAX,
    ensures
        is_tally(final(scores)@, vs.push((track@, offset as int))),
{
    let ghost v = (track@, offset as int);
    let ghost vs2 = vs.push(v);
    proof {
        lemma_vote_count_push(vs, v, v);
    }
    let n = scores.len();
    let mut a: usize = 0;
    while a < n
        invariant
            n == scores@.len(),
            scores@ == old(scores)@,
            v == (track@, offset as int),
            vs2 == vs.push(v),
            is_tally(old(scores)@, vs),
            vote_count(vs2, v) == vote_count(vs, v) + 1,
            vote_count(vs2, v) <= u32::MAX,
            a <= n,
            forall|b: int| 0 <= b < a ==> #[trigger] tally_key(scores@[b]) != v,
        decreases n - a,
    {
        let same_offset = scores[a].1 == offset;
        let same_track = scores[a].0 == *track;
        if same_offset && same_track {
            assert(scores@[a as int].0@ == track@);
            let c = scores[a].2;
            let name = scores[a].0.clone();
            let ghost before = scores@;
            assert(tally_key(before[a as int]) == v);
            scores.set(a, (name, offset, c + 1));
            proof {
                assert forall|k: (Seq<char>, int)| #[trigger] vote_count(vs2, k) > 0 implies
                    exists|b: int| 0 <= b < scores@.len() && #[trigger] tally_key(scores@[b]) == k by {
                    lemma_vote_count_push(vs, v, k);
                    if k == v {
                        assert(tally_key(scores@[a as int]) == k);
                    } else {
                        let b = choose|b: int| 0 <= b < before.len() && #[trigger] tally_key(before[b]) == k;
                        assert(tally_key(scores@[b]) == k);
                    }
                }
                assert forall|b: int| 0 <= b < scores@.len() implies (#[trigger] scores@[b]).2 == vote_count(vs2, tally_key(scores@[b]))
                    && scores@[b].2 > 0 by {
                    lemma_vote_count_push(vs, v, tally_key(scores@[b]));
                    if b != a {
                        assert(tally_key(before[b]) != tally_key(before[a as int]) || b == a);
                        assert(scores@[b] == before[b]);
                    }
                }
                assert forall|b1: int, b2: int| 0 <= b1 < b2 < scores@.len() implies
                    #[trigger] tally_key(scores@[b1]) != #[trigger] tally_key(scores@[b2]) by {
                    assert(tally_key(scores@[b1]) == tally_key(before[b1]));
                    assert(tally_key(scores@[b2]) == tally_key(before[b2]));
                }
            }
            return;
        }
        a = a + 1;
    }
    let ghost before = scores@;
    proof {
        if vote_count(vs, v) > 0 {
            let b = choose|b: int| 0 <= b < before.len() && #[trigger] tally_key(before[b]) == v;
            assert(tally_key(before[b]) != v);
        }
    }
    scores.push((track.clone(), offset, 1));
    proof {
        assert(tally_key(scores@[n as int]) == v);
        assert forall|k: (Seq<char>, int)| #[trigger] vote_count(vs2, k) > 0 implies
            exists|b: int| 0 <= b < scores@.len() && #[trigger] tally_key(scores@[b]) == k by {
            lemma_vote_count_push(vs, v, k);
            if k == v {
                assert(tally_key(scores@[n as int]) == k);
            } else {
                let b = choose|b: int| 0 <= b < before.len() && #[trigger] tally_key(before[b]) == k;
                assert(tally_key(scores@[b]) == k);
            }
        }
        assert forall|b: int| 0 <= b < scores@.len() implies (#[trigger] scores@[b]).2 == vote_count(vs2, tally_key(scores@[b]))
            && scores@[b].2 > 0 by {
            lemma_vote_count_push(vs, v, tally_key(scores@[b]));
            if b < n {
                assert(scores@[b] == before[b]);
            }
        }
        assert forall|b1: int, b2: int| 0 <= b1 < b2 < scores@.len() implies
            #[trigger] tally_key(scores@[b1]) != #[trigger] tally_key(scores@[b2]) by {
            if b2 == n {
                assert(scores@[b1] == before[b1]);
            } else {
                assert(scores@[b1] == before[b1]);
                assert(scores@[b2] == before[b2]);
            }
        }
    }
}

/// The fingerprint store: for each hash, the `(track id, anchor frame)`
/// entries in the order they were added.
pub struct FingerprintDb {
    map: HashMap<u128, Vec<(String, u32)>>,
}

impl View for FingerprintDb {
    type V = Map<FingerprintHash, Seq<(Seq<char>, u32)>>;

    closed spec fn view(&self) -> Map<FingerprintHash, Seq<(Seq<char>, u32)>> {
        Map::new(
            |h: FingerprintHash| self.map@.contains_key(hash_code(h)),
            |h: FingerprintHash| entry_views(self.map@[hash_code(h)]@),
        )
    }
}

impl FingerprintDb {
    #[verifier::type_invariant]
    closed spec fn wf(self) -> bool {
        &&& forall|k: u128| #[trigger] self.map@.contains_key(k) ==> k < 0x1_0000_0000_0000_0000_0000_0000
        &&& anchors_fit(self@)
    }

    /// An empty store.
    pub fn new() -> (db: Self)
        ensures
            db@ == Map::<FingerprintHash, Seq<(Seq<char>, u32)>>::empty(),
    {
        broadcast use vstd::std_specs::hash::group_hash_axioms;
        let db = FingerprintDb { map: HashMap::new() };
        assert(db@ =~= Map::<FingerprintHash, Seq<(Seq<char>, u32)>>::empty());
        db
    }

    /// Number of distinct hashes stored.
    pub fn len(&self) -> (n: usize)
        ensures
            n == self@.dom().len(),
    {
        broadcast use vstd::std_specs::hash::group_hash_axioms;
        proof {
            use_type_invariant(self);
            let keys = self.map@.dom();
            let f = |k: u128| decode_hash(k);
            assert forall|x1: u128, x2: u128| keys.contains(x1) && keys.contains(x2) && #[trigger] f(x1) == #[trigger] f(x2)
                implies x1 == x2 by {
                lemma_decode_then_code(x1);
                lemma_decode_then_code(x2);
            }
            assert forall|h: FingerprintHash| self@.dom().contains(h) <==> keys.map(f).contains(h) by {
                lemma_code_then_decode(h);
                if keys.map(f).contains(h) {
                    let k = choose|k: u128| keys.contains(k) && f(k) == h;
                    lemma_decode_then_code(k);
                }
            }
            assert(keys.map(f) =~= self@.dom());
            vstd::set_lib::lemma_map_size(keys, self@.dom(), f);
        }
        self.map.len()
    }

    /// Append the entry `(track_id, anchor)` to the entries of `h`.
    pub fn add(&mut self, h: FingerprintHash, track_id: &str, anchor: u32)
        requires
            anchor <= i32::MAX,
        ensures
            final(self)@ == old(self)@.insert(h, entries_of(old(self)@, h).push((track_id@, anchor))),
    {
        broadcast use vstd::std_specs::hash::group_hash_axioms;
        proof {
            use_type_invariant(&*self);
            lemma_code_then_decode(h);
        }
        let ghost old_view = self@;
        let ghost old_map = self.map@;
        let key = code_of(&h);
        let mut map: HashMap<u128, Vec<(String, u32)>> = HashMap::new();
        std::mem::swap(&mut map, &mut self.map);
        let mut entries = match map.remove(&key) {
            Some(v) => v,
            None => Vec::new(),
        };
        assert(entry_views(entries@) == entries_of(old_view, h));
        entries.push((track_id.to_owned(), anchor));
        assert(entry_views(entries@) =~= entries_of(old_view, h).push((track_id@, anchor)));
        map.insert(key, entries);
        proof {
            assert forall|k: u128| #[trigger] map@.contains_key(k) implies k < 0x1_0000_0000_0000_0000_0000_0000 by {
                if k != key {
                    assert(old_map.contains_key(k));
                }
            }
            assert forall|g: FingerprintHash, i: int|
                map@.contains_key(hash_code(g)) && 0 <= i < entry_views(map@[hash_code(g)]@).len()
                implies #[trigger] entry_views(map@[hash_code(g)]@)[i].1 <= i32::MAX by {
                if hash_code(g) != key {
                    assert(old_view.contains_key(g));
                    assert(old_view[g][i] == entry_views(map@[hash_code(g)]@)[i]);
                } else {
                    if i < entries_of(old_view, h).len() {
                        lemma_code_then_decode(g);
                        assert(old_view.contains_key(h));
                        assert(old_view[h][i] == entry_views(map@[hash_code(g)]@)[i]);
                    }
                }
            }
        }
        self.map = map;
        proof {
            assert forall|g: FingerprintHash| #[trigger] self@.contains_key(g) == old_view.insert(h, entries_of(old_view, h).push((track_id@, anchor))).contains_key(g)
                && (self@.contains_key(g) ==> self@[g] == old_view.insert(h, entries_of(old_view, h).push((track_id@, anchor)))[g]) by {
                lemma_code_then_decode(g);
            }
            assert(self@ =~= old_view.insert(h, entries_of(old_view, h).push((track_id@, anchor))));
        }
    }

    /// The entries stored for `h`, as plain values.
    pub fn get(&self, h: &FingerprintHash) -> (res: Option<&Vec<(String, u32)>>)
        ensures
            res is None <==> !self@.contains_key(*h),
            res matches Some(v) ==> entry_views(v@) == self@[*h],
            res matches Some(v) ==> forall|i: int| 0 <= i < v@.len() ==> #[trigger] v@[i].1 <= i32::MAX,
    {
        broadcast use vstd::std_specs::hash::group_hash_axioms;
        proof {
            use_type_invariant(self);
            lemma_code_then_decode(*h);
        }
        let key = code_of(h);
        let res = self.map.get(&key);
        proof {
            if let Some(v) = res {
                assert forall|i: int| 0 <= i < v@.len() implies #[trigger] v@[i].1 <= i32::MAX by {
                    assert(self@.contains_key(*h));
                    assert(self@[*h][i] == entry_views(v@)[i]);
                    assert(self@[*h][i].1 <= i32::MAX);
                    assert(entry_views(v@)[i].1 == v@[i].1);
                }
            }
        }
        res
    }
}

/// The best match of a query: the `(track, offset)` pair with the most votes.
#[derive(Debug, Clone)]
pub struct FingerprintMatch {
    pub track_id: String,
    /// Votes received by the matched `(track, offset)` pair.
    pub hits: u32,
    /// Number of hashes of the query.
    pub total_hashes: usize,
    pub time_offset_frames: i32,
}

/// Acoustic fingerprinter using spectrogram constellation peak hashing.
pub struct AcousticFingerprinter {
    /// Stored fingerprints.
    pub db: FingerprintDb,
    /// Order key of the smallest spectral value that can be a peak (`None`
    /// for a NaN threshold, below which nothing compares).
    pub peak_threshold: Option<u32>,
    /// Number of partners paired with each anchor peak.
    pub fan_out: usize,
    /// Largest frame distance between an anchor and its partners.
    pub time_window_frames: u32,
}

impl AcousticFingerprinter {
    /// The `(hash, anchor frame)` pairs this fingerprinter derives from a spectrogram.
    pub open spec fn spec_hashes(&self, s: KeySpectrogram) -> Seq<(FingerprintHash, u32)> {
        hash_list(peak_list(s@, s.width(), self.peak_threshold), self.fan_out as nat, self.time_window_frames)
    }

    /// The votes a query spectrogram casts against the stored fingerprints.
    pub open spec fn query_votes(&self, s: KeySpectrogram) -> Seq<(Seq<char>, int)> {
        votes(self.db@, self.spec_hashes(s))
    }

    /// An empty fingerprinter.
    pub fn new(peak_threshold: Option<u32>, fan_out: usize, time_window_frames: u32) -> (fp: Self)
        ensures
            fp.db@ == Map::<FingerprintHash, Seq<(Seq<char>, u32)>>::empty(),
            fp.peak_threshold == peak_threshold,
            fp.fan_out == fan_out,
            fp.time_window_frames == time_window_frames,
    {
        AcousticFingerprinter { db: FingerprintDb::new(), peak_threshold, fan_out, time_window_frames }
    }

    /// Constellation peaks `(frame, bin)` of a spectrogram, in row-major order.
    pub fn extract_peaks(&self, spectrogram: &KeySpectrogram) -> (peaks: Vec<(u32, u32)>)
        ensures
            peaks@ == peak_list(spectrogram@, spectrogram.width(), self.peak_threshold),
    {
        constellation_peaks(spectrogram, self.peak_threshold)
    }

    /// Hashes from peaks using the fan-out pairing strategy.
    pub fn generate_hashes(&self, peaks: &[(u32, u32)]) -> (hashes: Vec<(FingerprintHash, u32)>)
        ensures
            hashes@ == hash_list(peaks@, self.fan_out as nat, self.time_window_frames),
    {
        pair_peaks(peaks, self.fan_out, self.time_window_frames)
    }

    /// Fingerprint a track by its spectrogram and store its hashes.
    pub fn add_track(&mut self, track_id: &str, spectrogram: &KeySpectrogram)
        ensures
            final(self).db@ == add_hashes(old(self).db@, track_id@, old(self).spec_hashes(*spectrogram)),
            final(self).peak_threshold == old(self).peak_threshold,
            final(self).fan_out == old(self).fan_out,
            final(self).time_window_frames == old(self).time_window_frames,
    {
        proof {
            use_type_invariant(spectrogram);
        }
        let peaks = self.extract_peaks(spectrogram);
        let hashes = self.generate_hashes(peaks.as_slice());
        let ghost g = spectrogram@;
        let ghost nb = spectrogram.width();
        proof {
            lemma_peak_list_sound(g, nb, self.peak_threshold);
            assert forall|i: int| 0 <= i < peaks@.len() implies (#[trigger] peaks@[i]).0 <= i32::MAX by {
                let p = peak_list(g, nb, self.peak_threshold)[i];
                assert(is_peak(g, nb, self.peak_threshold, p.0 as int, p.1 as int));
            }
            lemma_hash_anchors_bounded(peaks@, self.fan_out as nat, self.time_window_frames, peaks@.len() as int, i32::MAX as int);
        }
        let ghost old_db = self.db@;
        let n = hashes.len();
        let mut i: usize = 0;
        while i < n
            invariant
                n == hashes@.len(),
                i <= n,
                forall|j: int| 0 <= j < hashes@.len() ==> (#[trigger] hashes@[j]).1 <= i32::MAX,
                self.db@ == add_hashes(old_db, track_id@, hashes@.take(i as int)),
                self.peak_threshold == old(self).peak_threshold,
                self.fan_out == old(self).fan_out,
                self.time_window_frames == old(self).time_window_frames,
            decreases n - i,
        {
            let (h, t) = hashes[i];
            self.db.add(h, track_id, t);
            proof {
                assert(hashes@.take(i + 1).drop_last() =~= hashes@.take(i as int));
            }
            i = i + 1;
        }
        proof {
            assert(hashes@.take(n as int) =~= hashes@);
        }
    }

    /// Query the stored fingerprints: every query hash votes, for each stored
    /// entry of that hash, for the entry's track at the offset between the
    /// stored and the query anchor; the answer is a pair with the most votes,
    /// or `None` when no vote was cast.
    pub fn query(&self, spectrogram: &KeySpectrogram) -> (res: Option<FingerprintMatch>)
        requires
            forall|k: (Seq<char>, int)| #[trigger] vote_count(self.query_votes(*spectrogram), k) <= u32::MAX,
        ensures
            res is None <==> self.query_votes(*spectrogram).len() == 0,
            res matches Some(m) ==> {
                let vs = self.query_votes(*spectrogram);
                &&& m.total_hashes == self.spec_hashes(*spectrogram).len()
                &&& m.hits as nat == vote_count(vs, (m.track_id@, m.time_offset_frames as int))
                &&& m.hits > 0
                &&& forall|k: (Seq<char>, int)| #[trigger] vote_count(vs, k) <= m.hits
            },
            res matches Some(m) ==> exists|i: int, e: int|
                0 <= i < self.spec_hashes(*spectrogram).len()
                    && self.db@.contains_key(self.spec_hashes(*spectrogram)[i].0)
                    && 0 <= e < self.db@[self.spec_hashes(*spectrogram)[i].0].len()
                    && m.track_id@ == (#[trigger] self.db@[self.spec_hashes(*spectrogram)[i].0][e]).0
                    && m.time_offset_frames == self.db@[self.spec_hashes(*spectrogram)[i].0][e].1
                        - self.spec_hashes(*spectrogram)[i].1,
    {
        proof {
            use_type_invariant(spectrogram);
        }
        let peaks = self.extract_peaks(spectrogram);
        let hashes = self.generate_hashes(peaks.as_slice());
        let ghost g = spectrogram@;
        let ghost nb = spectrogram.width();
        proof {
            lemma_peak_list_sound(g, nb, self.peak_threshold);
            assert forall|i: int| 0 <= i < peaks@.len() implies (#[trigger] peaks@[i]).0 <= i32::MAX by {
                let p = peak_list(g, nb, self.peak_threshold)[i];
                assert(is_peak(g, nb, self.peak_threshold, p.0 as int, p.1 as int));
            }
            lemma_hash_anchors_bounded(peaks@, self.fan_out as nat, self.time_window_frames, peaks@.len() as int, i32::MAX as int);
        }
        let ghost qh = hashes@;
        let ghost db = self.db@;
        let ghost all = votes(db, qh);
        let mut scores: Vec<(String, i32, u32)> = Vec::new();
        let ghost mut cast: Seq<(Seq<char>, int)> = seq![];
        let n = hashes.len();
        let mut i: usize = 0;
        proof {
            assert(qh.take(0) =~= Seq::<(FingerprintHash, u32)>::empty());
            assert(all == self.query_votes(*spectrogram));
            assert forall|k: (Seq<char>, int)| #[trigger] vote_count(all, k) <= u32::MAX by {
                assert(vote_count(self.query_votes(*spectrogram), k) <= u32::MAX);
            }
        }
        while i < n
            invariant
                n == qh.len(),
                qh == hashes@,
                db == self.db@,
                all == votes(db, qh),
                i <= n,
                forall|j: int| 0 <= j < qh.len() ==> (#[trigger] qh[j]).1 <= i32::MAX,
                forall|k: (Seq<char>, int)| #[trigger] vote_count(all, k) <= u32::MAX,
                cast == votes(db, qh.take(i as int)),
                is_tally(scores@, cast),
            decreases n - i,
        {
            let (h, tq) = hashes[i];
            let ghost hv = hash_votes(db, qh[i as int]);
            proof {
                lemma_votes_step(db, qh, i as int);
                lemma_votes_prefix(db, qh, i + 1);
            }
            match self.db.get(&h) {
                Some(entries) => {
                    let m = entries.len();
                    let mut j: usize = 0;
                    proof {
                        assert(hv.take(0) =~= Seq::<(Seq<char>, int)>::empty());
                        assert(cast + hv.take(0) =~= cast);
                    }
                    while j < m
                        invariant
                            m == entries@.len(),
                            j <= m,
                            entry_views(entries@) == entries_of(db, h),
                            forall|e: int| 0 <= e < entries@.len() ==> #[trigger] entries@[e].1 <= i32::MAX,
                            (h, tq) == qh[i as int],
                            tq <= i32::MAX,
                            hv == hash_votes(db, qh[i as int]),
                            hv.len() == m,
                            all.take(votes(db, qh.take(i + 1)).len() as int) == votes(db, qh.take(i + 1)),
                            votes(db, qh.take(i + 1)) == votes(db, qh.take(i as int)) + hv,
                            votes(db, qh.take(i + 1)).len() <= all.len(),
                            forall|k: (Seq<char>, int)| #[trigger] vote_count(all, k) <= u32::MAX,
                            cast == votes(db, qh.take(i as int)) + hv.take(j as int),
                            is_tally(scores@, cast),
                        decreases m - j,
                    {
                        let anchor = entries[j].1;
                        let offset = (anchor as i32) - (tq as i32);
                        let ghost v = (entries@[j as int].0@, offset as int);
                        proof {
                            assert(entry_views(entries@)[j as int] == (entries@[j as int].0@, anchor));
                            assert(hv[j as int] == v);
                            let c2 = cast.push(v);
                            assert(c2 =~= votes(db, qh.take(i as int)) + hv.take(j + 1));
                            assert(c2 =~= all.take(c2.len() as int));
                            lemma_vote_count_prefix(all, c2.len() as int, v);
                        }
                        tally_vote(&mut scores, &entries[j].0, offset, Ghost(cast));
                        proof {
                            cast = cast.push(v);
                        }
                        j = j + 1;
                    }
                    proof {
                        assert(hv.take(m as int) =~= hv);
                    }
                },
                None => {
                    proof {
                        assert(hv =~= Seq::<(Seq<char>, int)>::empty());
                        assert(cast + hv =~= cast);
                    }
                },
            }
            i = i + 1;
        }
        proof {
            assert(qh.take(n as int) =~= qh);
        }
        if scores.len() == 0 {
            proof {
                if all.len() > 0 {
                    let k = all.last();
                    assert(all.drop_last().push(k) =~= all);
                    lemma_vote_count_push(all.drop_last(), k, k);
                    assert(vote_count(all, k) > 0);
                }
            }
            return None;
        }
        let count = scores.len();
        let mut best: usize = 0;
        let mut b: usize = 1;
        while b < count
            invariant
                count == scores@.len(),
                1 <= b <= count,
                best < b,
                forall|c: int| 0 <= c < b ==> (#[trigger] scores@[c]).2 <= scores@[best as int].2,
            decreases count - b,
        {
            if scores[b].2 > scores[best].2 {
                best = b;
            }
            b = b + 1;
        }
        let m = FingerprintMatch {
            track_id: scores[best].0.clone(),
            hits: scores[best].2,
            total_hashes: n,
            time_offset_frames: scores[best].1,
        };
        proof {
            assert(vote_count(all, tally_key(scores@[best as int])) > 0);
            if all.len() == 0 {
                assert(vote_count(all, tally_key(scores@[best as int])) == 0);
            }
            assert forall|k: (Seq<char>, int)| #[trigger] vote_count(all, k) <= m.hits by {
                if vote_count(all, k) > 0 {
                    let a = choose|a: int| 0 <= a < scores@.len() && #[trigger] tally_key(scores@[a]) == k;
                    assert(scores@[a].2 <= scores@[best as int].2);
                }
            }
            lemma_query_offsets(*self, *spectrogram);
            assert(vote_count(self.query_votes(*spectrogram), (m.track_id@, m.time_offset_frames as int)) > 0);
        }
        Some(m)
    }

    /// Whether a query with this spectrogram casts at most `limit` votes.
    /// When it casts at most `u32::MAX`, no pair can receive more (see
    /// `lemma_vote_count_bounded`), so `query` may be called.
    pub fn votes_within(&self, spectrogram: &KeySpectrogram, limit: u64) -> (b: bool)
        ensures
            b == (self.query_votes(*spectrogram).len() <= limit),
    {
        let peaks = self.extract_peaks(spectrogram);
        let hashes = self.generate_hashes(peaks.as_slice());
        let ghost qh = hashes@;
        let ghost db = self.db@;
        let n = hashes.len();
        let mut sum: u64 = 0;
        let mut i: usize = 0;
        proof {
            assert(qh.take(0) =~= Seq::<(FingerprintHash, u32)>::empty());
        }
        while i < n
            invariant
                n == qh.len(),
                qh == hashes@,
                db == self.db@,
                qh == self.spec_hashes(*spectrogram),
                i <= n,
                sum <= limit,
                sum as int == votes(db, qh.take(i as int)).len(),
            decreases n - i,
        {
            let h = hashes[i].0;
            proof {
                lemma_votes_step(db, qh, i as int);
                lemma_votes_prefix(db, qh, i + 1);
            }
            let len: usize = match self.db.get(&h) {
                Some(entries) => entries.len(),
                None => 0,
            };
            assert(hash_votes(db, qh[i as int]).len() == len);
            if len as u64 > limit - sum {
                return false;
            }
            sum = sum + len as u64;
            i = i + 1;
        }
        proof {
            assert(qh.take(n as int) =~= qh);
        }
        true
    }

    /// Number of distinct hashes stored.
    pub fn db_size(&self) -> (n: usize)
        ensures
            n == self.db@.dom().len(),
    {
        self.db.len()
    }
}

/// Every stored entry names track `id`.
pub open spec fn only_track(m: Map<FingerprintHash, Seq<(Seq<char>, u32)>>, id: Seq<char>) -> bool {
    forall|h: FingerprintHash, i: int| m.contains_key(h) && 0 <= i < m[h].len() ==> (#[trigger] m[h][i]).0 == id
}

proof fn lemma_add_hashes_only_track(m: Map<FingerprintHash, Seq<(Seq<char>, u32)>>, id: Seq<char>, hs: Seq<(FingerprintHash, u32)>)
    requires
        only_track(m, id),
    ensures
        only_track(add_hashes(m, id, hs), id),
    decreases hs.len(),
{
    if hs.len() > 0 {
        lemma_add_hashes_only_track(m, id, hs.drop_last());
        let prev = add_hashes(m, id, hs.drop_last());
        let h = hs.last().0;
        let r = add_hashes(m, id, hs);
        assert forall|g: FingerprintHash, i: int| r.contains_key(g) && 0 <= i < r[g].len() implies (#[trigger] r[g][i]).0 == id by {
            if g == h {
                if i < entries_of(prev, h).len() {
                    assert(r[g][i] == prev[h][i]);
                }
            } else {
                assert(r[g] == prev[g]);
            }
        }
    }
}

proof fn lemma_add_hashes_present(m: Map<FingerprintHash, Seq<(Seq<char>, u32)>>, id: Seq<char>, hs: Seq<(FingerprintHash, u32)>)
    ensures
        forall|i: int| 0 <= i < hs.len() ==> entries_of(add_hashes(m, id, hs), (#[trigger] hs[i]).0).len() > 0,
    decreases hs.len(),
{
    if hs.len() > 0 {
        lemma_add_hashes_present(m, id, hs.drop_last());
        let prev = add_hashes(m, id, hs.drop_last());
        let h = hs.last().0;
        let r = add_hashes(m, id, hs);
        assert forall|i: int| 0 <= i < hs.len() implies entries_of(r, (#[trigger] hs[i]).0).len() > 0 by {
            if i < hs.len() - 1 {
                assert(hs.drop_last()[i] == hs[i]);
                assert(entries_of(prev, hs[i].0).len() > 0);
            }
        }
    }
}

proof fn lemma_votes_only_track(m: Map<FingerprintHash, Seq<(Seq<char>, u32)>>, id: Seq<char>, qh: Seq<(FingerprintHash, u32)>)
    requires
        only_track(m, id),
    ensures
        forall|i: int| 0 <= i < votes(m, qh).len() ==> (#[trigger] votes(m, qh)[i]).0 == id,
    decreases qh.len(),
{
    if qh.len() > 0 {
        lemma_votes_only_track(m, id, qh.drop_last());
        let a = votes(m, qh.drop_last());
        let hv = hash_votes(m, qh.last());
        assert forall|i: int| 0 <= i < votes(m, qh).len() implies (#[trigger] votes(m, qh)[i]).0 == id by {
            if i < a.len() {
                assert(votes(m, qh)[i] == a[i]);
            } else {
                assert(votes(m, qh)[i] == hv[i - a.len()]);
                assert(m.contains_key(qh.last().0));
                assert(m[qh.last().0][i - a.len()].0 == id);
            }
        }
    }
}

/// Fingerprint round trip: after a track is added to an empty store, a query
/// with the same spectrogram (and the same parameters) casts at least one vote
/// whenever the spectrogram yields a hash, and every pair that receives a vote
/// names that track; so the query answers with that track.
pub proof fn lemma_fingerprint_roundtrip(
    before: AcousticFingerprinter,
    after: AcousticFingerprinter,
    id: Seq<char>,
    s: KeySpectrogram,
)
    requires
        before.db@ == Map::<FingerprintHash, Seq<(Seq<char>, u32)>>::empty(),
        after.db@ == add_hashes(before.db@, id, before.spec_hashes(s)),
        after.peak_threshold == before.peak_threshold,
        after.fan_out == before.fan_out,
        after.time_window_frames == before.time_window_frames,
        before.spec_hashes(s).len() > 0,
    ensures
        after.query_votes(s).len() > 0,
        forall|k: (Seq<char>, int)| #[trigger] vote_count(after.query_votes(s), k) > 0 ==> k.0 == id,
{
    let qh = before.spec_hashes(s);
    let m0 = before.db@;
    let m1 = after.db@;
    assert(after.spec_hashes(s) == qh);
    lemma_add_hashes_only_track(m0, id, qh);
    lemma_add_hashes_present(m0, id, qh);
    assert(qh[qh.len() - 1] == qh.last());
    assert(entries_of(m1, qh.last().0).len() > 0);
    assert(votes(m1, qh).len() == votes(m1, qh.drop_last()).len() + hash_votes(m1, qh.last()).len());
    lemma_votes_only_track(m1, id, qh);
    assert forall|k: (Seq<char>, int)| #[trigger] vote_count(after.query_votes(s), k) > 0 implies k.0 == id by {
        lemma_vote_count_positive(votes(m1, qh), k);
        let i = choose|i: int| 0 <= i < votes(m1, qh).len() && votes(m1, qh)[i] == k;
        assert(votes(m1, qh)[i].0 == id);
    }
}

/// Every stored entry names one of the tracks `ids`.
pub open spec fn only_tracks(m: Map<FingerprintHash, Seq<(Seq<char>, u32)>>, ids: Set<Seq<char>>) -> bool {
    forall|h: FingerprintHash, i: int| m.contains_key(h) && 0 <= i < m[h].len() ==> ids.contains((#[trigger] m[h][i]).0)
}

/// The store holds at least one entry for every hash of `hs`.
pub open spec fn holds_hashes(m: Map<FingerprintHash, Seq<(Seq<char>, u32)>>, hs: Seq<(FingerprintHash, u32)>) -> bool {
    forall|i: int| 0 <= i < hs.len() ==> entries_of(m, (#[trigger] hs[i]).0).len() > 0
}

proof fn lemma_add_hashes_grows(m: Map<FingerprintHash, Seq<(Seq<char>, u32)>>, id: Seq<char>, hs: Seq<(FingerprintHash, u32)>, h: FingerprintHash)
    ensures
        entries_of(add_hashes(m, id, hs), h).len() >= entries_of(m, h).len(),
    decreases hs.len(),
{
    if hs.len() > 0 {
        lemma_add_hashes_grows(m, id, hs.drop_last(), h);
    }
}

proof fn lemma_add_hashes_tracks(m: Map<FingerprintHash, Seq<(Seq<char>, u32)>>, ids: Set<Seq<char>>, id: Seq<char>, hs: Seq<(FingerprintHash, u32)>)
    requires
        only_tracks(m, ids),
    ensures
        only_tracks(add_hashes(m, id, hs), ids.insert(id)),
    decreases hs.len(),
{
    if hs.len() > 0 {
        lemma_add_hashes_tracks(m, ids, id, hs.drop_last());
        let prev = add_hashes(m, id, hs.drop_last());
        let h = hs.last().0;
        let r = add_hashes(m, id, hs);
        assert forall|g: FingerprintHash, i: int| r.contains_key(g) && 0 <= i < r[g].len() implies ids.insert(id).contains((#[trigger] r[g][i]).0) by {
            if g == h {
                if i < entries_of(prev, h).len() {
                    assert(r[g][i] == prev[h][i]);
                }
            } else {
                assert(r[g] == prev[g]);
            }
        }
    } else {
        assert forall|g: FingerprintHash, i: int| m.contains_key(g) && 0 <= i < m[g].len() implies ids.insert(id).contains((#[trigger] m[g][i]).0) by {
            assert(ids.contains(m[g][i].0));
        }
    }
}

proof fn lemma_votes_tracks(m: Map<FingerprintHash, Seq<(Seq<char>, u32)>>, ids: Set<Seq<char>>, qh: Seq<(FingerprintHash, u32)>)
    requires
        only_tracks(m, ids),
    ensures
        forall|i: int| 0 <= i < votes(m, qh).len() ==> ids.contains((#[trigger] votes(m, qh)[i]).0),
    decreases qh.len(),
{
    if qh.len() > 0 {
        lemma_votes_tracks(m, ids, qh.drop_last());
        let a = votes(m, qh.drop_last());
        let hv = hash_votes(m, qh.last());
        assert forall|i: int| 0 <= i < votes(m, qh).len() implies ids.contains((#[trigger] votes(m, qh)[i]).0) by {
            if i < a.len() {
                assert(votes(m, qh)[i] == a[i]);
            } else {
                assert(votes(m, qh)[i] == hv[i - a.len()]);
                assert(m.contains_key(qh.last().0));
                assert(ids.contains(m[qh.last().0][i - a.len()].0));
            }
        }
    }
}

proof fn lemma_votes_len(m: Map<FingerprintHash, Seq<(Seq<char>, u32)>>, qh: Seq<(FingerprintHash, u32)>, i: int)
    requires
        0 <= i < qh.len(),
    ensures
        votes(m, qh).len() >= entries_of(m, qh[i].0).len(),
    decreases qh.len(),
{
    if i < qh.len() - 1 {
        lemma_votes_len(m, qh.drop_last(), i);
        assert(qh.drop_last()[i] == qh[i]);
    }
}

/// Storing a track keeps every entry already stored (so whatever hashes the
/// store held it still holds), holds every hash of the stored spectrogram,
/// and adds only entries naming the stored track.
pub proof fn lemma_add_track_stores(
    before: AcousticFingerprinter,
    after: AcousticFingerprinter,
    id: Seq<char>,
    s: KeySpectrogram,
    qh: Seq<(FingerprintHash, u32)>,
    ids: Set<Seq<char>>,
)
    requires
        after.db@ == add_hashes(before.db@, id, before.spec_hashes(s)),
    ensures
        holds_hashes(after.db@, before.spec_hashes(s)),
        holds_hashes(before.db@, qh) ==> holds_hashes(after.db@, qh),
        only_tracks(before.db@, ids) ==> only_tracks(after.db@, ids.insert(id)),
{
    let hs = before.spec_hashes(s);
    lemma_add_hashes_present(before.db@, id, hs);
    if holds_hashes(before.db@, qh) {
        assert forall|i: int| 0 <= i < qh.len() implies entries_of(after.db@, (#[trigger] qh[i]).0).len() > 0 by {
            lemma_add_hashes_grows(before.db@, id, hs, qh[i].0);
        }
    }
    if only_tracks(before.db@, ids) {
        lemma_add_hashes_tracks(before.db@, ids, id, hs);
    }
}

/// A query with a spectrogram whose hashes the store holds (such as that of
/// any stored track, whatever was stored after it) casts at least one vote
/// whenever the spectrogram yields a hash; so the query finds a match.
pub proof fn lemma_query_finds_stored(fp: AcousticFingerprinter, s: KeySpectrogram)
    requires
        holds_hashes(fp.db@, fp.spec_hashes(s)),
        fp.spec_hashes(s).len() > 0,
    ensures
        fp.query_votes(s).len() > 0,
{
    let qh = fp.spec_hashes(s);
    assert(entries_of(fp.db@, qh[0].0).len() > 0);
    lemma_votes_len(fp.db@, qh, 0);
}

/// Every pair that receives a vote names a track of the store: when all
/// stored entries name tracks of `ids`, so does every voted pair.
pub proof fn lemma_query_names_stored_tracks(fp: AcousticFingerprinter, s: KeySpectrogram, ids: Set<Seq<char>>)
    requires
        only_tracks(fp.db@, ids),
    ensures
        forall|k: (Seq<char>, int)| #[trigger] vote_count(fp.query_votes(s), k) > 0 ==> ids.contains(k.0),
{
    let vs = fp.query_votes(s);
    lemma_votes_tracks(fp.db@, ids, fp.spec_hashes(s));
    assert forall|k: (Seq<char>, int)| #[trigger] vote_count(vs, k) > 0 implies ids.contains(k.0) by {
        lemma_vote_count_positive(vs, k);
        let i = choose|i: int| 0 <= i < vs.len() && vs[i] == k;
    }
}

/// A store with nothing in it names no track, and a query on it casts no vote.
pub proof fn lemma_empty_store(fp: AcousticFingerprinter, s: KeySpectrogram)
    requires
        fp.db@ == Map::<FingerprintHash, Seq<(Seq<char>, u32)>>::empty(),
    ensures
        only_tracks(fp.db@, Set::<Seq<char>>::empty()),
        fp.query_votes(s).len() == 0,
{
    lemma_votes_tracks(fp.db@, Set::<Seq<char>>::empty(), fp.spec_hashes(s));
    let vs = fp.query_votes(s);
    if vs.len() > 0 {
        assert(!Set::<Seq<char>>::empty().contains(vs[0].0));
    }
}

/// No pair receives more votes than there are votes.
pub proof fn lemma_vote_count_bounded(vs: Seq<(Seq<char>, int)>, k: (Seq<char>, int))
    ensures
        vote_count(vs, k) <= vs.len(),
    decreases vs.len(),
{
    if vs.len() > 0 {
        lemma_vote_count_bounded(vs.drop_last(), k);
    }
}

/// Votes are signed offsets: a pair `(track, offset)` is among the votes of
/// query hashes `qh` exactly when some query hash `qh[i]` has a stored entry
/// `(track, anchor)` with `offset == anchor - qh[i].1` (stored anchor frame
/// minus query anchor frame), so a query lying `d` frames after the stored
/// constellation votes at offset `-d`.
pub proof fn lemma_votes_are_signed_offsets(m: Map<FingerprintHash, Seq<(Seq<char>, u32)>>, qh: Seq<(FingerprintHash, u32)>)
    ensures
        forall|v: (Seq<char>, int)| #[trigger] votes(m, qh).contains(v) <==> exists|i: int, e: int|
            0 <= i < qh.len() && m.contains_key(qh[i].0) && 0 <= e < m[qh[i].0].len()
                && v == ((#[trigger] m[qh[i].0][e]).0, m[qh[i].0][e].1 - qh[i].1),
    decreases qh.len(),
{
    if qh.len() > 0 {
        let pre = qh.drop_last();
        lemma_votes_are_signed_offsets(m, pre);
        let a = votes(m, pre);
        let q = qh.last();
        let hv = hash_votes(m, q);
        let all = votes(m, qh);
        assert(all == a + hv);
        assert forall|v: (Seq<char>, int)| #[trigger] all.contains(v) implies exists|i: int, e: int|
            0 <= i < qh.len() && m.contains_key(qh[i].0) && 0 <= e < m[qh[i].0].len()
                && v == ((#[trigger] m[qh[i].0][e]).0, m[qh[i].0][e].1 - qh[i].1) by {
            let x = choose|x: int| 0 <= x < all.len() && all[x] == v;
            if x < a.len() {
                assert(a[x] == v);
                assert(a.contains(v));
                let (i, e) = choose|i: int, e: int|
                    0 <= i < pre.len() && m.contains_key(pre[i].0) && 0 <= e < m[pre[i].0].len()
                        && v == ((#[trigger] m[pre[i].0][e]).0, m[pre[i].0][e].1 - pre[i].1);
                assert(pre[i] == qh[i]);
                assert(v == (m[qh[i].0][e].0, m[qh[i].0][e].1 - qh[i].1));
            } else {
                let e = x - a.len();
                assert(hv[e] == v);
                assert(m.contains_key(q.0));
                assert(qh[qh.len() - 1] == q);
                assert(v == (m[qh[qh.len() - 1].0][e].0, m[qh[qh.len() - 1].0][e].1 - qh[qh.len() - 1].1));
            }
        }
        assert forall|v: (Seq<char>, int)| (exists|i: int, e: int|
            0 <= i < qh.len() && m.contains_key(qh[i].0) && 0 <= e < m[qh[i].0].len()
                && v == ((#[trigger] m[qh[i].0][e]).0, m[qh[i].0][e].1 - qh[i].1)) implies #[trigger] all.contains(v) by {
            let (i, e) = choose|i: int, e: int|
                0 <= i < qh.len() && m.contains_key(qh[i].0) && 0 <= e < m[qh[i].0].len()
                    && v == ((#[trigger] m[qh[i].0][e]).0, m[qh[i].0][e].1 - qh[i].1);
            if i < qh.len() - 1 {
                assert(pre[i] == qh[i]);
                assert(v == (m[pre[i].0][e].0, m[pre[i].0][e].1 - pre[i].1));
                assert(a.contains(v));
                let x = choose|x: int| 0 <= x < a.len() && a[x] == v;
                assert(all[x] == v);
            } else {
                assert(qh[i] == q);
                assert(hv[e] == v);
                assert(all[a.len() + e] == v);
            }
        }
    } else {
        assert forall|v: (Seq<char>, int)| #[trigger] votes(m, qh).contains(v) <==> exists|i: int, e: int|
            0 <= i < qh.len() && m.contains_key(qh[i].0) && 0 <= e < m[qh[i].0].len()
                && v == ((#[trigger] m[qh[i].0][e]).0, m[qh[i].0][e].1 - qh[i].1) by {
            assert(votes(m, qh).len() == 0);
        }
    }
}

/// Every pair a query can answer with (one with a vote) is a stored entry's
/// track at the signed offset of that entry's anchor frame minus the anchor
/// frame of a query hash with the same hash.
pub proof fn lemma_query_offsets(fp: AcousticFingerprinter, s: KeySpectrogram)
    ensures
        forall|k: (Seq<char>, int)| #[trigger] vote_count(fp.query_votes(s), k) > 0 ==> exists|i: int, e: int|
            0 <= i < fp.spec_hashes(s).len() && fp.db@.contains_key(fp.spec_hashes(s)[i].0)
                && 0 <= e < fp.db@[fp.spec_hashes(s)[i].0].len()
                && k == ((#[trigger] fp.db@[fp.spec_hashes(s)[i].0][e]).0,
                    fp.db@[fp.spec_hashes(s)[i].0][e].1 - fp.spec_hashes(s)[i].1),
{
    let qh = fp.spec_hashes(s);
    lemma_votes_are_signed_offsets(fp.db@, qh);
    assert forall|k: (Seq<char>, int)| #[trigger] vote_count(fp.query_votes(s), k) > 0 implies exists|i: int, e: int|
        0 <= i < qh.len() && fp.db@.contains_key(qh[i].0) && 0 <= e < fp.db@[qh[i].0].len()
            && k == ((#[trigger] fp.db@[qh[i].0][e]).0, fp.db@[qh[i].0][e].1 - qh[i].1) by {
        lemma_vote_count_positive(votes(fp.db@, qh), k);
        assert(votes(fp.db@, qh).contains(k));
    }
}

} // verus!
