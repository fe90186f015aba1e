//! Framing of a signal for the short-time spectral processors (STFT, Welch
//! PSD, LOFARgram, MFCC): how many frames fit, where they start, how frames
//! are grouped for integration, and how many real-FFT bins a window yields.
use vstd::prelude::*;

verus! {

/// Errors of the STFT processor.
#[derive(Debug, Clone, Copy, PartialEq, Eq, Structural)]
pub enum StftError {
    /// The signal is shorter than one window.
    SignalTooShort { window_size: usize },
}

/// Number of real-FFT output bins of a window of `window_size` samples.
pub fn num_bins(window_size: usize) -> (n: usize)
    ensures
        n == window_size / 2 + 1,
{
    window_size / 2 + 1
}

/// Number of frames of `window` samples, `hop` samples apart, that fit in a
/// signal of `len` samples (at least one window long).
pub open spec fn frame_count(len: int, window: int, hop: int) -> int {
    (len - window) / hop + 1
}

/// The frame count is exact: frame `n - 1` fits in the signal and frame `n`
/// does not.
pub proof fn lemma_frame_count_exact(len: int, window: int, hop: int)
    requires
        0 <= window <= len,
        hop > 0,
    ensures
        frame_count(len, window, hop) >= 1,
        (frame_count(len, window, hop) - 1) * hop + window <= len,
        frame_count(len, window, hop) * hop + window > len,
{
    let q = (len - window) / hop;
    assert(q * hop <= len - window && len - window < (q + 1) * hop && q >= 0) by (nonlinear_arith)
        requires
            hop > 0,
            len - window >= 0,
            q == (len - window) / hop,
    ;
}

/// Number of STFT frames of a signal: the frames start every `hop_size`
/// samples and must lie wholly inside the signal.
pub fn stft_frames(signal_len: usize, window_size: usize, hop_size: usize) -> (r: Result<usize, StftError>)
    requires
        signal_len >= window_size ==> hop_size > 0,
        signal_len < usize::MAX,
    ensures
        r is Err <==> signal_len < window_size,
        r matches Err(e) ==> e == (StftError::SignalTooShort { window_size }),
        r matches Ok(n) ==> n == frame_count(signal_len as int, window_size as int, hop_size as int),
{
    if signal_len < window_size {
        return Err(StftError::SignalTooShort { window_size });
    }
    Ok((signal_len - window_size) / hop_size + 1)
}

/// Start offsets of successive frames: `0, hop, 2*hop, ...` for as long as a
/// whole window fits in the signal.
pub fn frame_starts(signal_len: usize, window_size: usize, hop_size: usize) -> (starts: Vec<usize>)
    requires
        signal_len >= window_size ==> hop_size > 0,
        signal_len >= window_size ==> frame_count(signal_len as int, window_size as int, hop_size as int) * hop_size
            <= usize::MAX,
    ensures
        signal_len < window_size ==> starts@.len() == 0,
        signal_len >= window_size ==> starts@.len() == frame_count(signal_len as int, window_size as int, hop_size as int),
        forall|k: int| 0 <= k < starts@.len() ==> #[trigger] starts@[k] == k * hop_size,
        forall|k: int| 0 <= k < starts@.len() ==> #[trigger] starts@[k] + window_size <= signal_len,
{
    let mut starts: Vec<usize> = Vec::new();
    let mut start: usize = 0;
    let ghost total = if signal_len >= window_size {
        frame_count(signal_len as int, window_size as int, hop_size as int)
    } else {
        0
    };
    proof {
        if signal_len >= window_size {
            lemma_frame_count_exact(signal_len as int, window_size as int, hop_size as int);
        }
    }
    while start <= signal_len && signal_len - start >= window_size
        invariant
            signal_len >= window_size ==> hop_size > 0,
            total == (if signal_len >= window_size {
                frame_count(signal_len as int, window_size as int, hop_size as int)
            } else {
                0
            }),
            signal_len >= window_size ==> (total - 1) * hop_size + window_size <= signal_len,
            signal_len >= window_size ==> total * hop_size + window_size > signal_len,
            signal_len >= window_size ==> total * hop_size <= usize::MAX,
            start == starts@.len() * hop_size,
            starts@.len() <= total,
            forall|k: int| 0 <= k < starts@.len() ==> #[trigger] starts@[k] == k * hop_size,
            forall|k: int| 0 <= k < starts@.len() ==> #[trigger] starts@[k] + window_size <= signal_len,
        decreases total - starts@.len(),
    {
        let ghost c = starts@.len() as int;
        assert(signal_len >= window_size);
        proof {
            if c >= total {
                assert(c * hop_size >= total * hop_size) by (nonlinear_arith)
                    requires
                        c >= total,
                        hop_size > 0,
                ;
            }
            assert((c + 1) * hop_size == c * hop_size + hop_size) by (nonlinear_arith);
            if c + 1 <= total {
                assert((c + 1) * hop_size <= total * hop_size) by (nonlinear_arith)
                    requires
                        c + 1 <= total,
                        hop_size > 0,
                ;
            }
        }
        starts.push(start);
        start = start + hop_size;
    }
    proof {
        let c = starts@.len() as int;
        if signal_len >= window_size && c < total {
            assert(c * hop_size <= (total - 1) * hop_size) by (nonlinear_arith)
                requires
                    c <= total - 1,
                    hop_size > 0,
            ;
        }
    }
    starts
}

/// Groups of `size` consecutive frames out of `n` (the last group may be
/// shorter), as half-open ranges `[start, end)`.
pub fn integration_groups(n: usize, size: usize) -> (groups: Vec<(usize, usize)>)
    requires
        size > 0,
        n + size <= usize::MAX,
    ensures
        groups@.len() == (n + size - 1) / (size as int),
        forall|s: int| 0 <= s < groups@.len() ==> (#[trigger] groups@[s]).0 == s * size,
        forall|s: int| 0 <= s < groups@.len() ==> (#[trigger] groups@[s]).1 == if (s + 1) * size <= n {
            (s + 1) * size
        } else {
            n as int
        },
{
    let count = (n + size - 1) / size;
    let mut groups: Vec<(usize, usize)> = Vec::new();
    let mut s: usize = 0;
    proof {
        assert(count * size <= n + size - 1) by (nonlinear_arith)
            requires
                size > 0,
                count == (n + size - 1) / (size as int),
        ;
    }
    while s < count
        invariant
            size > 0,
            count == (n + size - 1) / (size as int),
            count * size <= n + size - 1,
            s <= count,
            groups@.len() == s,
            forall|t: int| 0 <= t < s ==> (#[trigger] groups@[t]).0 == t * size,
            forall|t: int| 0 <= t < s ==> (#[trigger] groups@[t]).1 == if (t + 1) * size <= n {
                (t + 1) * size
            } else {
                n as int
            },
        decreases count - s,
    {
        proof {
            assert(s * size + size <= count * size) by (nonlinear_arith)
                requires
                    s + 1 <= count,
                    size > 0,
            ;
            assert((s + 1) * size == s * size + size) by (nonlinear_arith);
        }
        let start = s * size;
        let end = if n - start >= size { start + size } else { n };
        groups.push((start, end));
        s = s + 1;
    }
    groups
}

/// Band of a LOFARgram in FFT bins: the upper bin is clamped to the last of
/// `n_bins_total` bins; the band holds `upper - bin_low` output bins, or one
/// when the band is empty or inverted.
pub fn lofar_band(bin_low: usize, bin_high: usize, n_bins_total: usize) -> (r: (usize, usize))
    requires
        n_bins_total >= 1,
    ensures
        r.0 == if bin_high < n_bins_total - 1 { bin_high as int } else { n_bins_total - 1 },
        r.1 == if r.0 > bin_low { r.0 - bin_low } else { 1 },
{
    let upper = if bin_high < n_bins_total - 1 { bin_high } else { n_bins_total - 1 };
    let n_out = if upper > bin_low { upper - bin_low } else { 1 };
    (upper, n_out)
}

} // verus!
