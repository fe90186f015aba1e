//! Cell layout of the cell-averaging CFAR detector: which cells are tested
//! and which training cells estimate the noise around each of them.
use vstd::prelude::*;

verus! {

/// The cells under test among `n` cells: `[window, n - window)`, where
/// `window = guard + training`, so that every tested cell has a full window
/// of guard and training cells on both sides (empty when `n < 2 * window`).
pub fn cells_under_test(n: usize, guard: usize, training: usize) -> (r: (usize, usize))
    requires
        guard + training <= usize::MAX,
    ensures
        r.0 == guard + training,
        r.1 == if n >= guard + training { n - (guard + training) } else { 0 },
{
    let window = guard + training;
    let end = if n >= window { n - window } else { 0 };
    (window, end)
}

/// Training cells of cell `i`: the `training` cells just beyond the `guard`
/// guard cells on its left, then those on its right, each side in
/// increasing order.
pub fn training_cells(n: usize, guard: usize, training: usize, i: usize) -> (cells: Vec<usize>)
    requires
        guard + training <= i,
        i + guard + training < n,
    ensures
        cells@ == Seq::new(training as nat, |k: int| (i - guard - training + k) as usize)
            + Seq::new(training as nat, |k: int| (i + guard + 1 + k) as usize),
        forall|k: int| 0 <= k < cells@.len() ==> #[trigger] cells@[k] < n,
{
    let window = guard + training;
    let mut cells: Vec<usize> = Vec::new();
    let mut k: usize = i - window;
    while k < i - guard
        invariant
            window == guard + training,
            window <= i,
            i + window < n,
            i - window <= k <= i - guard,
            cells@ == Seq::new((k - (i - window)) as nat, |x: int| (i - guard - training + x) as usize),
        decreases i - guard - k,
    {
        cells.push(k);
        proof {
            assert(cells@ =~= Seq::new((k + 1 - (i - window)) as nat, |x: int| (i - guard - training + x) as usize));
        }
        k = k + 1;
    }
    let ghost left = cells@;
    let mut k: usize = i + guard + 1;
    while k <= i + window
        invariant
            window == guard + training,
            i + window < n,
            i + guard + 1 <= k <= i + window + 1,
            left == Seq::new(training as nat, |x: int| (i - guard - training + x) as usize),
            cells@ == left + Seq::new((k - (i + guard + 1)) as nat, |x: int| (i + guard + 1 + x) as usize),
        decreases i + window + 1 - k,
    {
        if k < n {
            cells.push(k);
        }
        proof {
            assert(cells@ =~= left + Seq::new((k + 1 - (i + guard + 1)) as nat, |x: int| (i + guard + 1 + x) as usize));
        }
        k = k + 1;
    }
    cells
}

} // verus!
