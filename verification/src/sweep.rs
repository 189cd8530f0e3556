use crate::board::MarbleBoard;
use crate::board::BOARD_CELLS;
use vstd::prelude::*;

verus! {

/// Sweep the steel count from `k_lo` to `k_hi` inclusive. For each count,
/// run `trials` independent trials (sample a board, check percolation) and
/// record how many of them percolated. The result is ordered by steel
/// count, one entry per count; dividing each tally by `trials` gives the
/// empirical probability curve.
pub fn run_sweep_counts(k_lo: usize, k_hi: usize, trials: usize) -> (r: Vec<(usize, usize)>)
    requires
        k_lo <= k_hi,
        k_hi <= BOARD_CELLS,
    ensures
        r@.len() == k_hi - k_lo + 1,
        forall|i: int|
            0 <= i < r@.len() ==> ((#[trigger] r@[i]).0 as int) == k_lo + i && r@[i].1 <= trials,
{
    let mut out: Vec<(usize, usize)> = Vec::new();
    let mut k: usize = k_lo;
    while k <= k_hi
        invariant
            k_lo <= k <= k_hi + 1,
            k_hi <= BOARD_CELLS,
            out@.len() == k - k_lo,
            forall|i: int|
                0 <= i < out@.len() ==> ((#[trigger] out@[i]).0 as int) == k_lo + i && out@[i].1
                    <= trials,
        decreases k_hi + 1 - k,
    {
        let mut connected: usize = 0;
        let mut t: usize = 0;
        while t < trials
            invariant
                k <= BOARD_CELLS,
                t <= trials,
                connected <= t,
            decreases trials - t,
        {
            let board = MarbleBoard::new_shuffled(k);
            if board.is_connected() {
                connected += 1;
            }
            t += 1;
        }
        out.push((k, connected));
        k += 1;
    }
    out
}

} // verus!
