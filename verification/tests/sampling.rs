use phys::Marble;
use phys::MarbleBoard;
use phys::BOARD_CELLS;
use phys::BOARD_HEIGHT;
use phys::BOARD_WIDTH;

fn count_steels(mb: &MarbleBoard) -> usize {
    let mut ret = 0;
    for y in 0..BOARD_HEIGHT {
        for x in 0..BOARD_WIDTH {
            if mb.get(y, x) == Marble::Steel {
                ret += 1;
            }
        }
    }
    ret
}

#[test]
fn test_shuffled_generation() {
    for _ in 0..10 {
        for j in 100..400 {
            assert_eq!(j, count_steels(&MarbleBoard::new_shuffled(j)));
        }
    }
}

#[test]
fn test_exact_count_extremes() {
    assert_eq!(0, count_steels(&MarbleBoard::new_shuffled(0)));
    assert_eq!(1, count_steels(&MarbleBoard::new_shuffled(1)));
    assert_eq!(
        BOARD_CELLS,
        count_steels(&MarbleBoard::new_shuffled(BOARD_CELLS))
    );
}

// Each cell's chance of holding steel at a fixed count is the same, so over
// `reps` samples at half occupancy each cell's tally should sit near
// `reps / 2`. The bounds are loose (about ten standard deviations) so that
// the test is deterministic in practice, yet any fixed or strongly biased
// placement fails it.
#[test]
fn test_cell_marginal_uniformity() {
    let reps = 300usize;
    let half = BOARD_CELLS / 2;
    let mut tallies = vec![0usize; BOARD_CELLS];
    for _ in 0..reps {
        let mb = MarbleBoard::new_shuffled(half);
        for y in 0..BOARD_HEIGHT {
            for x in 0..BOARD_WIDTH {
                if mb.get(y, x) == Marble::Steel {
                    tallies[y * BOARD_WIDTH + x] += 1;
                }
            }
        }
    }
    for &t in tallies.iter() {
        assert!(t >= 60, "cell tally {} far below expectation", t);
        assert!(t <= 240, "cell tally {} far above expectation", t);
    }
}

// The probability of connection is non-decreasing in the steel count; at the
// extremes it is exactly 0 (no steel at all) and exactly 1 (all steel).
#[test]
fn test_connection_probability_extremes() {
    for _ in 0..20 {
        assert!(!MarbleBoard::new_shuffled(0).is_connected());
        assert!(MarbleBoard::new_shuffled(BOARD_CELLS).is_connected());
    }
}

#[test]
fn test_sweep_counts_ordered_and_bounded() {
    let low = phys::run_sweep_counts(0, 5, 3);
    assert_eq!(low.len(), 6);
    for (i, &(k, c)) in low.iter().enumerate() {
        assert_eq!(k, i);
        assert!(c <= 3);
    }
    // with almost no steel nothing connects
    assert_eq!(low[0].1, 0);

    let high = phys::run_sweep_counts(BOARD_CELLS - 1, BOARD_CELLS, 2);
    assert_eq!(high.len(), 2);
    assert_eq!(high[0].0, BOARD_CELLS - 1);
    assert_eq!(high[1].0, BOARD_CELLS);
    // a full board always connects
    assert_eq!(high[1].1, 2);
}
