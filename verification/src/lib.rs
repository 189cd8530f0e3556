//! Monte-Carlo estimation of the percolation probability of a fixed-size
//! board of steel (conductive) and glass (insulating) marbles.
//!
//! A board percolates when a 4-connected chain of steel marbles joins the
//! top row to the boundary just below the bottom row. The library provides
//! the board itself, an exact-count uniform sampler, a verified
//! breadth-first connectivity checker, and a sequential sweep driver that
//! counts connected outcomes per steel count.

mod board;
mod percolation;
mod sweep;

pub use board::Marble;
pub use board::MarbleBoard;
pub use board::BOARD_CELLS;
pub use board::BOARD_HEIGHT;
pub use board::BOARD_WIDTH;
pub use board::in_bounds;
pub use board::lemma_full_steel_all_steel;
pub use board::lemma_no_steel_all_glass;
pub use percolation::adjacent;
pub use percolation::is_steel_path;
pub use percolation::lemma_all_glass_not_percolating;
pub use percolation::lemma_full_board_percolates;
pub use percolation::lemma_full_column_percolates;
pub use percolation::lemma_no_steel_not_percolating;
pub use percolation::lemma_more_steel_preserves_percolation;
pub use percolation::lemma_top_row_glass_not_percolating;
pub use percolation::path_cell_ok;
pub use percolation::path_step_ok;
pub use percolation::percolates;
pub use percolation::reaches;
pub use sweep::run_sweep_counts;
