//! A solver for the classic 9x9 constraint-satisfaction puzzle.
//!
//! A board holds 81 cells, each either solved (a fixed value in 1..=9) or
//! undetermined (a set of candidate values not yet excluded). The solver
//! alternates constraint propagation (naked-single elimination) with
//! depth-first backtracking search, and reports contradictions instead of
//! returning invalid grids.

mod board;
mod laws;
mod solver;
mod text;

pub use board::Candidates;
pub use board::Cell;
pub use board::Board;
pub use laws::block_has;
pub use laws::col_has;
pub use laws::row_has;
pub use laws::lemma_admitting_board_no_dup;
pub use laws::lemma_duplicate_admits_none;
pub use laws::lemma_solved_units_complete;
pub use solver::Level;
pub use solver::duplicate_witness;
pub use solver::emptied_cell_witness;
pub use solver::err_cell_in_range;
pub use solver::err_witnessed;
pub use solver::mrv_cell;
pub use solver::SolveError;
pub use solver::eliminate;
pub use solver::depth_first_search;
pub use solver::select_cell;
pub use solver::solve;
pub use text::parse_board;
