//! A verified 9×9 Sudoku solver: per-cell candidate bitsets, the elimination
//! rule for the row/column/block uniqueness constraint, a structural validity
//! check, and a constraint-propagation-plus-backtracking search whose branch
//! fan-out can run across parallel workers.

pub mod board;
pub mod cell;
pub mod index;
pub mod solver;

pub use board::Board;
pub use cell::Cell;
pub use index::BoardIdx;
pub use index::SquareIdx;
pub use solver::solve;
pub use solver::solve_seq;
