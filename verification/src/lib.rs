//! A 9x9 sudoku solving library.
//!
//! A [`SudokuBoard`] holds the 81 cells of a grid, each either finally known
//! or carrying the set of digits still possible for it.  Committing a digit
//! to a cell propagates its exclusion to the peers in the same row, column
//! and 3x3 square, and the solver alternates exhaustive forced-move
//! propagation with a backtracking search over the least-constrained cell.

mod digits;
mod cells;
mod board;
mod laws;
mod solver;

pub use board::SudokuBoard;
pub use board::SudokuError;
pub use board::SudokuResult;
pub use cells::BoxValue;
pub use cells::Node;
