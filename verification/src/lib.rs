//! A solver for nine-by-nine grid puzzles in which every row, column and
//! three-by-three square must hold each digit one through nine at most once.
//!
//! [`Board`] stores the grid; [`valid`] and [`complete`] check its state;
//! [`solve`] finds the first completion of a puzzle, if one exists, and
//! [`SolutionIter`] enumerates all completions lazily, one per demand.

pub mod board;
pub mod grid;
pub mod solver;
pub mod text;

pub use board::Board;
pub use board::BOARD_SIZE;
pub use board::SQUARE_SIZE;
pub use solver::complete;
pub use solver::solve;
pub use solver::valid;
pub use solver::SolutionIter;
pub use text::parse_board;
