//! A verified Sudoku engine: constraint tracking with an indexed key set,
//! a backtracking solver, a uniqueness checker, and puzzle generation by
//! digging values out of a full board.

use vstd::prelude::*;

pub mod board;
pub mod gen;
pub mod grid;
pub mod parse;
pub mod solver;

pub use board::Sudoku;
pub use board::SudokuError;
pub use gen::gen_board;
pub use parse::SudokuParseError;
pub use solver::solve_puzzle;
pub use solver::unique_soln;
pub use solver::valid_board;
