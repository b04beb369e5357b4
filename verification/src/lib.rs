//! A verified 9x9 Sudoku engine.
//!
//! A grid is a 9x9 matrix of small unsigned integers: `0` marks a blank cell,
//! `1..=9` a placed digit, and anything above 9 is structurally invalid.
//! The validator classifies a grid as `Valid`, `Invalid` or `NotCompleted`,
//! and the solver fills every blank by constraint propagation and
//! backtracking search, or reports that no solution exists.

pub mod candidates;
pub mod grid;
pub mod solver;
pub mod validator;

pub use candidates::possible_nums;
pub use solver::sudoku_solver;
pub use validator::is_duplicate;
pub use validator::sudoku_check;
pub use validator::Status;
