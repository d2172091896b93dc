//! Equaline puzzles, verified.
//!
//! A board is a grid in which numbers and operators alternate. A path walks
//! from cell to neighbouring cell, never twice over the same one, from a
//! number over an operator to the next number and so on, and evaluates
//! strictly from left to right. Solving a puzzle means finding the paths
//! that evaluate to a target.
//!
//! - [`board`]: cells, the board, bounds-checked access, path evaluation.
//! - [`exact`]: how evaluation in `i64` stands to evaluation on the integers.
//! - [`walk`]: walks on a grid, and why they are no longer than the grid is
//!   large.
//! - [`search`]: the exhaustive depth-first search for the solutions.
//! - [`search_laws`]: the search returns exactly the solutions, each once,
//!   in an order that leaves no choice.
//! - [`riddle`]: the progressive riddle, which solves ten puzzles in a row
//!   on one board whose cells move on with every solution.
//! - [`riddle_laws`]: the riddle's outcome is a chain of solutions whenever
//!   there is one.
//! - [`input`]: reading cells and numbers from words.
//! - [`report`]: what to tell of the solutions found.

pub mod board;
pub mod exact;
pub mod input;
pub mod report;
pub mod riddle;
pub mod riddle_laws;
pub mod search;
pub mod search_laws;
pub mod walk;
