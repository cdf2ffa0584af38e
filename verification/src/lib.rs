//! Sudoku puzzles on the classic 9×9 grid: conflict checking, candidate
//! tracking, an exhaustive randomized solver and a puzzle generator.

pub mod board;
pub mod completion;
pub mod container;
pub mod field;
pub mod game;
pub mod generator;
pub mod laws;
pub mod pattern;
pub mod random;
pub mod solver;
