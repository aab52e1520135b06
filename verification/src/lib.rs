//! Solvers for four puzzles on small text inputs: calibration values
//! (`day1`), games of coloured cubes (`day2`), numbers and symbols in a grid
//! (`day3`) and scratch cards (`day4`). Each solver is a function from the
//! input text to a number, with a contract over the text's characters.

pub mod day1;
pub mod day2;
pub mod day3;
pub mod day4;
pub mod geometry;
pub mod schematic_laws;
pub mod sums;
pub mod text;
pub mod text_laws;
