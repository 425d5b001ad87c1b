//! A constraint-solving engine for the classic 9x9 digit-placement puzzle:
//! a board of cells with duplicate detection, a backtracking solver that
//! enumerates complete rule-consistent grids, and a puzzle generator that
//! carves a solved grid down to a puzzle with a guaranteed unique solution.
//!
//! Cells are addressed by (row, column), each 0..=8; a cell holds a digit
//! 0..=9, where 0 means empty. Specifications speak of the flat row-major
//! position `row * 9 + col` over the board's 81-cell view.

pub mod grid;
pub mod gameboard;
mod randsrc;
pub mod solver;
pub mod generator;
