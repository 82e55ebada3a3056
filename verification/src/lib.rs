//! A Sudoku engine: a grid of candidate masks, the deduction rules that
//! narrow it, the loop that applies them, and a puzzle generator built on
//! both.
//!
//! The grid keeps, for every square, the digits still possible there. Writing
//! a digit strikes it from the squares that share a row, a column or a region
//! with it. The rules make the deductions that a person makes with pencil
//! marks; none of them searches or guesses. A grid that meets a contradiction
//! becomes invalid and is changed no more.
//!
//! Every operation is stated over `board::Board`, the grid as a mathematical
//! value, and proved to keep its invariants. On a grid that knows its answers
//! the rules are proved never to strike an answer.

pub mod board;
pub mod cell;
pub mod generator;
pub mod grid;
pub mod laws;
pub mod mask;
pub mod position;
pub mod render;
pub mod search;
pub mod solvers;
pub mod text;
