//! A solver for 9×9 Sudoku puzzles: the board and its invariant, the
//! placement rules, and two depth-first search strategies.

pub mod batch;
pub mod completion;
pub mod grid;
pub mod input;
pub mod regions;
pub mod solvers;
pub mod sudoku;
pub mod text;
pub mod validator;
