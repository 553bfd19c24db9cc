//! The search strategies and the dispatcher that picks one by name.

pub mod backtracking;
pub mod heuristic;
pub mod solver;
