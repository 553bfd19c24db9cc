//! Boards from text: the file formats and their errors.

pub mod boardsource;
pub mod csv_handler;
pub mod error;
pub mod json_handler;
