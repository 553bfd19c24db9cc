//! Why a text or a batch of matrices gave no boards.

use vstd::prelude::*;
use vstd::string::StringExecFns;
use crate::sudoku::SudokuError;
use crate::text::{decimal_string, decimal_text};

verus! {

/// Why loading boards failed.
#[derive(Debug, Clone, Copy, PartialEq, Eq, Structural)]
pub enum LoadError {
    /// The array of records is empty.
    NoBoardsFound,
    /// A value of the line with this number, counted from 1, is no number
    /// from 0 to 255.
    InvalidNumber { line: usize },
    /// The line with this number, counted from 1, does not hold nine values.
    WrongValueCount { line: usize },
    /// The text does not hold nine lines.
    WrongRowCount,
    /// The matrix is no legal board.
    Board(SudokuError),
    /// None of the boards of a batch could be solved.
    NoValidBoards,
}

impl LoadError {
    /// What the error says in words.
    pub open spec fn text(self) -> Seq<char> {
        match self {
            LoadError::NoBoardsFound => "No Sudoku boards found in the file"@,
            LoadError::InvalidNumber { line } => "Invalid number in line "@ + decimal_text(
                line as nat,
            ),
            LoadError::WrongValueCount { line } => "Line "@ + decimal_text(line as nat)
                + " does not contain 9 values"@,
            LoadError::WrongRowCount => "CSV does not contain 9 rows"@,
            LoadError::Board(e) => e.text(),
            LoadError::NoValidBoards => "No valid Sudoku boards found"@,
        }
    }

    /// What the error says in words.
    pub fn message(&self) -> (s: String)
        ensures
            s@ == self.text(),
    {
        match self {
            LoadError::NoBoardsFound => String::from_str("No Sudoku boards found in the file"),
            LoadError::InvalidNumber { line } => {
                let mut s = String::from_str("Invalid number in line ");
                let number = decimal_string(*line);
                s.append(number.as_str());
                s
            },
            LoadError::WrongValueCount { line } => {
                let mut s = String::from_str("Line ");
                let number = decimal_string(*line);
                s.append(number.as_str());
                s.append(" does not contain 9 values");
                s
            },
            LoadError::WrongRowCount => String::from_str("CSV does not contain 9 rows"),
            LoadError::Board(e) => String::from_str(e.message()),
            LoadError::NoValidBoards => String::from_str("No valid Sudoku boards found"),
        }
    }
}

} // verus!
