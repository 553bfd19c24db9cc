//! One board from nine lines of nine values with commas between them.

use vstd::prelude::*;
use crate::grid::{Grid, grid_of, valid_grid};
use crate::input::error::LoadError;
use crate::sudoku::{Sudoku, SudokuError};
use crate::text::{chars_of, lines, lines_of, parse_u8, parsed_u8, split, split_on, texts_of, trim, trimmed};

verus! {

/// The loader for comma-separated text.
pub struct CsvHandler;

/// The values of the first `n` fields, unless one of them is no number.
pub open spec fn values_upto(fields: Seq<Seq<char>>, n: int) -> Option<Seq<u8>>
    decreases n,
{
    if n <= 0 {
        Some(Seq::empty())
    } else {
        match values_upto(fields, n - 1) {
            None => None,
            Some(values) => match parsed_u8(trimmed(fields[n - 1])) {
                None => None,
                Some(v) => Some(values.push(v)),
            },
        }
    }
}

/// The values of a line: those of its fields between commas, each without
/// the white space around it.
pub open spec fn line_values(line: Seq<char>) -> Option<Seq<u8>> {
    values_upto(split_on(line, ','), split_on(line, ',').len() as int)
}

/// The row that the line with the given number stands for, or what is
/// wrong with it.
pub open spec fn row_of_line(line: Seq<char>, number: usize) -> Result<Seq<u8>, LoadError> {
    match line_values(line) {
        None => Err(LoadError::InvalidNumber { line: number }),
        Some(values) => if values.len() != 9 {
            Err(LoadError::WrongValueCount { line: number })
        } else {
            Ok(values)
        },
    }
}

/// The rows of the first `n` lines, or what is wrong with the first line
/// that is no row.
pub open spec fn rows_upto(lines: Seq<Seq<char>>, n: int) -> Result<Grid, LoadError>
    decreases n,
{
    if n <= 0 {
        Ok(Seq::empty())
    } else {
        match rows_upto(lines, n - 1) {
            Err(e) => Err(e),
            Ok(rows) => match row_of_line(lines[n - 1], n as usize) {
                Err(e) => Err(e),
                Ok(row) => Ok(rows.push(row)),
            },
        }
    }
}

/// The grid that the text stands for: its lines are read in order up to
/// the first that is no row of nine numbers; there must be nine of them,
/// and they must make a legal board.
pub open spec fn csv_grid(text: Seq<char>) -> Result<Grid, LoadError> {
    let lines = lines_of(text);
    match rows_upto(lines, lines.len() as int) {
        Err(e) => Err(e),
        Ok(rows) => if rows.len() != 9 {
            Err(LoadError::WrongRowCount)
        } else if valid_grid(rows) {
            Ok(rows)
        } else {
            Err(LoadError::Board(SudokuError::InvalidBoard))
        },
    }
}

impl CsvHandler {
    /// The values of a line, unless one of them is no number.
    pub fn parse_values(line: &Vec<char>) -> (values: Option<Vec<u8>>)
        ensures
            match values {
                Some(row) => line_values(line@) == Some(row@),
                None => line_values(line@) is None,
            },
    {
        let fields = split(line, ',');
        let ghost texts = texts_of(fields@);
        let mut row: Vec<u8> = Vec::new();
        for i in 0..fields.len()
            invariant
                texts == texts_of(fields@),
                texts == split_on(line@, ','),
                values_upto(texts, i as int) == Some(row@),
        {
            assert(texts[i as int] == fields@[i as int]@);
            let field = trim(&fields[i]);
            match parse_u8(&field) {
                Some(v) => {
                    row.push(v);
                },
                None => {
                    assert(values_upto(texts, i + 1) is None);
                    proof {
                        lemma_values_stay_none(texts, i + 1, texts.len() as int);
                    }
                    return None;
                },
            }
        }
        Some(row)
    }

    /// The row that the line with the given number stands for.
    pub fn parse_row(line: &Vec<char>, number: usize) -> (res: Result<Vec<u8>, LoadError>)
        ensures
            match res {
                Ok(row) => row_of_line(line@, number) == Ok::<Seq<u8>, LoadError>(row@),
                Err(e) => row_of_line(line@, number) == Err::<Seq<u8>, LoadError>(e),
            },
    {
        match Self::parse_values(line) {
            None => Err(LoadError::InvalidNumber { line: number }),
            Some(row) => {
                if row.len() != 9 {
                    Err(LoadError::WrongValueCount { line: number })
                } else {
                    Ok(row)
                }
            },
        }
    }

    /// The board that a comma-separated text stands for, as a list of one.
    pub fn load_from_text(contents: &str) -> (res: Result<Vec<Sudoku>, LoadError>)
        ensures
            match res {
                Ok(boards) => boards@.len() == 1 && boards@[0].wf() && csv_grid(contents@) == Ok::<
                    Grid,
                    LoadError,
                >(boards@[0]@),
                Err(e) => csv_grid(contents@) == Err::<Grid, LoadError>(e),
            },
    {
        let chars = chars_of(contents);
        let rows = lines(&chars);
        let ghost texts = texts_of(rows@);
        let mut board: Vec<Vec<u8>> = Vec::new();
        assert(grid_of(board@) =~= Seq::empty());
        for i in 0..rows.len()
            invariant
                texts == texts_of(rows@),
                texts == lines_of(contents@),
                rows_upto(texts, i as int) == Ok::<Grid, LoadError>(grid_of(board@)),
                board@.len() == i,
        {
            assert(texts[i as int] == rows@[i as int]@);
            let ghost done = grid_of(board@);
            match Self::parse_row(&rows[i], i + 1) {
                Ok(row) => {
                    board.push(row);
                    assert(grid_of(board@) =~= done.push(row@));
                },
                Err(e) => {
                    assert(rows_upto(texts, i + 1) == Err::<Grid, LoadError>(e));
                    proof {
                        lemma_rows_stay_err(texts, i + 1, texts.len() as int);
                    }
                    return Err(e);
                },
            }
        }
        if board.len() != 9 {
            return Err(LoadError::WrongRowCount);
        }
        match Sudoku::new(board) {
            Ok(sudoku) => Ok(vec![sudoku]),
            Err(e) => Err(LoadError::Board(e)),
        }
    }
}

/// Once a field is no number, the line has no values.
proof fn lemma_values_stay_none(fields: Seq<Seq<char>>, n: int, m: int)
    requires
        0 <= n <= m,
        values_upto(fields, n) is None,
    ensures
        values_upto(fields, m) is None,
    decreases m,
{
    if n < m {
        lemma_values_stay_none(fields, n, m - 1);
    }
}

/// Once a line is no row, its error is the error of the text.
proof fn lemma_rows_stay_err(lines: Seq<Seq<char>>, n: int, m: int)
    requires
        0 <= n <= m,
        rows_upto(lines, n) is Err,
    ensures
        rows_upto(lines, m) == rows_upto(lines, n),
    decreases m,
{
    if n < m {
        lemma_rows_stay_err(lines, n, m - 1);
    }
}

} // verus!
