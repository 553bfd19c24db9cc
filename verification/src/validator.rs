//! The placement test and the whole-board consistency test.

use vstd::prelude::*;
use crate::grid::{can_place, cell, conflict_free, digits_in_range, grid_of, in_range, same_box, shares_region, valid_grid, well_shaped};
use crate::regions::{box_cells, col_cells, distinct_digits, distinct_prefix, lemma_mark_step, lemma_regions_and_peers, marks_match, regions_distinct, row_cells};

verus! {

/// The rules of the game as tests on a matrix of digits.
pub struct Validator;

impl Validator {
    /// Whether `value` may go into the cell `(row, col)`: `false` as soon as
    /// the value occurs in the cell's row, column or box. The cell itself is
    /// scanned with the rest, so the answer is meant for an empty cell.
    pub fn is_valid(board: &Vec<Vec<u8>>, row: usize, col: usize, value: u8) -> (ok: bool)
        requires
            well_shaped(grid_of(board@)),
            row < 9,
            col < 9,
        ensures
            ok == can_place(grid_of(board@), row as int, col as int, value),
    {
        let ghost g = grid_of(board@);
        for i in 0..9usize
            invariant
                g == grid_of(board@),
                well_shaped(g),
                row < 9,
                col < 9,
                forall|k: int| 0 <= k < i ==> #[trigger] cell(g, row as int, k) != value,
                forall|k: int| 0 <= k < i ==> #[trigger] cell(g, k, col as int) != value,
        {
            assert(g[row as int].len() == 9 && g[i as int].len() == 9);
            if board[row][i] == value || board[i][col] == value {
                assert(cell(g, row as int, i as int) == value || cell(g, i as int, col as int)
                    == value);
                return false;
            }
        }

        let box_row_start = (row / 3) * 3;
        let box_col_start = (col / 3) * 3;

        for i in 0..3usize
            invariant
                g == grid_of(board@),
                well_shaped(g),
                row < 9,
                col < 9,
                box_row_start == (row / 3) * 3,
                box_col_start == (col / 3) * 3,
                forall|r: int, c: int|
                    box_row_start <= r < box_row_start + i && box_col_start <= c < box_col_start
                        + 3 ==> #[trigger] cell(g, r, c) != value,
        {
            for j in 0..3usize
                invariant
                    g == grid_of(board@),
                    well_shaped(g),
                    row < 9,
                    col < 9,
                    i < 3,
                    box_row_start == (row / 3) * 3,
                    box_col_start == (col / 3) * 3,
                    forall|r: int, c: int|
                        box_row_start <= r < box_row_start + i && box_col_start <= c
                            < box_col_start + 3 ==> #[trigger] cell(g, r, c) != value,
                    forall|c: int|
                        box_col_start <= c < box_col_start + j ==> #[trigger] cell(
                            g,
                            box_row_start + i,
                            c,
                        ) != value,
            {
                assert(g[box_row_start + i].len() == 9);
                if board[box_row_start + i][box_col_start + j] == value {
                    assert(cell(g, box_row_start + i, box_col_start + j) == value);
                    assert(same_box(
                        row as int,
                        col as int,
                        box_row_start + i,
                        box_col_start + j,
                    ));
                    return false;
                }
            }
        }
        assert forall|r2: int, c2: int|
            in_range(r2) && in_range(c2) && shares_region(
                row as int,
                col as int,
                r2,
                c2,
            ) implies #[trigger] cell(g, r2, c2) != value by {
            if r2 != row && c2 != col {
                assert(box_row_start <= r2 < box_row_start + 3);
                assert(box_col_start <= c2 < box_col_start + 3);
            }
        }
        true
    }

    /// Whether the matrix is a legal board: nine rows of nine digits, with no
    /// digit other than `0` twice in a row, a column or a box.
    pub fn is_valid_board(board: &Vec<Vec<u8>>) -> (ok: bool)
        ensures
            ok == valid_grid(grid_of(board@)),
    {
        if !has_board_shape(board) {
            return false;
        }
        let ghost g = grid_of(board@);
        proof {
            lemma_regions_and_peers(g);
        }
        for i in 0..9usize
            invariant
                g == grid_of(board@),
                well_shaped(g),
                digits_in_range(g),
                regions_distinct(g) <==> conflict_free(g),
                forall|k: int| 0 <= k < i ==> distinct_digits(#[trigger] row_cells(g, k)),
                forall|k: int| 0 <= k < i ==> distinct_digits(#[trigger] col_cells(g, k)),
        {
            let mut seen_row = [false;9];
            let mut seen_col = [false;9];
            let ghost rows = row_cells(g, i as int);
            let ghost cols = col_cells(g, i as int);
            for j in 0..9usize
                invariant
                    g == grid_of(board@),
                    well_shaped(g),
                    digits_in_range(g),
                    regions_distinct(g) <==> conflict_free(g),
                    i < 9,
                    rows == row_cells(g, i as int),
                    cols == col_cells(g, i as int),
                    marks_match(seen_row@, rows, j as int),
                    marks_match(seen_col@, cols, j as int),
                    distinct_prefix(rows, j as int),
                    distinct_prefix(cols, j as int),
            {
                assert(g[i as int].len() == 9 && g[j as int].len() == 9);
                proof {
                    assert forall|k: int| 0 <= k < 9 implies #[trigger] rows[k] <= 9 by {
                        assert(cell(g, i as int, k) <= 9);
                    }
                    assert forall|k: int| 0 <= k < 9 implies #[trigger] cols[k] <= 9 by {
                        assert(cell(g, k, i as int) <= 9);
                    }
                    lemma_mark_step(seen_row@, rows, j as int);
                    lemma_mark_step(seen_col@, cols, j as int);
                }
                let in_row = board[i][j];
                assert(in_row == rows[j as int]);
                if in_row != 0 {
                    let mark = (in_row - 1) as usize;
                    if seen_row[mark] {
                        assert(!distinct_digits(row_cells(g, i as int)));
                        return false;
                    }
                    seen_row[mark] = true;
                }
                let in_col = board[j][i];
                assert(in_col == cols[j as int]);
                if in_col != 0 {
                    let mark = (in_col - 1) as usize;
                    if seen_col[mark] {
                        assert(!distinct_digits(col_cells(g, i as int)));
                        return false;
                    }
                    seen_col[mark] = true;
                }
            }
        }

        for b in 0..9usize
            invariant
                g == grid_of(board@),
                well_shaped(g),
                digits_in_range(g),
                regions_distinct(g) <==> conflict_free(g),
                forall|k: int| 0 <= k < 9 ==> distinct_digits(#[trigger] row_cells(g, k)),
                forall|k: int| 0 <= k < 9 ==> distinct_digits(#[trigger] col_cells(g, k)),
                forall|k: int| 0 <= k < b ==> distinct_digits(#[trigger] box_cells(g, k)),
        {
            let box_row = (b / 3) * 3;
            let box_col = (b % 3) * 3;
            let mut seen = [false;9];
            let ghost cells = box_cells(g, b as int);
            for k in 0..9usize
                invariant
                    g == grid_of(board@),
                    well_shaped(g),
                    digits_in_range(g),
                    regions_distinct(g) <==> conflict_free(g),
                    b < 9,
                    box_row == (b / 3) * 3,
                    box_col == (b % 3) * 3,
                    cells == box_cells(g, b as int),
                    marks_match(seen@, cells, k as int),
                    distinct_prefix(cells, k as int),
            {
                let r = box_row + k / 3;
                let c = box_col + k % 3;
                assert(g[r as int].len() == 9);
                proof {
                    assert forall|n: int| 0 <= n < 9 implies #[trigger] cells[n] <= 9 by {
                        assert(cell(g, 3 * (b as int / 3) + n / 3, 3 * (b as int % 3) + n % 3) <= 9);
                    }
                    lemma_mark_step(seen@, cells, k as int);
                }
                let digit = board[r][c];
                assert(digit == cells[k as int]);
                if digit != 0 {
                    let mark = (digit - 1) as usize;
                    if seen[mark] {
                        assert(!distinct_digits(box_cells(g, b as int)));
                        return false;
                    }
                    seen[mark] = true;
                }
            }
        }
        true
    }
}

/// Whether the matrix has nine rows of nine cells, each at most `9`.
fn has_board_shape(board: &Vec<Vec<u8>>) -> (ok: bool)
    ensures
        ok == (well_shaped(grid_of(board@)) && digits_in_range(grid_of(board@))),
{
    let ghost g = grid_of(board@);
    if board.len() != 9 {
        return false;
    }
    for r in 0..9usize
        invariant
            g == grid_of(board@),
            g.len() == 9,
            forall|k: int| 0 <= k < r ==> (#[trigger] g[k]).len() == 9,
            forall|k: int, c: int| 0 <= k < r && in_range(c) ==> #[trigger] cell(g, k, c) <= 9,
    {
        if board[r].len() != 9 {
            assert(g[r as int].len() != 9);
            return false;
        }
        for c in 0..9usize
            invariant
                g == grid_of(board@),
                g.len() == 9,
                r < 9,
                g[r as int].len() == 9,
                forall|k: int| 0 <= k < r ==> (#[trigger] g[k]).len() == 9,
                forall|k: int, c: int| 0 <= k < r && in_range(c) ==> #[trigger] cell(g, k, c) <= 9,
                forall|k: int| 0 <= k < c ==> #[trigger] cell(g, r as int, k) <= 9,
        {
            if board[r][c] > 9 {
                assert(cell(g, r as int, c as int) > 9);
                return false;
            }
        }
    }
    true
}

} // verus!
