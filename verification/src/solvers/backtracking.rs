//! Plain depth-first search: the first empty cell in row-major order, the
//! digits in ascending order.

use vstd::prelude::*;
use crate::completion::{cell_at, is_least_solution_of, lemma_digit_ruled_out, lemma_full_grid_is_its_solution, lemma_least_solution_found, lemma_no_digit_left, solutions_hold_at_least};
use crate::grid::{Grid, can_place, cell, empty_count, full, in_range, is_solution_of, lemma_place_fills, lemma_place_same, lemma_place_twice, solvable};
use crate::solvers::solver::{Solver, is_placement_test};
use crate::sudoku::{Sudoku, SudokuError};
use crate::validator::Validator;

verus! {

/// The strategy that fills the first empty cell first.
pub struct BacktrackingSolver;

impl Solver for BacktrackingSolver {
    /// Of all the solutions the one that comes first in row-major
    /// lexicographic order is found.
    fn solve(board: &mut Sudoku) -> (res: Result<(), SudokuError>)
        ensures
            res is Ok ==> is_least_solution_of(final(board)@, old(board)@),
    {
        let is_valid = |board: &Sudoku, row: usize, col: usize, value: u8| -> (ok: bool)
            requires
                board.wf(),
                row < 9,
                col < 9,
            ensures
                ok == can_place(board@, row as int, col as int, value),
            { Validator::is_valid(board, row, col, value) };
        solve_with_validator(board, &is_valid)
    }
}

/// Fills the first empty cell with each digit that passes the placement
/// test, in ascending order, and searches on from there; a digit that leads
/// nowhere is taken back. The board ends as the first of its solutions in
/// row-major lexicographic order, or unchanged when it has none.
pub fn solve_with_validator<F>(board: &mut Sudoku, is_valid: &F) -> (res: Result<(), SudokuError>)
    where F: Fn(&Sudoku, usize, usize, u8) -> bool
    requires
        old(board).wf(),
        is_placement_test(is_valid),
    ensures
        final(board).wf(),
        res is Ok <==> solvable(old(board)@),
        res is Ok ==> is_least_solution_of(final(board)@, old(board)@),
        res is Err ==> res == Err::<(), SudokuError>(SudokuError::Unsolvable) && final(board)@
            == old(board)@,
    decreases empty_count(old(board)@),
{
    let ghost start = board@;
    for row in 0..9usize
        invariant
            start == old(board)@,
            board@ == start,
            board.wf(),
            is_placement_test(is_valid),
            forall|j: int| 0 <= j < 9 * row ==> #[trigger] cell_at(start, j) != 0,
    {
        for col in 0..9usize
            invariant
                start == old(board)@,
                board@ == start,
                board.wf(),
                is_placement_test(is_valid),
                row < 9,
                forall|j: int| 0 <= j < 9 * row + col ==> #[trigger] cell_at(start, j) != 0,
        {
            if board.get(row, col) == 0 {
                let mut value: u8 = 1;
                proof {
                    assert forall|t: Grid| #[trigger] is_solution_of(t, start) implies cell(
                        t,
                        row as int,
                        col as int,
                    ) >= 1 by {
                        assert(cell(t, row as int, col as int) != 0);
                    }
                }
                while value <= 9
                    invariant
                        start == old(board)@,
                        board@ == start,
                        board.wf(),
                        is_placement_test(is_valid),
                        row < 9,
                        col < 9,
                        1 <= value <= 10,
                        cell(start, row as int, col as int) == 0,
                        forall|j: int| 0 <= j < 9 * row + col ==> #[trigger] cell_at(start, j) != 0,
                        solutions_hold_at_least(start, row as int, col as int, value as int),
                    decreases 10 - value,
                {
                    if is_valid(&*board, row, col, value) {
                        board.fill(row, col, value);
                        proof {
                            lemma_place_fills(start, row as int, col as int, value);
                        }
                        if solve_with_validator(board, is_valid).is_ok() {
                            proof {
                                lemma_least_solution_found(
                                    start,
                                    board@,
                                    row as int,
                                    col as int,
                                    value,
                                );
                            }
                            return Ok(());
                        }
                        board.clear(row, col);
                        proof {
                            lemma_place_twice(start, row as int, col as int, value, 0);
                            lemma_place_same(start, row as int, col as int);
                        }
                    }
                    proof {
                        lemma_digit_ruled_out(start, row as int, col as int, value);
                    }
                    value += 1;
                }
                proof {
                    lemma_no_digit_left(start, row as int, col as int);
                }
                return Err(SudokuError::Unsolvable);
            }
            proof {
                let k = 9 * row + col;
                assert(k / 9 == row && k % 9 == col);
            }
        }
    }
    proof {
        assert forall|r: int, c: int| in_range(r) && in_range(c) implies #[trigger] cell(
            start,
            r,
            c,
        ) != 0 by {
            let k = 9 * r + c;
            assert(k / 9 == r && k % 9 == c);
            assert(cell_at(start, k) != 0);
        }
        assert(full(start));
        lemma_full_grid_is_its_solution(start);
    }
    Ok(())
}

} // verus!
