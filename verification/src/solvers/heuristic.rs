//! Depth-first search that always fills the most constrained empty cell:
//! the one with the fewest digits that pass the placement test.

use vstd::prelude::*;
use crate::completion::{cell_at, is_least_solution_of, lemma_digit_ruled_out, lemma_full_grid_is_its_solution, lemma_no_digit_left, lemma_solutions_after_place, solutions_hold_at_least};
use crate::grid::{Grid, can_place, cell, empty_count, full, in_range, is_solution_of, lemma_place_fills, lemma_place_keeps_valid, lemma_place_same, lemma_place_twice, place, solvable, valid_grid, well_posed, well_shaped};
use crate::solvers::solver::{Solver, is_placement_test};
use crate::sudoku::{Sudoku, SudokuError};
use crate::validator::Validator;

verus! {

/// The strategy that fills the most constrained cell first.
pub struct Heuristic;

/// How many of the digits `1` to `n` pass the placement test at `(r, c)`.
pub open spec fn candidates_upto(g: Grid, r: int, c: int, n: int) -> nat
    decreases n,
{
    if n <= 0 {
        0
    } else {
        candidates_upto(g, r, c, n - 1) + if can_place(g, r, c, n as u8) {
            1nat
        } else {
            0nat
        }
    }
}

/// How many of the nine digits pass the placement test at `(r, c)`.
pub open spec fn candidate_count(g: Grid, r: int, c: int) -> nat {
    candidates_upto(g, r, c, 9)
}

/// Among the first `k` cells in row-major order, `(r, c)` is the empty one
/// with the fewest candidates, and the first of those with as few.
pub open spec fn is_most_constrained_before(g: Grid, r: int, c: int, k: int) -> bool {
    &&& in_range(r)
    &&& in_range(c)
    &&& 9 * r + c < k
    &&& cell(g, r, c) == 0
    &&& forall|r2: int, c2: int|
        in_range(r2) && in_range(c2) && 9 * r2 + c2 < k && #[trigger] cell(g, r2, c2) == 0 ==> if 9
            * r2 + c2 < 9 * r + c {
            candidate_count(g, r, c) < candidate_count(g, r2, c2)
        } else {
            candidate_count(g, r, c) <= candidate_count(g, r2, c2)
        }
}

/// `(r, c)` is the empty cell with the fewest candidates, and the first in
/// row-major order of those with as few.
pub open spec fn is_most_constrained(g: Grid, r: int, c: int) -> bool {
    is_most_constrained_before(g, r, c, 81)
}

/// The board that the strategy ends with, if it finds one: the grid itself
/// when it is full, else the first success among the digits tried in
/// ascending order in the most constrained cell.
pub open spec fn mrv_solution(g: Grid) -> Option<Grid>
    decreases empty_count(g), 10int,
{
    if !well_shaped(g) {
        None
    } else if full(g) {
        Some(g)
    } else {
        let p = choose|p: (int, int)| is_most_constrained(g, p.0, p.1);
        mrv_from_digit(g, p.0, p.1, 1)
    }
}

/// The board that the strategy ends with once the digits below `v` have
/// failed in the cell `(r, c)`.
pub open spec fn mrv_from_digit(g: Grid, r: int, c: int, v: int) -> Option<Grid>
    decreases empty_count(g), 10 - v,
    via mrv_from_digit_decreases
{
    if !(well_shaped(g) && in_range(r) && in_range(c) && cell(g, r, c) == 0 && 1 <= v <= 9) {
        None
    } else if can_place(g, r, c, v as u8) && mrv_solution(place(g, r, c, v as u8)) is Some {
        mrv_solution(place(g, r, c, v as u8))
    } else {
        mrv_from_digit(g, r, c, v + 1)
    }
}

#[via_fn]
proof fn mrv_from_digit_decreases(g: Grid, r: int, c: int, v: int) {
    if well_shaped(g) && in_range(r) && in_range(c) && cell(g, r, c) == 0 && 1 <= v <= 9 {
        lemma_place_fills(g, r, c, v as u8);
    }
}

/// At most `n` of the digits `1` to `n` pass the placement test.
pub proof fn lemma_candidates_bound(g: Grid, r: int, c: int, n: int)
    requires
        0 <= n,
    ensures
        candidates_upto(g, r, c, n) <= n,
    decreases n,
{
    if n > 0 {
        lemma_candidates_bound(g, r, c, n - 1);
    }
}

/// A grid has at most one most constrained cell.
pub proof fn lemma_most_constrained_unique(g: Grid, r1: int, c1: int, r2: int, c2: int)
    requires
        is_most_constrained(g, r1, c1),
        is_most_constrained(g, r2, c2),
    ensures
        r1 == r2 && c1 == c2,
{
    assert(cell(g, r1, c1) == 0 && cell(g, r2, c2) == 0);
}

/// In a grid with the most constrained cell `(r, c)` the search starts
/// there, with the digit `1`.
pub proof fn lemma_mrv_starts_at(g: Grid, r: int, c: int)
    requires
        well_shaped(g),
        is_most_constrained(g, r, c),
    ensures
        mrv_solution(g) == mrv_from_digit(g, r, c, 1),
{
    assert(!full(g));
    let p = choose|p: (int, int)| is_most_constrained(g, p.0, p.1);
    assert(is_most_constrained(g, (r, c).0, (r, c).1));
    lemma_most_constrained_unique(g, r, c, p.0, p.1);
}

impl Solver for Heuristic {
    /// The board found is the one that the ascending trial of digits in the
    /// most constrained cell reaches first.
    fn solve(board: &mut Sudoku) -> (res: Result<(), SudokuError>)
        ensures
            res is Ok ==> mrv_solution(old(board)@) == Some(final(board)@),
            res is Err ==> mrv_solution(old(board)@) is None,
    {
        let is_valid = |board: &Sudoku, row: usize, col: usize, value: u8| -> (ok: bool)
            requires
                board.wf(),
                row < 9,
                col < 9,
            ensures
                ok == can_place(board@, row as int, col as int, value),
            { Validator::is_valid(board, row, col, value) };
        solve_with_heuristic(board, &is_valid)
    }
}

/// How many digits pass the placement test at the cell `(row, col)`.
pub fn count_candidates<F>(board: &Sudoku, row: usize, col: usize, is_valid: &F) -> (count: u8)
    where F: Fn(&Sudoku, usize, usize, u8) -> bool
    requires
        board.wf(),
        is_placement_test(is_valid),
        row < 9,
        col < 9,
    ensures
        count == candidate_count(board@, row as int, col as int),
        count <= 9,
{
    let mut count: u8 = 0;
    let mut value: u8 = 1;
    while value <= 9
        invariant
            board.wf(),
            is_placement_test(is_valid),
            row < 9,
            col < 9,
            1 <= value <= 10,
            count == candidates_upto(board@, row as int, col as int, value - 1),
            count < value,
        decreases 10 - value,
    {
        if is_valid(board, row, col, value) {
            count += 1;
        }
        value += 1;
    }
    count
}

/// The most constrained empty cell of the board, or `None` for a full
/// board.
pub fn most_constrained_cell<F>(board: &Sudoku, is_valid: &F) -> (found: Option<(usize, usize)>)
    where F: Fn(&Sudoku, usize, usize, u8) -> bool
    requires
        board.wf(),
        is_placement_test(is_valid),
    ensures
        match found {
            Some((row, col)) => is_most_constrained(board@, row as int, col as int),
            None => full(board@),
        },
{
    let ghost g = board@;
    let mut empty_cell: Option<(usize, usize)> = None;
    let mut min_choices: u8 = 10;
    for row in 0..9usize
        invariant
            g == board@,
            board.wf(),
            is_placement_test(is_valid),
            scanned(g, empty_cell, min_choices, 9 * row),
    {
        for col in 0..9usize
            invariant
                g == board@,
                board.wf(),
                is_placement_test(is_valid),
                row < 9,
                scanned(g, empty_cell, min_choices, 9 * row + col),
        {
            let ghost k = 9 * row + col;
            assert(k / 9 == row && k % 9 == col);
            let ghost earlier = empty_cell;
            let ghost fewest = min_choices;
            if board.get(row, col) == 0 {
                let valid_choices = count_candidates(board, row, col, is_valid);
                if valid_choices < min_choices {
                    min_choices = valid_choices;
                    empty_cell = Some((row, col));
                }
            }
            proof {
                lemma_scan_step(g, earlier, fewest, row as int, col as int);
            }
        }
    }
    proof {
        if empty_cell is None {
            assert forall|r: int, c: int| in_range(r) && in_range(c) implies #[trigger] cell(
                g,
                r,
                c,
            ) != 0 by {
                let k = 9 * r + c;
                assert(k / 9 == r && k % 9 == c);
                assert(cell_at(g, k) != 0);
            }
        }
    }
    empty_cell
}

/// What the scan for the most constrained cell knows after `k` cells.
pub open spec fn scanned(g: Grid, best: Option<(usize, usize)>, fewest: u8, k: int) -> bool {
    match best {
        Some((r, c)) => is_most_constrained_before(g, r as int, c as int, k) && fewest
            == candidate_count(g, r as int, c as int),
        None => fewest == 10 && forall|j: int| 0 <= j < k ==> #[trigger] cell_at(g, j) != 0,
    }
}

/// What looking at the cell `(r, c)` adds to what the scan knows.
proof fn lemma_scan_step(g: Grid, best: Option<(usize, usize)>, fewest: u8, r: int, c: int)
    requires
        in_range(r),
        in_range(c),
        scanned(g, best, fewest, 9 * r + c),
    ensures
        cell(g, r, c) != 0 ==> scanned(g, best, fewest, 9 * r + c + 1),
        cell(g, r, c) == 0 && candidate_count(g, r, c) < fewest ==> is_most_constrained_before(
            g,
            r,
            c,
            9 * r + c + 1,
        ),
        cell(g, r, c) == 0 && candidate_count(g, r, c) >= fewest ==> scanned(
            g,
            best,
            fewest,
            9 * r + c + 1,
        ),
{
    let k = 9 * r + c;
    assert(k / 9 == r && k % 9 == c);
    match best {
        Some((br, bc)) => {
            if cell(g, r, c) != 0 || candidate_count(g, r, c) >= fewest {
                assert forall|r2: int, c2: int|
                    in_range(r2) && in_range(c2) && 9 * r2 + c2 < k + 1 && #[trigger] cell(
                        g,
                        r2,
                        c2,
                    ) == 0 implies if 9 * r2 + c2 < 9 * br + bc {
                    candidate_count(g, br as int, bc as int) < candidate_count(g, r2, c2)
                } else {
                    candidate_count(g, br as int, bc as int) <= candidate_count(g, r2, c2)
                } by {
                    if 9 * r2 + c2 == k {
                        assert((9 * r2 + c2) / 9 == r2);
                        assert(r2 == r && c2 == c);
                    }
                }
            }
        },
        None => {
            assert forall|r2: int, c2: int|
                in_range(r2) && in_range(c2) && 9 * r2 + c2 < k implies #[trigger] cell(
                g,
                r2,
                c2,
            ) != 0 by {
                let j = 9 * r2 + c2;
                assert(j / 9 == r2 && j % 9 == c2);
                assert(cell_at(g, j) != 0);
            }
            if cell(g, r, c) != 0 {
                assert forall|j: int| 0 <= j < k + 1 implies #[trigger] cell_at(g, j) != 0 by {
                    if j != k {
                        assert(cell_at(g, j) != 0);
                    }
                }
            } else {
                lemma_candidates_bound(g, r, c, 9);
            }
        },
    }
}

/// Fills the most constrained empty cell with each digit that passes the
/// placement test, in ascending order, and searches on from there; a digit
/// that leads nowhere is taken back and the cell emptied again. The board
/// ends as a solution, or unchanged when it has none.
pub fn solve_with_heuristic<F>(board: &mut Sudoku, is_valid: &F) -> (res: Result<(), SudokuError>)
    where F: Fn(&Sudoku, usize, usize, u8) -> bool
    requires
        old(board).wf(),
        is_placement_test(is_valid),
    ensures
        final(board).wf(),
        res is Ok <==> solvable(old(board)@),
        res is Ok ==> is_solution_of(final(board)@, old(board)@) && mrv_solution(old(board)@)
            == Some(final(board)@),
        res is Err ==> res == Err::<(), SudokuError>(SudokuError::Unsolvable) && final(board)@
            == old(board)@ && mrv_solution(old(board)@) is None,
    decreases empty_count(old(board)@),
{
    let ghost start = board@;
    if let Some((row, col)) = most_constrained_cell(&*board, is_valid) {
        let mut value: u8 = 1;
        proof {
            lemma_mrv_starts_at(start, row as int, col as int);
            assert forall|t: Grid| #[trigger] is_solution_of(t, start) implies cell(
                t,
                row as int,
                col as int,
            ) >= 1 by {
                assert(cell(t, row as int, col as int) != 0);
            }
        }
        while value <= 9
            invariant
                start == old(board)@,
                board@ == start,
                board.wf(),
                is_placement_test(is_valid),
                row < 9,
                col < 9,
                1 <= value <= 10,
                cell(start, row as int, col as int) == 0,
                mrv_solution(start) == mrv_from_digit(start, row as int, col as int, value as int),
                solutions_hold_at_least(start, row as int, col as int, value as int),
            decreases 10 - value,
        {
            if is_valid(&*board, row, col, value) {
                board.fill(row, col, value);
                proof {
                    lemma_place_fills(start, row as int, col as int, value);
                }
                if solve_with_heuristic(board, is_valid).is_ok() {
                    proof {
                        lemma_solutions_after_place(start, board@, row as int, col as int, value);
                    }
                    return Ok(());
                }
                board.clear(row, col);
                proof {
                    lemma_place_twice(start, row as int, col as int, value, 0);
                    lemma_place_same(start, row as int, col as int);
                }
            }
            proof {
                lemma_digit_ruled_out(start, row as int, col as int, value);
            }
            value += 1;
        }
        proof {
            lemma_no_digit_left(start, row as int, col as int);
        }
        return Err(SudokuError::Unsolvable);
    }
    proof {
        lemma_full_grid_is_its_solution(start);
    }
    Ok(())
}

/// What the scan for the most constrained cell knows after `k` cells, for
/// every grid.
proof fn lemma_scan(g: Grid, k: int) -> (found: (Option<(usize, usize)>, u8))
    requires
        0 <= k <= 81,
    ensures
        scanned(g, found.0, found.1, k),
    decreases k,
{
    if k == 0 {
        (None, 10u8)
    } else {
        let (best, fewest) = lemma_scan(g, k - 1);
        let r = (k - 1) / 9;
        let c = (k - 1) % 9;
        assert(9 * r + c == k - 1);
        lemma_scan_step(g, best, fewest, r, c);
        lemma_candidates_bound(g, r, c, 9);
        if cell(g, r, c) == 0 && candidate_count(g, r, c) < fewest {
            (Some((r as usize, c as usize)), candidate_count(g, r, c) as u8)
        } else {
            (best, fewest)
        }
    }
}

/// A grid with an empty cell has a most constrained cell.
pub proof fn lemma_most_constrained_exists(g: Grid) -> (found: (int, int))
    requires
        !full(g),
    ensures
        is_most_constrained(g, found.0, found.1),
{
    let (best, fewest) = lemma_scan(g, 81);
    match best {
        Some((r, c)) => (r as int, c as int),
        None => {
            assert forall|r: int, c: int| in_range(r) && in_range(c) implies #[trigger] cell(
                g,
                r,
                c,
            ) != 0 by {
                let k = 9 * r + c;
                assert(k / 9 == r && k % 9 == c);
                assert(cell_at(g, k) != 0);
            }
            (0, 0)
        },
    }
}

/// The search finds a solution of every legal grid that has one, and none
/// where there is none.
pub proof fn lemma_mrv_solution_correct(g: Grid)
    requires
        valid_grid(g),
    ensures
        mrv_solution(g) is Some <==> solvable(g),
        mrv_solution(g) matches Some(s) ==> is_solution_of(s, g),
    decreases empty_count(g), 10int,
{
    if full(g) {
        lemma_full_grid_is_its_solution(g);
    } else {
        let (r, c) = lemma_most_constrained_exists(g);
        lemma_mrv_starts_at(g, r, c);
        assert forall|t: Grid| #[trigger] is_solution_of(t, g) implies cell(t, r, c) >= 1 by {
            assert(cell(t, r, c) != 0);
        }
        lemma_mrv_from_digit_correct(g, r, c, 1);
    }
}

/// The search from the digit `v` on finds a solution where there is one
/// with `v` or more in the cell, and none where there is none.
proof fn lemma_mrv_from_digit_correct(g: Grid, r: int, c: int, v: int)
    requires
        valid_grid(g),
        in_range(r),
        in_range(c),
        cell(g, r, c) == 0,
        1 <= v <= 10,
        solutions_hold_at_least(g, r, c, v),
    ensures
        mrv_from_digit(g, r, c, v) is Some <==> solvable(g),
        mrv_from_digit(g, r, c, v) matches Some(s) ==> is_solution_of(s, g),
    decreases empty_count(g), 10 - v,
{
    if v == 10 {
        lemma_no_digit_left(g, r, c);
    } else {
        let d = v as u8;
        let h = place(g, r, c, d);
        if can_place(g, r, c, d) {
            lemma_place_keeps_valid(g, r, c, d);
            lemma_place_fills(g, r, c, d);
            lemma_mrv_solution_correct(h);
            if mrv_solution(h) is Some {
                lemma_solutions_after_place(g, mrv_solution(h)->0, r, c, d);
            }
        }
        if !(can_place(g, r, c, d) && mrv_solution(h) is Some) {
            lemma_digit_ruled_out(g, r, c, d);
            lemma_mrv_from_digit_correct(g, r, c, v + 1);
        }
    }
}

/// On a legal grid with exactly one solution the search ends with that
/// solution, which is also the first in row-major lexicographic order.
pub proof fn lemma_mrv_solution_of_well_posed(g: Grid)
    requires
        valid_grid(g),
        well_posed(g),
    ensures
        mrv_solution(g) matches Some(s) && is_least_solution_of(s, g),
{
    lemma_mrv_solution_correct(g);
}

} // verus!
