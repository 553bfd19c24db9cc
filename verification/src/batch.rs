//! Many boards at once: each matrix is judged and solved on its own, and
//! the batch fails only when none of them could be solved.

use vstd::prelude::*;
use crate::completion::{least_solution, lemma_least_solution};
use crate::grid::{Grid, grid_of, solvable, valid_grid};
use crate::input::error::LoadError;
use crate::solvers::backtracking::BacktrackingSolver;
use crate::solvers::solver::Solver;
use crate::sudoku::Sudoku;

verus! {

/// What became of one matrix of a batch.
#[derive(Debug)]
pub enum BoardOutcome {
    /// The matrix is a legal board, and this is its solution.
    Solved(Sudoku),
    /// The matrix is a legal board without a solution.
    Unsolvable,
    /// The matrix is no legal board.
    Invalid,
}

/// `out` is what becomes of the matrix that stands for `g`.
pub open spec fn is_outcome_for(out: BoardOutcome, g: Grid) -> bool {
    match out {
        BoardOutcome::Solved(s) => valid_grid(g) && solvable(g) && s.wf() && s@ == least_solution(
            g,
        ),
        BoardOutcome::Unsolvable => valid_grid(g) && !solvable(g),
        BoardOutcome::Invalid => !valid_grid(g),
    }
}

/// The grids of a list of matrices.
pub open spec fn grids_of(matrices: Seq<Vec<Vec<u8>>>) -> Seq<Grid> {
    Seq::new(matrices.len(), |i: int| grid_of(matrices[i]@))
}

/// The grids of a list of boards.
pub open spec fn views_of(boards: Seq<Sudoku>) -> Seq<Grid> {
    Seq::new(boards.len(), |i: int| boards[i]@)
}

/// The solutions of those grids that are legal boards with a solution, in
/// the order of the grids.
pub open spec fn batch_solutions(grids: Seq<Grid>) -> Seq<Grid>
    decreases grids.len(),
{
    if grids.len() == 0 {
        Seq::empty()
    } else {
        let before = batch_solutions(grids.drop_last());
        if valid_grid(grids.last()) && solvable(grids.last()) {
            before.push(least_solution(grids.last()))
        } else {
            before
        }
    }
}

/// The solutions among a list of outcomes, in order.
pub open spec fn solved_among(outcomes: Seq<BoardOutcome>) -> Seq<Grid>
    decreases outcomes.len(),
{
    if outcomes.len() == 0 {
        Seq::empty()
    } else {
        let before = solved_among(outcomes.drop_last());
        match outcomes.last() {
            BoardOutcome::Solved(s) => before.push(s@),
            _ => before,
        }
    }
}

/// The outcomes are those of the grids, one for one.
pub open spec fn are_outcomes_for(outcomes: Seq<BoardOutcome>, grids: Seq<Grid>) -> bool {
    &&& outcomes.len() == grids.len()
    &&& forall|i: int| 0 <= i < outcomes.len() ==> is_outcome_for(#[trigger] outcomes[i], grids[i])
}

/// The solutions among the outcomes of a list of grids are the solutions
/// of that batch.
pub proof fn lemma_solved_among_outcomes(outcomes: Seq<BoardOutcome>, grids: Seq<Grid>)
    requires
        are_outcomes_for(outcomes, grids),
    ensures
        solved_among(outcomes) == batch_solutions(grids),
    decreases outcomes.len(),
{
    if outcomes.len() > 0 {
        assert(is_outcome_for(outcomes.last(), grids.last()));
        lemma_solved_among_outcomes(outcomes.drop_last(), grids.drop_last());
    }
}

/// The solutions among the outcomes of a list of grids are legal boards.
pub proof fn lemma_solved_among_are_valid(outcomes: Seq<BoardOutcome>, grids: Seq<Grid>)
    requires
        are_outcomes_for(outcomes, grids),
    ensures
        forall|i: int|
            0 <= i < solved_among(outcomes).len() ==> valid_grid(
                #[trigger] solved_among(outcomes)[i],
            ),
    decreases outcomes.len(),
{
    if outcomes.len() > 0 {
        assert(is_outcome_for(outcomes.last(), grids.last()));
        lemma_solved_among_are_valid(outcomes.drop_last(), grids.drop_last());
        let before = solved_among(outcomes.drop_last());
        assert forall|i: int| 0 <= i < solved_among(outcomes).len() implies valid_grid(
            #[trigger] solved_among(outcomes)[i],
        ) by {
            if i < before.len() {
                assert(solved_among(outcomes)[i] == before[i]);
            }
        }
    }
}

/// Judges one matrix and, where it is a legal board, solves it by plain
/// backtracking.
pub fn solve_board(matrix: Vec<Vec<u8>>) -> (out: BoardOutcome)
    ensures
        is_outcome_for(out, grid_of(matrix@)),
{
    match Sudoku::new(matrix) {
        Err(_) => BoardOutcome::Invalid,
        Ok(sudoku) => {
            let mut sudoku = sudoku;
            let ghost g = sudoku@;
            match BacktrackingSolver::solve(&mut sudoku) {
                Ok(()) => {
                    proof {
                        lemma_least_solution(g, sudoku@);
                    }
                    BoardOutcome::Solved(sudoku)
                },
                Err(_) => BoardOutcome::Unsolvable,
            }
        },
    }
}

/// Judges and solves each matrix of a batch on its own.
pub fn solve_boards(matrices: Vec<Vec<Vec<u8>>>) -> (outcomes: Vec<BoardOutcome>)
    ensures
        are_outcomes_for(outcomes@, grids_of(matrices@)),
{
    let ghost grids = grids_of(matrices@);
    let mut outcomes: Vec<BoardOutcome> = Vec::new();
    for matrix in it: matrices
        invariant
            it.seq() == matrices@,
            grids == grids_of(matrices@),
            outcomes@.len() == it.index(),
            forall|i: int|
                0 <= i < outcomes@.len() ==> is_outcome_for(#[trigger] outcomes@[i], grids[i]),
    {
        let out = solve_board(matrix);
        outcomes.push(out);
    }
    outcomes
}

/// The boards that were solved, in order; an error when there is none.
pub fn collect_solved(outcomes: &Vec<BoardOutcome>) -> (res: Result<Vec<Sudoku>, LoadError>)
    ensures
        match res {
            Ok(boards) => boards@.len() > 0 && views_of(boards@) == solved_among(outcomes@),
            Err(e) => e == LoadError::NoValidBoards && solved_among(outcomes@).len() == 0,
        },
{
    let mut boards: Vec<Sudoku> = Vec::new();
    assert(views_of(boards@) =~= solved_among(outcomes@.take(0)));
    for i in 0..outcomes.len()
        invariant
            views_of(boards@) == solved_among(outcomes@.take(i as int)),
    {
        let ghost before = views_of(boards@);
        assert(outcomes@.take(i + 1).drop_last() =~= outcomes@.take(i as int));
        match &outcomes[i] {
            BoardOutcome::Solved(sudoku) => {
                let copy = sudoku.clone();
                boards.push(copy);
                assert(views_of(boards@) =~= before.push(sudoku@));
            },
            _ => {},
        }
    }
    assert(outcomes@.take(outcomes@.len() as int) =~= outcomes@);
    if boards.is_empty() {
        return Err(LoadError::NoValidBoards);
    }
    Ok(boards)
}

/// Solves a batch of matrices by plain backtracking. The boards that could
/// be solved are handed back, solved, in their order; matrices that are no
/// legal board and boards without solution are passed over. It is an error
/// when nothing is left.
pub fn solve_sudoku_boards(matrices: Vec<Vec<Vec<u8>>>) -> (res: Result<Vec<Sudoku>, LoadError>)
    ensures
        match res {
            Ok(boards) => boards@.len() > 0 && views_of(boards@) == batch_solutions(
                grids_of(matrices@),
            ) && forall|i: int| 0 <= i < boards@.len() ==> (#[trigger] boards@[i]).wf(),
            Err(e) => e == LoadError::NoValidBoards && batch_solutions(
                grids_of(matrices@),
            ).len() == 0,
        },
{
    let ghost grids = grids_of(matrices@);
    let outcomes = solve_boards(matrices);
    proof {
        lemma_solved_among_outcomes(outcomes@, grids);
        lemma_solved_among_are_valid(outcomes@, grids);
    }
    let res = collect_solved(&outcomes);
    proof {
        if res is Ok {
            let boards = res->Ok_0;
            assert forall|i: int| 0 <= i < boards@.len() implies (#[trigger] boards@[i]).wf() by {
                assert(views_of(boards@)[i] == boards@[i]@);
            }
        }
    }
    res
}

} // verus!
