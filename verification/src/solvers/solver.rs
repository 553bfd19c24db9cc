//! What every strategy promises, and the dispatcher.

use vstd::prelude::*;
use crate::completion::is_least_solution_of;
use crate::grid::{Grid, can_place, is_solution_of, solvable, well_posed};
use crate::solvers::backtracking::BacktrackingSolver;
use crate::solvers::heuristic::{Heuristic, mrv_solution};
use crate::sudoku::{Sudoku, SudokuError};

verus! {

/// A search strategy: it completes a board in place, or leaves it as it was.
pub trait Solver {
    /// Searches for a solution of `board`. A solution is found whenever
    /// there is one, and the board then holds it; otherwise the board is
    /// handed back unchanged.
    fn solve(board: &mut Sudoku) -> (res: Result<(), SudokuError>)
        requires
            old(board).wf(),
        ensures
            final(board).wf(),
            res is Ok <==> solvable(old(board)@),
            res is Ok ==> is_solution_of(final(board)@, old(board)@),
            res is Err ==> res == Err::<(), SudokuError>(SudokuError::Unsolvable) && final(board)@
                == old(board)@,
    ;
}

/// `f` is the placement test: it can be asked of every cell of every
/// board, and answers whether the value occurs nowhere in the cell's row,
/// column and box.
pub open spec fn is_placement_test<F: Fn(&Sudoku, usize, usize, u8) -> bool>(f: &F) -> bool {
    &&& forall|b: &Sudoku, r: usize, c: usize, v: u8|
        b.wf() && r < 9 && c < 9 ==> #[trigger] f.requires((b, r, c, v))
    &&& forall|b: &Sudoku, r: usize, c: usize, v: u8, ok: bool| #[trigger]
        f.ensures((b, r, c, v), ok) ==> ok == can_place(b@, r as int, c as int, v)
}

/// The strategies by name.
#[derive(Debug, Clone, Copy, PartialEq, Eq, Structural)]
pub enum SolverKind {
    /// First empty cell first.
    Backtracking,
    /// Most constrained cell first.
    Heuristic,
}

/// The board that the strategy `kind` ends with on `before`, where it finds
/// one.
pub open spec fn is_outcome_of(kind: SolverKind, after: Grid, before: Grid) -> bool {
    match kind {
        SolverKind::Backtracking => is_least_solution_of(after, before),
        SolverKind::Heuristic => is_solution_of(after, before) && mrv_solution(before) == Some(
            after,
        ),
    }
}

/// Solves `board` with the strategy `kind`, as that strategy's own `solve`
/// does.
pub fn solve_with_strategy(board: &mut Sudoku, kind: SolverKind) -> (res: Result<(), SudokuError>)
    requires
        old(board).wf(),
    ensures
        final(board).wf(),
        res is Ok <==> solvable(old(board)@),
        res is Ok ==> is_outcome_of(kind, final(board)@, old(board)@),
        res is Err ==> res == Err::<(), SudokuError>(SudokuError::Unsolvable) && final(board)@
            == old(board)@,
{
    match kind {
        SolverKind::Backtracking => BacktrackingSolver::solve(board),
        SolverKind::Heuristic => Heuristic::solve(board),
    }
}

/// On a puzzle with exactly one solution the two strategies end with the
/// same board.
pub proof fn lemma_strategies_agree(before: Grid, first: Grid, second: Grid)
    requires
        well_posed(before),
        is_outcome_of(SolverKind::Backtracking, first, before),
        is_outcome_of(SolverKind::Heuristic, second, before),
    ensures
        first == second,
{
}

/// A strategy run twice on the same board ends with the same board.
pub proof fn lemma_outcome_is_unique(kind: SolverKind, before: Grid, first: Grid, second: Grid)
    requires
        is_outcome_of(kind, first, before),
        is_outcome_of(kind, second, before),
    ensures
        first == second,
{
    if kind == SolverKind::Backtracking {
        crate::completion::lemma_lex_le_antisymmetric(first, second);
    }
}

} // verus!
