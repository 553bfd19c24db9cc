//! The twenty-seven constraint regions of a grid, each as the sequence of
//! its nine cells, and how they relate to the cell-by-cell rules.

use vstd::prelude::*;
use vstd::seq_lib::seq_to_set_is_finite;
use vstd::set_lib::{lemma_int_range, lemma_subset_equality, set_int_range};
use crate::grid::{Grid, cell, conflict_free, in_range, peers, solved, well_shaped};

verus! {

/// The cells of row `r`, left to right.
pub open spec fn row_cells(g: Grid, r: int) -> Seq<u8> {
    Seq::new(9, |k: int| cell(g, r, k))
}

/// The cells of column `c`, top to bottom.
pub open spec fn col_cells(g: Grid, c: int) -> Seq<u8> {
    Seq::new(9, |k: int| cell(g, k, c))
}

/// The cells of box `b`, row by row. Boxes are numbered row by row too.
pub open spec fn box_cells(g: Grid, b: int) -> Seq<u8> {
    Seq::new(9, |k: int| cell(g, 3 * (b / 3) + k / 3, 3 * (b % 3) + k % 3))
}

/// Among the first `n` cells no digit other than `0` occurs twice.
pub open spec fn distinct_prefix(cells: Seq<u8>, n: int) -> bool {
    forall|j1: int, j2: int|
        0 <= j1 < n && 0 <= j2 < n && j1 != j2 && #[trigger] cells[j1] != 0 ==> cells[j1]
            != #[trigger] cells[j2]
}

/// No digit other than `0` occurs twice in the region.
pub open spec fn distinct_digits(cells: Seq<u8>) -> bool {
    distinct_prefix(cells, 9)
}

/// The digit `d` stands in one of the nine cells.
pub open spec fn occurs_in(cells: Seq<u8>, d: u8) -> bool {
    exists|k: int| 0 <= k < 9 && #[trigger] cells[k] == d
}

/// The region holds each digit from `1` to `9`.
pub open spec fn holds_all_digits(cells: Seq<u8>) -> bool {
    forall|d: u8| 1 <= d <= 9 ==> #[trigger] occurs_in(cells, d)
}

/// The region is a permutation of the digits `1` to `9`: no cell is empty,
/// none repeats another, and every digit occurs.
pub open spec fn is_permutation(cells: Seq<u8>) -> bool {
    &&& cells.len() == 9
    &&& forall|k: int| 0 <= k < 9 ==> 1 <= #[trigger] cells[k] <= 9
    &&& forall|j: int, k: int| 0 <= j < 9 && 0 <= k < 9 && j != k ==> #[trigger] cells[j] != #[trigger] cells[k]
    &&& holds_all_digits(cells)
}

/// Every row, column and box is free of repeated digits.
pub open spec fn regions_distinct(g: Grid) -> bool {
    &&& forall|i: int| 0 <= i < 9 ==> distinct_digits(#[trigger] row_cells(g, i))
    &&& forall|i: int| 0 <= i < 9 ==> distinct_digits(#[trigger] col_cells(g, i))
    &&& forall|i: int| 0 <= i < 9 ==> distinct_digits(#[trigger] box_cells(g, i))
}

/// The marks are those of the digits met among the first `n` cells: the mark
/// of digit `d` stands at index `d - 1`.
pub open spec fn marks_match(seen: Seq<bool>, cells: Seq<u8>, n: int) -> bool {
    &&& seen.len() == 9
    &&& forall|k: int|
        0 <= k < 9 && #[trigger] seen[k] ==> exists|j: int|
            0 <= j < n && #[trigger] cells[j] == k + 1
    &&& forall|j: int| 0 <= j < n && #[trigger] cells[j] != 0 ==> seen[cells[j] - 1]
}

/// What meeting the next cell of a region does to the marks.
pub proof fn lemma_mark_step(seen: Seq<bool>, cells: Seq<u8>, n: int)
    requires
        cells.len() == 9,
        forall|k: int| 0 <= k < 9 ==> #[trigger] cells[k] <= 9,
        0 <= n < 9,
        marks_match(seen, cells, n),
        distinct_prefix(cells, n),
    ensures
        cells[n] == 0 ==> marks_match(seen, cells, n + 1) && distinct_prefix(cells, n + 1),
        cells[n] != 0 && seen[cells[n] - 1] ==> !distinct_digits(cells),
        cells[n] != 0 && !seen[cells[n] - 1] ==> marks_match(
            seen.update(cells[n] - 1, true),
            cells,
            n + 1,
        ) && distinct_prefix(cells, n + 1),
{
    let d = cells[n];
    if d != 0 && seen[d - 1] {
        let j = choose|j: int| 0 <= j < n && #[trigger] cells[j] == (d - 1) + 1;
        assert(cells[j] != 0 && cells[j] == cells[n] && j != n);
    } else if d != 0 {
        let marked = seen.update(d - 1, true);
        assert forall|k: int| 0 <= k < 9 && #[trigger] marked[k] implies exists|j: int|
            0 <= j < n + 1 && #[trigger] cells[j] == k + 1 by {
            if k == d - 1 {
                assert(cells[n] == k + 1);
            } else {
                assert(seen[k]);
                let j = choose|j: int| 0 <= j < n && #[trigger] cells[j] == k + 1;
                assert(0 <= j < n + 1 && cells[j] == k + 1);
            }
        }
        assert forall|j: int| 0 <= j < n + 1 && #[trigger] cells[j] != 0 implies marked[cells[j]
            - 1] by {
            if j < n {
                assert(seen[cells[j] - 1]);
            }
        }
        assert forall|j1: int, j2: int|
            0 <= j1 < n + 1 && 0 <= j2 < n + 1 && j1 != j2 && #[trigger] cells[j1]
                != 0 implies cells[j1] != #[trigger] cells[j2] by {
            if j1 == n {
                if cells[j2] != 0 {
                    assert(seen[cells[j2] - 1]);
                }
            } else if j2 == n {
                assert(seen[cells[j1] - 1]);
            }
        }
    } else {
        assert forall|k: int| 0 <= k < 9 && #[trigger] seen[k] implies exists|j: int|
            0 <= j < n + 1 && #[trigger] cells[j] == k + 1 by {
            let j = choose|j: int| 0 <= j < n && #[trigger] cells[j] == k + 1;
            assert(0 <= j < n + 1 && cells[j] == k + 1);
        }
    }
}

/// A grid whose regions are all free of repeated digits has no two peers
/// with the same digit, and the other way round.
pub proof fn lemma_regions_and_peers(g: Grid)
    requires
        well_shaped(g),
    ensures
        regions_distinct(g) <==> conflict_free(g),
{
    if regions_distinct(g) {
        assert forall|r1: int, c1: int, r2: int, c2: int|
            in_range(r1) && in_range(c1) && in_range(r2) && in_range(c2) && peers(r1, c1, r2, c2)
                && #[trigger] cell(g, r1, c1) != 0 implies cell(g, r1, c1) != #[trigger] cell(
            g,
            r2,
            c2,
        ) by {
            if r1 == r2 {
                let cells = row_cells(g, r1);
                assert(distinct_digits(cells));
                assert(cells[c1] == cell(g, r1, c1) && cells[c2] == cell(g, r2, c2));
            } else if c1 == c2 {
                let cells = col_cells(g, c1);
                assert(distinct_digits(cells));
                assert(cells[r1] == cell(g, r1, c1) && cells[r2] == cell(g, r2, c2));
            } else {
                let b = 3 * (r1 / 3) + c1 / 3;
                let k1 = 3 * (r1 % 3) + c1 % 3;
                let k2 = 3 * (r2 % 3) + c2 % 3;
                let cells = box_cells(g, b);
                assert(0 <= b < 9);
                assert(distinct_digits(cells));
                assert(cells[k1] == cell(g, r1, c1) && cells[k2] == cell(g, r2, c2));
            }
        }
    }
    if conflict_free(g) {
        assert forall|i: int| 0 <= i < 9 implies distinct_digits(#[trigger] row_cells(g, i)) by {
            lemma_region_of_conflict_free(g, i);
        }
        assert forall|i: int| 0 <= i < 9 implies distinct_digits(#[trigger] col_cells(g, i)) by {
            lemma_region_of_conflict_free(g, i);
        }
        assert forall|i: int| 0 <= i < 9 implies distinct_digits(#[trigger] box_cells(g, i)) by {
            lemma_region_of_conflict_free(g, i);
        }
    }
}

/// In a grid without conflicting peers each region is free of repeated
/// digits.
pub proof fn lemma_region_of_conflict_free(g: Grid, i: int)
    requires
        well_shaped(g),
        conflict_free(g),
        0 <= i < 9,
    ensures
        distinct_digits(row_cells(g, i)),
        distinct_digits(col_cells(g, i)),
        distinct_digits(box_cells(g, i)),
{
    let rows = row_cells(g, i);
    assert forall|j1: int, j2: int|
        0 <= j1 < 9 && 0 <= j2 < 9 && j1 != j2 && #[trigger] rows[j1] != 0 implies rows[j1]
        != #[trigger] rows[j2] by {
        assert(peers(i, j1, i, j2));
        assert(cell(g, i, j1) != cell(g, i, j2));
    }
    let cols = col_cells(g, i);
    assert forall|j1: int, j2: int|
        0 <= j1 < 9 && 0 <= j2 < 9 && j1 != j2 && #[trigger] cols[j1] != 0 implies cols[j1]
        != #[trigger] cols[j2] by {
        assert(peers(j1, i, j2, i));
        assert(cell(g, j1, i) != cell(g, j2, i));
    }
    let boxes = box_cells(g, i);
    assert forall|j1: int, j2: int|
        0 <= j1 < 9 && 0 <= j2 < 9 && j1 != j2 && #[trigger] boxes[j1] != 0 implies boxes[j1]
        != #[trigger] boxes[j2] by {
        let r1 = 3 * (i / 3) + j1 / 3;
        let c1 = 3 * (i % 3) + j1 % 3;
        let r2 = 3 * (i / 3) + j2 / 3;
        let c2 = 3 * (i % 3) + j2 % 3;
        assert(peers(r1, c1, r2, c2));
        assert(cell(g, r1, c1) != cell(g, r2, c2));
    }
}

/// Nine digits from `1` to `9`, none of them twice, are all of them.
pub proof fn lemma_distinct_digits_are_all(cells: Seq<u8>)
    requires
        cells.len() == 9,
        forall|k: int| 0 <= k < 9 ==> 1 <= #[trigger] cells[k] <= 9,
        distinct_digits(cells),
    ensures
        is_permutation(cells),
{
    let ints = Seq::new(9, |k: int| cells[k] as int);
    assert forall|j: int, k: int| 0 <= j < 9 && 0 <= k < 9 && j != k implies #[trigger] cells[j]
        != #[trigger] cells[k] by {
        assert(cells[j] != 0);
    }
    assert(ints.no_duplicates());
    ints.unique_seq_to_set();
    seq_to_set_is_finite(ints);
    lemma_int_range(1, 10);
    let found = ints.to_set();
    let wanted = set_int_range(1, 10);
    assert forall|d: int| found.contains(d) implies wanted.contains(d) by {
        let k = choose|k: int| 0 <= k < ints.len() && ints[k] == d;
        assert(1 <= cells[k] <= 9);
    }
    lemma_subset_equality(found, wanted);
    assert forall|d: u8| 1 <= d <= 9 implies #[trigger] occurs_in(cells, d) by {
        assert(wanted.contains(d as int));
        assert(found.contains(d as int));
        let k = choose|k: int| 0 <= k < ints.len() && ints[k] == d as int;
        assert(cells[k] == d);
    }
}

/// In a finished Sudoku every row, every column and every box is a
/// permutation of the digits `1` to `9`.
pub proof fn lemma_solved_regions_are_permutations(g: Grid)
    requires
        solved(g),
    ensures
        forall|i: int| 0 <= i < 9 ==> is_permutation(#[trigger] row_cells(g, i)),
        forall|i: int| 0 <= i < 9 ==> is_permutation(#[trigger] col_cells(g, i)),
        forall|i: int| 0 <= i < 9 ==> is_permutation(#[trigger] box_cells(g, i)),
{
    assert forall|i: int| 0 <= i < 9 implies is_permutation(#[trigger] row_cells(g, i)) by {
        lemma_region_of_conflict_free(g, i);
        let cells = row_cells(g, i);
        assert forall|k: int| 0 <= k < 9 implies 1 <= #[trigger] cells[k] <= 9 by {
            assert(cell(g, i, k) != 0 && cell(g, i, k) <= 9);
        }
        lemma_distinct_digits_are_all(cells);
    }
    assert forall|i: int| 0 <= i < 9 implies is_permutation(#[trigger] col_cells(g, i)) by {
        lemma_region_of_conflict_free(g, i);
        let cells = col_cells(g, i);
        assert forall|k: int| 0 <= k < 9 implies 1 <= #[trigger] cells[k] <= 9 by {
            assert(cell(g, k, i) != 0 && cell(g, k, i) <= 9);
        }
        lemma_distinct_digits_are_all(cells);
    }
    assert forall|i: int| 0 <= i < 9 implies is_permutation(#[trigger] box_cells(g, i)) by {
        lemma_region_of_conflict_free(g, i);
        let cells = box_cells(g, i);
        assert forall|k: int| 0 <= k < 9 implies 1 <= #[trigger] cells[k] <= 9 by {
            let r = 3 * (i / 3) + k / 3;
            let c = 3 * (i % 3) + k % 3;
            assert(cell(g, r, c) != 0 && cell(g, r, c) <= 9);
        }
        lemma_distinct_digits_are_all(cells);
    }
}

} // verus!
