//! The mathematical model of a board: a 9×9 grid of digits, the three kinds
//! of constraint region, and what it means for a grid to be consistent,
//! complete, or a solution of another grid.

use vstd::prelude::*;

verus! {

/// A grid as a sequence of rows, each a sequence of cells.
pub type Grid = Seq<Seq<u8>>;

/// The grid that a matrix of bytes stands for.
pub open spec fn grid_of(rows: Seq<Vec<u8>>) -> Grid {
    Seq::new(rows.len(), |i: int| rows[i]@)
}

/// `i` is a row or column index of a board.
pub open spec fn in_range(i: int) -> bool {
    0 <= i < 9
}

/// The grid has nine rows of nine cells.
pub open spec fn well_shaped(g: Grid) -> bool {
    &&& g.len() == 9
    &&& forall|r: int| 0 <= r < 9 ==> (#[trigger] g[r]).len() == 9
}

/// The content of the cell in row `r`, column `c`.
pub open spec fn cell(g: Grid, r: int, c: int) -> u8 {
    g[r][c]
}

/// Every cell holds `0` (empty) or a digit from `1` to `9`.
pub open spec fn digits_in_range(g: Grid) -> bool {
    forall|r: int, c: int| in_range(r) && in_range(c) ==> #[trigger] cell(g, r, c) <= 9
}

/// The two cells lie in the same 3×3 box.
pub open spec fn same_box(r1: int, c1: int, r2: int, c2: int) -> bool {
    r1 / 3 == r2 / 3 && c1 / 3 == c2 / 3
}

/// The two cells lie in a common row, column or box. A cell shares its
/// regions with itself.
pub open spec fn shares_region(r1: int, c1: int, r2: int, c2: int) -> bool {
    r1 == r2 || c1 == c2 || same_box(r1, c1, r2, c2)
}

/// The two cells are distinct and lie in a common row, column or box.
pub open spec fn peers(r1: int, c1: int, r2: int, c2: int) -> bool {
    (r1 != r2 || c1 != c2) && shares_region(r1, c1, r2, c2)
}

/// No digit other than `0` occurs twice in a row, a column or a box.
pub open spec fn conflict_free(g: Grid) -> bool {
    forall|r1: int, c1: int, r2: int, c2: int|
        in_range(r1) && in_range(c1) && in_range(r2) && in_range(c2) && peers(r1, c1, r2, c2)
            && #[trigger] cell(g, r1, c1) != 0 ==> cell(g, r1, c1) != #[trigger] cell(
            g,
            r2,
            c2,
        )
}

/// The grid is a legal state of a board: nine by nine, digits only, and no
/// region with a repeated digit.
pub open spec fn valid_grid(g: Grid) -> bool {
    &&& well_shaped(g)
    &&& digits_in_range(g)
    &&& conflict_free(g)
}

/// `v` occurs in no cell of the row, the column and the box of `(r, c)`,
/// that cell included.
pub open spec fn can_place(g: Grid, r: int, c: int, v: u8) -> bool {
    forall|r2: int, c2: int|
        in_range(r2) && in_range(c2) && shares_region(r, c, r2, c2) ==> #[trigger] cell(
            g,
            r2,
            c2,
        ) != v
}

/// `v` occurs in a cell other than `(r, c)` of its row, column or box.
pub open spec fn occurs_among_peers(g: Grid, r: int, c: int, v: u8) -> bool {
    exists|r2: int, c2: int|
        in_range(r2) && in_range(c2) && peers(r, c, r2, c2) && #[trigger] cell(g, r2, c2) == v
}

/// The grid with the cell `(r, c)` set to `v`.
pub open spec fn place(g: Grid, r: int, c: int, v: u8) -> Grid {
    g.update(r, g[r].update(c, v))
}

/// No cell is empty.
pub open spec fn full(g: Grid) -> bool {
    forall|r: int, c: int| in_range(r) && in_range(c) ==> #[trigger] cell(g, r, c) != 0
}

/// The grid is a finished Sudoku: legal and without an empty cell.
pub open spec fn solved(g: Grid) -> bool {
    valid_grid(g) && full(g)
}

/// `s` keeps every digit that `g` holds.
pub open spec fn extends(s: Grid, g: Grid) -> bool {
    forall|r: int, c: int|
        in_range(r) && in_range(c) && #[trigger] cell(g, r, c) != 0 ==> cell(s, r, c) == cell(
            g,
            r,
            c,
        )
}

/// `s` is a finished Sudoku that keeps every digit of `g`.
pub open spec fn is_solution_of(s: Grid, g: Grid) -> bool {
    solved(s) && extends(s, g)
}

/// Some finished Sudoku keeps every digit of `g`.
pub open spec fn solvable(g: Grid) -> bool {
    exists|s: Grid| is_solution_of(s, g)
}

/// Exactly one finished Sudoku keeps every digit of `g`.
pub open spec fn well_posed(g: Grid) -> bool {
    &&& solvable(g)
    &&& forall|s: Grid, t: Grid| is_solution_of(s, g) && is_solution_of(t, g) ==> s == t
}

/// The number of empty cells among the first `k` in row-major order.
pub open spec fn empty_before(g: Grid, k: int) -> nat
    decreases k,
{
    if k <= 0 {
        0
    } else {
        empty_before(g, k - 1) + if cell(g, (k - 1) / 9, (k - 1) % 9) == 0 {
            1nat
        } else {
            0nat
        }
    }
}

/// The number of empty cells of the grid.
pub open spec fn empty_count(g: Grid) -> nat {
    empty_before(g, 81)
}

/// Setting a cell leaves the shape and every other cell as they were.
pub proof fn lemma_place(g: Grid, r: int, c: int, v: u8)
    requires
        well_shaped(g),
        in_range(r),
        in_range(c),
    ensures
        well_shaped(place(g, r, c, v)),
        cell(place(g, r, c, v), r, c) == v,
        forall|r2: int, c2: int|
            in_range(r2) && in_range(c2) && (r2 != r || c2 != c) ==> #[trigger] cell(
                place(g, r, c, v),
                r2,
                c2,
            ) == cell(g, r2, c2),
{
    let h = place(g, r, c, v);
    assert forall|r2: int| 0 <= r2 < 9 implies (#[trigger] h[r2]).len() == 9 by {
        assert(g[r2].len() == 9);
    }
    assert forall|r2: int, c2: int|
        in_range(r2) && in_range(c2) && (r2 != r || c2 != c) implies #[trigger] cell(h, r2, c2)
        == cell(g, r2, c2) by {
        assert(g[r2].len() == 9);
    }
    assert(g[r].len() == 9);
}

/// Setting a cell to the value it holds changes nothing.
pub proof fn lemma_place_same(g: Grid, r: int, c: int)
    requires
        well_shaped(g),
        in_range(r),
        in_range(c),
    ensures
        place(g, r, c, cell(g, r, c)) == g,
{
    let h = place(g, r, c, cell(g, r, c));
    assert(g[r].update(c, g[r][c]) =~= g[r]);
    assert(h =~= g);
}

/// Setting a cell twice is setting it to the second value.
pub proof fn lemma_place_twice(g: Grid, r: int, c: int, v: u8, w: u8)
    requires
        well_shaped(g),
        in_range(r),
        in_range(c),
    ensures
        place(place(g, r, c, v), r, c, w) == place(g, r, c, w),
{
    assert(g[r].len() == 9);
    assert(g[r].update(c, v).update(c, w) =~= g[r].update(c, w));
    assert(place(place(g, r, c, v), r, c, w) =~= place(g, r, c, w));
}

/// Two well-shaped grids with the same cells are the same grid.
pub proof fn lemma_grid_ext(g: Grid, h: Grid)
    requires
        well_shaped(g),
        well_shaped(h),
        forall|r: int, c: int| in_range(r) && in_range(c) ==> cell(g, r, c) == cell(h, r, c),
    ensures
        g == h,
{
    assert forall|r: int| 0 <= r < 9 implies g[r] == h[r] by {
        assert(g[r].len() == 9 && h[r].len() == 9);
        assert forall|c: int| 0 <= c < 9 implies g[r][c] == h[r][c] by {
            assert(cell(g, r, c) == cell(h, r, c));
        }
        assert(g[r] =~= h[r]);
    }
    assert(g =~= h);
}

/// A digit that passes the placement test keeps a legal grid legal.
pub proof fn lemma_place_keeps_valid(g: Grid, r: int, c: int, v: u8)
    requires
        valid_grid(g),
        in_range(r),
        in_range(c),
        v <= 9,
        v == 0 || (cell(g, r, c) == 0 && can_place(g, r, c, v)),
    ensures
        valid_grid(place(g, r, c, v)),
{
    let h = place(g, r, c, v);
    lemma_place(g, r, c, v);
    assert forall|r2: int, c2: int| in_range(r2) && in_range(c2) implies #[trigger] cell(
        h,
        r2,
        c2,
    ) <= 9 by {
        if r2 != r || c2 != c {
            assert(cell(h, r2, c2) == cell(g, r2, c2));
        }
    }
    assert forall|r1: int, c1: int, r2: int, c2: int|
        in_range(r1) && in_range(c1) && in_range(r2) && in_range(c2) && peers(r1, c1, r2, c2)
            && #[trigger] cell(h, r1, c1) != 0 implies cell(h, r1, c1) != #[trigger] cell(
        h,
        r2,
        c2,
    ) by {
        if r1 == r && c1 == c {
            assert(cell(h, r2, c2) == cell(g, r2, c2));
            assert(shares_region(r, c, r2, c2));
        } else if r2 == r && c2 == c {
            assert(cell(h, r1, c1) == cell(g, r1, c1));
            assert(shares_region(r, c, r1, c1));
        } else {
            assert(cell(h, r1, c1) == cell(g, r1, c1));
            assert(cell(h, r2, c2) == cell(g, r2, c2));
        }
    }
}

/// Filling an empty cell leaves one empty cell fewer.
pub proof fn lemma_place_fills(g: Grid, r: int, c: int, v: u8)
    requires
        well_shaped(g),
        in_range(r),
        in_range(c),
        cell(g, r, c) == 0,
        v != 0,
    ensures
        empty_count(place(g, r, c, v)) + 1 == empty_count(g),
{
    lemma_empty_before_place(g, r, c, v, 81);
}

proof fn lemma_empty_before_place(g: Grid, r: int, c: int, v: u8, k: int)
    requires
        well_shaped(g),
        in_range(r),
        in_range(c),
        cell(g, r, c) == 0,
        v != 0,
        0 <= k <= 81,
    ensures
        k <= 9 * r + c ==> empty_before(place(g, r, c, v), k) == empty_before(g, k),
        k > 9 * r + c ==> empty_before(place(g, r, c, v), k) + 1 == empty_before(g, k),
    decreases k,
{
    if k > 0 {
        lemma_empty_before_place(g, r, c, v, k - 1);
        lemma_place(g, r, c, v);
        let r2 = (k - 1) / 9;
        let c2 = (k - 1) % 9;
        assert(in_range(r2) && in_range(c2));
        if k - 1 == 9 * r + c {
            assert(r2 == r && c2 == c);
        } else {
            assert(r2 != r || c2 != c);
            assert(cell(place(g, r, c, v), r2, c2) == cell(g, r2, c2));
        }
    }
}

/// For an empty cell, a digit passes the placement test exactly when no
/// other cell of the row, the column or the box holds it.
pub proof fn lemma_can_place_on_empty_cell(g: Grid, r: int, c: int, v: u8)
    requires
        in_range(r),
        in_range(c),
        cell(g, r, c) == 0,
        1 <= v <= 9,
    ensures
        can_place(g, r, c, v) <==> !occurs_among_peers(g, r, c, v),
{
    if !can_place(g, r, c, v) {
        let (r2, c2) = choose|r2: int, c2: int|
            in_range(r2) && in_range(c2) && shares_region(r, c, r2, c2) && #[trigger] cell(
                g,
                r2,
                c2,
            ) == v;
        assert(peers(r, c, r2, c2));
    }
    if occurs_among_peers(g, r, c, v) {
        let (r2, c2) = choose|r2: int, c2: int|
            in_range(r2) && in_range(c2) && peers(r, c, r2, c2) && #[trigger] cell(g, r2, c2)
                == v;
        assert(shares_region(r, c, r2, c2));
    }
}

} // verus!
