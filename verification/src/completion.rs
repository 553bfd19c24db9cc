//! Facts about the solutions of a grid, on which the search strategies rest.

use vstd::prelude::*;
use crate::grid::{Grid, can_place, cell, empty_count, full, in_range, is_solution_of, lemma_grid_ext, lemma_place, lemma_place_fills, lemma_place_keeps_valid, peers, place, shares_region, solvable, valid_grid, well_shaped};

verus! {

/// The cell with number `k` in row-major order.
pub open spec fn cell_at(g: Grid, k: int) -> u8 {
    cell(g, k / 9, k % 9)
}

/// The two grids hold the same digits in the first `k` cells.
pub open spec fn agree_before(a: Grid, b: Grid, k: int) -> bool {
    forall|j: int| 0 <= j < k ==> #[trigger] cell_at(a, j) == cell_at(b, j)
}

/// `a` is `b`, or holds the smaller digit in the first cell, in row-major
/// order, in which the two differ.
pub open spec fn lex_le(a: Grid, b: Grid) -> bool {
    a == b || exists|k: int|
        0 <= k < 81 && agree_before(a, b, k) && #[trigger] cell_at(a, k) < cell_at(b, k)
}

/// `s` is the solution of `g` that comes first in row-major lexicographic
/// order.
pub open spec fn is_least_solution_of(s: Grid, g: Grid) -> bool {
    &&& is_solution_of(s, g)
    &&& forall|t: Grid| #[trigger] is_solution_of(t, g) ==> lex_le(s, t)
}

/// The solution of `g` that comes first in row-major lexicographic order.
pub open spec fn least_solution(g: Grid) -> Grid {
    choose|s: Grid| is_least_solution_of(s, g)
}

/// Every solution of `g` holds at least `v` in the cell `(r, c)`.
pub open spec fn solutions_hold_at_least(g: Grid, r: int, c: int, v: int) -> bool {
    forall|t: Grid| #[trigger] is_solution_of(t, g) ==> cell(t, r, c) >= v
}

/// A full legal grid is its own and only solution.
pub proof fn lemma_full_grid_is_its_solution(g: Grid)
    requires
        valid_grid(g),
        full(g),
    ensures
        is_least_solution_of(g, g),
        forall|t: Grid| #[trigger] is_solution_of(t, g) ==> t == g,
{
    assert forall|t: Grid| #[trigger] is_solution_of(t, g) implies t == g by {
        assert forall|r: int, c: int| in_range(r) && in_range(c) implies cell(t, r, c) == cell(
            g,
            r,
            c,
        ) by {
            assert(cell(g, r, c) != 0);
        }
        lemma_grid_ext(t, g);
    }
}

/// No solution of `g` holds in an empty cell a digit that fails the
/// placement test there.
pub proof fn lemma_blocked_digit(g: Grid, t: Grid, r: int, c: int, v: u8)
    requires
        well_shaped(g),
        is_solution_of(t, g),
        in_range(r),
        in_range(c),
        cell(g, r, c) == 0,
        v != 0,
        !can_place(g, r, c, v),
    ensures
        cell(t, r, c) != v,
{
    let (r2, c2) = choose|r2: int, c2: int|
        in_range(r2) && in_range(c2) && shares_region(r, c, r2, c2) && #[trigger] cell(g, r2, c2)
            == v;
    assert(cell(t, r2, c2) == v);
    assert(peers(r2, c2, r, c));
    if cell(t, r, c) == v {
        assert(cell(t, r2, c2) != cell(t, r, c));
    }
}

/// The solutions of `g` with `v` in the empty cell `(r, c)` are the
/// solutions of `g` with `v` placed there.
pub proof fn lemma_solutions_after_place(g: Grid, t: Grid, r: int, c: int, v: u8)
    requires
        well_shaped(g),
        in_range(r),
        in_range(c),
        cell(g, r, c) == 0,
        v != 0,
    ensures
        is_solution_of(t, place(g, r, c, v)) <==> is_solution_of(t, g) && cell(t, r, c) == v,
{
    let h = place(g, r, c, v);
    lemma_place(g, r, c, v);
    if is_solution_of(t, h) {
        assert(cell(h, r, c) != 0);
        assert forall|r2: int, c2: int|
            in_range(r2) && in_range(c2) && #[trigger] cell(g, r2, c2) != 0 implies cell(
            t,
            r2,
            c2,
        ) == cell(g, r2, c2) by {
            assert(cell(h, r2, c2) == cell(g, r2, c2));
        }
    }
    if is_solution_of(t, g) && cell(t, r, c) == v {
        assert forall|r2: int, c2: int|
            in_range(r2) && in_range(c2) && #[trigger] cell(h, r2, c2) != 0 implies cell(
            t,
            r2,
            c2,
        ) == cell(h, r2, c2) by {
            if r2 != r || c2 != c {
                assert(cell(h, r2, c2) == cell(g, r2, c2));
            }
        }
    }
}

/// If every solution of `g` holds at least `v` in the empty cell `(r, c)`
/// and none holds `v` there, every solution holds more.
pub proof fn lemma_digit_ruled_out(g: Grid, r: int, c: int, v: u8)
    requires
        well_shaped(g),
        in_range(r),
        in_range(c),
        cell(g, r, c) == 0,
        v != 0,
        solutions_hold_at_least(g, r, c, v as int),
        !can_place(g, r, c, v) || !solvable(place(g, r, c, v)),
    ensures
        solutions_hold_at_least(g, r, c, v + 1),
{
    assert forall|t: Grid| #[trigger] is_solution_of(t, g) implies cell(t, r, c) >= v + 1 by {
        if cell(t, r, c) == v {
            if !can_place(g, r, c, v) {
                lemma_blocked_digit(g, t, r, c, v);
            } else {
                lemma_solutions_after_place(g, t, r, c, v);
                assert(is_solution_of(t, place(g, r, c, v)));
            }
        }
    }
}

/// A grid whose solutions would all hold more than `9` in some cell has no
/// solution.
pub proof fn lemma_no_digit_left(g: Grid, r: int, c: int)
    requires
        in_range(r),
        in_range(c),
        solutions_hold_at_least(g, r, c, 10),
    ensures
        !solvable(g),
{
    if solvable(g) {
        let t = choose|t: Grid| is_solution_of(t, g);
        assert(cell(t, r, c) >= 10);
        assert(cell(t, r, c) <= 9);
    }
}

/// The least solution of `g` with the least digit that any solution holds
/// in its first empty cell is the least solution of `g`.
pub proof fn lemma_least_solution_found(g: Grid, s: Grid, r: int, c: int, v: u8)
    requires
        valid_grid(g),
        in_range(r),
        in_range(c),
        cell(g, r, c) == 0,
        v != 0,
        forall|j: int| 0 <= j < 9 * r + c ==> #[trigger] cell_at(g, j) != 0,
        solutions_hold_at_least(g, r, c, v as int),
        is_least_solution_of(s, place(g, r, c, v)),
    ensures
        is_least_solution_of(s, g),
{
    let h = place(g, r, c, v);
    let k = 9 * r + c;
    assert(k / 9 == r && k % 9 == c);
    lemma_solutions_after_place(g, s, r, c, v);
    assert forall|t: Grid| #[trigger] is_solution_of(t, g) implies lex_le(s, t) by {
        lemma_solutions_after_place(g, t, r, c, v);
        if cell(t, r, c) == v {
            assert(is_solution_of(t, h));
        } else {
            assert forall|j: int| 0 <= j < k implies #[trigger] cell_at(s, j) == cell_at(t, j) by {
                assert(cell_at(g, j) != 0);
                assert(in_range(j / 9) && in_range(j % 9));
                assert(cell(s, j / 9, j % 9) == cell(g, j / 9, j % 9));
                assert(cell(t, j / 9, j % 9) == cell(g, j / 9, j % 9));
            }
            assert(cell_at(s, k) < cell_at(t, k));
        }
    }
}

/// Two solved grids, each before the other in lexicographic order, are the
/// same grid.
pub proof fn lemma_lex_le_antisymmetric(a: Grid, b: Grid)
    requires
        well_shaped(a),
        well_shaped(b),
        lex_le(a, b),
        lex_le(b, a),
    ensures
        a == b,
{
    if a != b {
        let j = choose|k: int|
            0 <= k < 81 && agree_before(a, b, k) && #[trigger] cell_at(a, k) < cell_at(b, k);
        let k = choose|k: int|
            0 <= k < 81 && agree_before(b, a, k) && #[trigger] cell_at(b, k) < cell_at(a, k);
        if j < k {
            assert(cell_at(b, j) == cell_at(a, j));
        } else if k < j {
            assert(cell_at(a, k) == cell_at(b, k));
        }
    }
}

/// The first empty cell, in row-major order, at or after the cell with
/// number `n`.
proof fn lemma_first_empty_from(g: Grid, n: int) -> (k: int)
    requires
        !full(g),
        0 <= n <= 81,
        forall|j: int| 0 <= j < n ==> #[trigger] cell_at(g, j) != 0,
    ensures
        0 <= k < 81,
        cell_at(g, k) == 0,
        forall|j: int| 0 <= j < k ==> #[trigger] cell_at(g, j) != 0,
    decreases 81 - n,
{
    if n == 81 {
        assert forall|r: int, c: int| in_range(r) && in_range(c) implies #[trigger] cell(
            g,
            r,
            c,
        ) != 0 by {
            let j = 9 * r + c;
            assert(j / 9 == r && j % 9 == c);
            assert(cell_at(g, j) != 0);
        }
        0
    } else if cell_at(g, n) == 0 {
        n
    } else {
        lemma_first_empty_from(g, n + 1)
    }
}

/// A legal grid that has a solution has a least one.
pub proof fn lemma_least_solution_exists(g: Grid) -> (s: Grid)
    requires
        valid_grid(g),
        solvable(g),
    ensures
        is_least_solution_of(s, g),
    decreases empty_count(g), 10int,
{
    if full(g) {
        lemma_full_grid_is_its_solution(g);
        g
    } else {
        let k = lemma_first_empty_from(g, 0);
        let r = k / 9;
        let c = k % 9;
        assert(9 * r + c == k);
        assert forall|t: Grid| #[trigger] is_solution_of(t, g) implies cell(t, r, c) >= 1 by {
            assert(cell(t, r, c) != 0);
        }
        lemma_least_solution_from_digit(g, r, c, 1)
    }
}

/// The least solution of a grid whose solutions all hold `v` or more in
/// its first empty cell.
proof fn lemma_least_solution_from_digit(g: Grid, r: int, c: int, v: int) -> (s: Grid)
    requires
        valid_grid(g),
        solvable(g),
        in_range(r),
        in_range(c),
        cell(g, r, c) == 0,
        forall|j: int| 0 <= j < 9 * r + c ==> #[trigger] cell_at(g, j) != 0,
        1 <= v <= 10,
        solutions_hold_at_least(g, r, c, v),
    ensures
        is_least_solution_of(s, g),
    decreases empty_count(g), 10 - v,
{
    if v == 10 {
        lemma_no_digit_left(g, r, c);
        g
    } else {
        let d = v as u8;
        let h = place(g, r, c, d);
        if can_place(g, r, c, d) && solvable(h) {
            lemma_place_keeps_valid(g, r, c, d);
            lemma_place_fills(g, r, c, d);
            let s = lemma_least_solution_exists(h);
            lemma_least_solution_found(g, s, r, c, d);
            s
        } else {
            lemma_digit_ruled_out(g, r, c, d);
            lemma_least_solution_from_digit(g, r, c, v + 1)
        }
    }
}

/// A grid has one least solution at most.
pub proof fn lemma_least_solution(g: Grid, s: Grid)
    requires
        is_least_solution_of(s, g),
    ensures
        least_solution(g) == s,
{
    lemma_lex_le_antisymmetric(s, least_solution(g));
}

/// The least solution of a legal grid that has a solution is one of its
/// solutions, and the first of them.
pub proof fn lemma_least_solution_is_least(g: Grid)
    requires
        valid_grid(g),
        solvable(g),
    ensures
        is_least_solution_of(least_solution(g), g),
{
    let s = lemma_least_solution_exists(g);
}

} // verus!
