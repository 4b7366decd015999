//! The two searches on the model: what each returns, on which grid it ends,
//! and how many steps it takes; and the proofs that each finds a solution
//! exactly when there is one.

use crate::grid::{
    candidate_count, cell_has, complete, free_at, grid_wf, in_grid, is_mrv, is_mrv_upto, peers,
    put, same_unit, valid, Grid,
};
use crate::propagation::{
    all_in_grid, domains_cover, lemma_collapse_undo, lemma_touched_members, propagated, restored,
    touched,
};
use crate::tile::{all_values, Cell};
use vstd::prelude::*;

verus! {

/// How a search ends: whether it found a solution, how many steps it took,
/// and the grid it leaves behind.
pub struct Outcome {
    pub found: bool,
    pub steps: nat,
    pub grid: Grid,
}

/// The number of open cells among the first `n` cells, row by row.
pub open spec fn open_upto(g: Grid, n: int) -> nat
    decreases n,
{
    if n <= 0 {
        0
    } else {
        open_upto(g, n - 1) + if g[(n - 1) / 9][(n - 1) % 9] is Open {
            1nat
        } else {
            0nat
        }
    }
}

/// The number of open cells.
pub open spec fn open_count(g: Grid) -> nat {
    open_upto(g, 81)
}

/// The same cells are open in both grids.
pub open spec fn same_shape(g: Grid, h: Grid) -> bool {
    forall|r: int, c: int| in_grid(r, c) ==> (#[trigger] g[r][c]) is Open == h[r][c] is Open
}

/// The same cells are fixed in both grids, to the same values.
pub open spec fn same_fixed(g: Grid, h: Grid) -> bool {
    forall|r: int, c: int|
        in_grid(r, c) && ((#[trigger] g[r][c]) is Fixed || h[r][c] is Fixed) ==> g[r][c] == h[r][c]
}

/// `h` is `g` with some open cells given back all their candidates.
pub open spec fn relaxed(g: Grid, h: Grid) -> bool {
    &&& same_fixed(g, h)
    &&& forall|r: int, c: int|
        in_grid(r, c) && (#[trigger] g[r][c]) is Open ==> h[r][c] == g[r][c] || h[r][c]
            == Cell::Open(all_values())
}

/// The fixed cells of `g`, and for its open cells what `h` holds there as far
/// as it is open too.
pub open spec fn carry(g: Grid, h: Grid) -> Grid {
    Seq::new(
        9,
        |i: int|
            Seq::new(
                9,
                |j: int|
                    if g[i][j] is Fixed {
                        g[i][j]
                    } else if h[i][j] is Open {
                        h[i][j]
                    } else {
                        Cell::Open(all_values())
                    },
            ),
    )
}

/// Giving open cells back all their candidates keeps the candidates that
/// could be placed.
pub proof fn lemma_relaxed_covers(g: Grid, h: Grid)
    requires
        relaxed(g, h),
        domains_cover(g),
    ensures
        domains_cover(h),
{
    assert forall|r: int, c: int, v: int|
        in_grid(r, c) && 1 <= v <= 9 && h[r][c] is Open && #[trigger] free_at(
            h,
            v,
            r,
            c,
        ) implies cell_has(h[r][c], v) by {
        assert(g[r][c] is Open);
        assert forall|i: int, j: int|
            in_grid(i, j) && same_unit(r, c, i, j) implies #[trigger] g[i][j] != Cell::Fixed(
            v,
        ) by {
            assert(h[i][j] != Cell::Fixed(v));
        }
        assert(free_at(g, v, r, c));
    }
}

/// Grids with the same open cells have as many of them.
pub proof fn lemma_same_shape_count(g: Grid, h: Grid, n: int)
    requires
        same_shape(g, h),
        0 <= n <= 81,
    ensures
        open_upto(g, n) == open_upto(h, n),
    decreases n,
{
    if n > 0 {
        lemma_same_shape_count(g, h, n - 1);
        assert(in_grid((n - 1) / 9, (n - 1) % 9));
    }
}

/// Replacing one cell changes the count by that cell alone.
pub proof fn lemma_open_upto_put(g: Grid, r: int, c: int, x: Cell, n: int)
    requires
        grid_wf(g),
        in_grid(r, c),
        0 <= n <= 81,
    ensures
        open_upto(put(g, r, c, x), n) + (if 9 * r + c < n && g[r][c] is Open {
            1int
        } else {
            0int
        }) == open_upto(g, n) + (if 9 * r + c < n && x is Open {
            1int
        } else {
            0int
        }),
    decreases n,
{
    if n > 0 {
        lemma_open_upto_put(g, r, c, x, n - 1);
        let i = (n - 1) / 9;
        let j = (n - 1) % 9;
        assert(in_grid(i, j));
        if i == r && j == c {
            assert(put(g, r, c, x)[i][j] == x);
        } else {
            assert(put(g, r, c, x)[i][j] == g[i][j]);
        }
    }
}

/// Fixing an open cell leaves one open cell less.
pub proof fn lemma_close_cell(g: Grid, r: int, c: int, v: int)
    requires
        grid_wf(g),
        in_grid(r, c),
        g[r][c] is Open,
    ensures
        open_count(put(g, r, c, Cell::Fixed(v))) + 1 == open_count(g),
{
    lemma_open_upto_put(g, r, c, Cell::Fixed(v), 81);
}

/// (`r`, `c`) is the first open cell, row by row.
pub open spec fn is_first_open(g: Grid, r: int, c: int) -> bool {
    &&& in_grid(r, c)
    &&& g[r][c] is Open
    &&& forall|i: int, j: int|
        in_grid(i, j) && 9 * i + j < 9 * r + c ==> (#[trigger] g[i][j]) is Fixed
}

/// The first open cell of a grid that is not complete.
pub open spec fn first_open(g: Grid) -> (int, int) {
    choose|p: (int, int)| is_first_open(g, p.0, p.1)
}

/// The open cell with the fewest candidates, the last of them row by row, of
/// a grid that is not complete.
pub open spec fn mrv_cell(g: Grid) -> (int, int) {
    choose|p: (int, int)| is_mrv(g, p.0, p.1)
}

/// There is one first open cell only.
pub proof fn lemma_first_open_unique(g: Grid, r: int, c: int)
    requires
        is_first_open(g, r, c),
    ensures
        first_open(g) == (r, c),
{
    let p = first_open(g);
    assert(is_first_open(g, (r, c).0, (r, c).1));
    assert(is_first_open(g, p.0, p.1));
    if 9 * p.0 + p.1 < 9 * r + c {
        assert(g[p.0][p.1] is Fixed);
    } else if 9 * r + c < 9 * p.0 + p.1 {
        assert(g[r][c] is Fixed);
    }
}

/// Finds the first open cell, knowing that the first `n` cells are fixed.
proof fn lemma_first_open_from(g: Grid, n: int) -> (p: (int, int))
    requires
        0 <= n <= 81,
        !complete(g),
        forall|i: int, j: int| in_grid(i, j) && 9 * i + j < n ==> (#[trigger] g[i][j]) is Fixed,
    ensures
        is_first_open(g, p.0, p.1),
    decreases 81 - n,
{
    if n == 81 {
        assert(forall|i: int, j: int| in_grid(i, j) ==> 9 * i + j < 81);
        assert(complete(g));
        (0, 0)
    } else if g[n / 9][n % 9] is Open {
        (n / 9, n % 9)
    } else {
        assert forall|i: int, j: int| in_grid(i, j) && 9 * i + j < n + 1 implies (
        #[trigger] g[i][j]) is Fixed by {
            if 9 * i + j == n {
                assert(i == n / 9 && j == n % 9);
            }
        }
        lemma_first_open_from(g, n + 1)
    }
}

/// A grid that is not complete has a first open cell.
pub proof fn lemma_first_open_exists(g: Grid)
    requires
        !complete(g),
    ensures
        is_first_open(g, first_open(g).0, first_open(g).1),
{
    let p = lemma_first_open_from(g, 0);
    assert(is_first_open(g, p.0, p.1));
}

/// There is one cell to branch on only.
pub proof fn lemma_mrv_unique(g: Grid, r: int, c: int)
    requires
        is_mrv(g, r, c),
    ensures
        mrv_cell(g) == (r, c),
{
    let p = mrv_cell(g);
    assert(is_mrv(g, (r, c).0, (r, c).1));
    assert(is_mrv(g, p.0, p.1));
    assert(g[p.0][p.1] is Open);
    assert(g[r][c] is Open);
}

/// Finds the cell to branch on among the first `n` cells, one of which is
/// open.
proof fn lemma_mrv_from(g: Grid, n: int) -> (p: (int, int))
    requires
        0 <= n <= 81,
        exists|i: int, j: int| in_grid(i, j) && 9 * i + j < n && (#[trigger] g[i][j]) is Open,
    ensures
        is_mrv_upto(g, p.0, p.1, n),
    decreases n,
{
    let a = (n - 1) / 9;
    let b = (n - 1) % 9;
    assert(forall|i: int, j: int|
        in_grid(i, j) && 9 * i + j < n ==> 9 * i + j < n - 1 || (i == a && j == b));
    if exists|i: int, j: int| in_grid(i, j) && 9 * i + j < n - 1 && (#[trigger] g[i][j]) is Open {
        let q = lemma_mrv_from(g, n - 1);
        if g[a][b] is Open && candidate_count(g[a][b]) <= candidate_count(g[q.0][q.1]) {
            (a, b)
        } else {
            q
        }
    } else {
        (a, b)
    }
}

/// A grid that is not complete has a cell to branch on.
pub proof fn lemma_mrv_exists(g: Grid)
    requires
        !complete(g),
    ensures
        is_mrv(g, mrv_cell(g).0, mrv_cell(g).1),
{
    let (r, c) = choose|r: int, c: int| in_grid(r, c) && !((#[trigger] g[r][c]) is Fixed);
    assert(g[r][c] is Open);
    let p = lemma_mrv_from(g, 81);
    assert(is_mrv(g, p.0, p.1));
}

/// Every fixed cell of `g` holds the same value in `s`.
pub open spec fn extends(g: Grid, s: Grid) -> bool {
    forall|r: int, c: int| in_grid(r, c) && (#[trigger] g[r][c]) is Fixed ==> s[r][c] == g[r][c]
}

/// `s` is a solution of `g`: a complete grid that keeps the fixed cells of `g`
/// and gives each open cell of `g` a value that none of its peers holds.
pub open spec fn fills(g: Grid, s: Grid) -> bool {
    &&& grid_wf(s)
    &&& complete(s)
    &&& extends(g, s)
    &&& forall|r1: int, c1: int, r2: int, c2: int|
        in_grid(r1, c1) && in_grid(r2, c2) && peers(r1, c1, r2, c2) && (
        #[trigger] g[r1][c1]) is Open ==> s[r1][c1] != #[trigger] s[r2][c2]
}

/// `s` gives each open cell of `g` one of its candidates.
pub open spec fn within(g: Grid, s: Grid) -> bool {
    forall|r: int, c: int|
        in_grid(r, c) && (#[trigger] g[r][c]) is Open ==> cell_has(g[r][c], s[r][c]->Fixed_0)
}

/// `g` has a solution.
pub open spec fn solvable(g: Grid) -> bool {
    exists|s: Grid| fills(g, s)
}

/// `g` has a solution that gives each open cell one of its candidates.
pub open spec fn solvable_within(g: Grid) -> bool {
    exists|s: Grid| #[trigger] fills(g, s) && within(g, s)
}

/// `g` has a solution with a value of at least `v` at (`r`, `c`).
pub open spec fn solvable_from(g: Grid, r: int, c: int, v: int) -> bool {
    exists|s: Grid| #[trigger] fills(g, s) && s[r][c]->Fixed_0 >= v
}

/// `g` has a solution that gives each open cell one of its candidates, with a
/// value of at least `v` at (`r`, `c`).
pub open spec fn solvable_within_from(g: Grid, r: int, c: int, v: int) -> bool {
    exists|s: Grid| #[trigger] fills(g, s) && within(g, s) && s[r][c]->Fixed_0 >= v
}

/// `s` and `t` hold the same in every cell before (`r`, `c`), row by row.
pub open spec fn agree_before(s: Grid, t: Grid, r: int, c: int) -> bool {
    forall|i: int, j: int| in_grid(i, j) && 9 * i + j < 9 * r + c ==> #[trigger] s[i][j] == t[i][j]
}

/// Of two complete grids, `s` is `t` or holds the smaller value in the first
/// cell, row by row, in which they differ.
pub open spec fn comes_first(s: Grid, t: Grid) -> bool {
    forall|r: int, c: int|
        in_grid(r, c) && #[trigger] agree_before(s, t, r, c) ==> s[r][c]->Fixed_0
            <= t[r][c]->Fixed_0
}

/// Of two solutions, the one with the smaller value in the first open cell
/// comes first.
pub proof fn lemma_first_cell_decides(g: Grid, s: Grid, t: Grid, r: int, c: int)
    requires
        is_first_open(g, r, c),
        fills(g, s),
        fills(g, t),
        s[r][c]->Fixed_0 < t[r][c]->Fixed_0,
    ensures
        comes_first(s, t),
{
    assert forall|i: int, j: int|
        in_grid(i, j) && #[trigger] agree_before(s, t, i, j) implies s[i][j]->Fixed_0
        <= t[i][j]->Fixed_0 by {
        if 9 * i + j < 9 * r + c {
            assert(g[i][j] is Fixed);
            assert(s[i][j] == g[i][j]);
            assert(t[i][j] == g[i][j]);
        } else if 9 * i + j > 9 * r + c {
            assert(s[r][c] == t[r][c]);
        } else {
            assert(i == r && j == c);
        }
    }
}

/// A complete grid has no open cell.
pub proof fn lemma_complete_count(g: Grid, n: int)
    requires
        complete(g),
        0 <= n <= 81,
    ensures
        open_upto(g, n) == 0,
    decreases n,
{
    if n > 0 {
        lemma_complete_count(g, n - 1);
        assert(in_grid((n - 1) / 9, (n - 1) % 9));
    }
}

/// A solution of a valid grid is valid, and a complete valid grid that keeps
/// the fixed cells is a solution.
pub proof fn lemma_fills_valid(g: Grid, s: Grid)
    requires
        grid_wf(g),
        grid_wf(s),
        complete(s),
        extends(g, s),
        valid(g),
    ensures
        fills(g, s) <==> valid(s),
{
    if fills(g, s) {
        assert forall|r1: int, c1: int, r2: int, c2: int|
            in_grid(r1, c1) && in_grid(r2, c2) && peers(r1, c1, r2, c2) && (
            #[trigger] s[r1][c1]) is Fixed implies s[r1][c1] != #[trigger] s[r2][c2] by {
            if g[r1][c1] is Open {
            } else if g[r2][c2] is Open {
                assert(peers(r2, c2, r1, c1));
            } else {
                assert(g[r1][c1] != g[r2][c2]);
            }
        }
    }
}

/// The search that tries every value in the first open cell.
pub open spec fn bf_search(g: Grid) -> Outcome
    decreases open_count(g), 11int,
{
    if complete(g) || !grid_wf(g) {
        Outcome { found: complete(g), steps: 1, grid: g }
    } else {
        let p = first_open(g);
        let tried = bf_try(g, p.0, p.1, 1);
        Outcome { found: tried.found, steps: 1 + tried.steps, grid: tried.grid }
    }
}

/// The part of [`bf_search`] that tries the values from `v` on in the open
/// cell (`r`, `c`).
pub open spec fn bf_try(g: Grid, r: int, c: int, v: int) -> Outcome
    decreases open_count(g), 10 - v,
    via bf_try_decreases
{
    if !(grid_wf(g) && in_grid(r, c) && g[r][c] is Open && 1 <= v <= 9) {
        Outcome { found: false, steps: 0, grid: g }
    } else if free_at(g, v, r, c) {
        let sub = bf_search(put(g, r, c, Cell::Fixed(v)));
        if sub.found {
            sub
        } else {
            let rest = bf_try(
                put(carry(g, sub.grid), r, c, Cell::Open(all_values())),
                r,
                c,
                v + 1,
            );
            Outcome { found: rest.found, steps: sub.steps + rest.steps, grid: rest.grid }
        }
    } else {
        bf_try(put(g, r, c, Cell::Open(all_values())), r, c, v + 1)
    }
}

/// Opening an open cell anew, perhaps after carrying over what a failed
/// attempt left, keeps the number of open cells.
pub proof fn lemma_reopen_count(g: Grid, h: Grid, r: int, c: int)
    requires
        grid_wf(g),
        in_grid(r, c),
        g[r][c] is Open,
    ensures
        open_count(put(carry(g, h), r, c, Cell::Open(all_values()))) == open_count(g),
        open_count(put(g, r, c, Cell::Open(all_values()))) == open_count(g),
        grid_wf(put(g, r, c, Cell::Open(all_values()))),
{
    let x = Cell::Open(all_values());
    lemma_same_shape_count(put(carry(g, h), r, c, x), g, 81);
    lemma_same_shape_count(put(g, r, c, x), g, 81);
}

/// Each attempt of [`bf_try`] works on a grid with fewer open cells, or
/// goes on to a greater value.
#[via_fn]
proof fn bf_try_decreases(g: Grid, r: int, c: int, v: int) {
    if grid_wf(g) && in_grid(r, c) && g[r][c] is Open && 1 <= v <= 9 {
        lemma_close_cell(g, r, c, v);
        assert forall|h: Grid|
            open_count(put(#[trigger] carry(g, h), r, c, Cell::Open(all_values()))) == open_count(
                g,
            ) by {
            lemma_reopen_count(g, h, r, c);
        }
        lemma_reopen_count(g, g, r, c);
    }
}

/// Solutions depend on the fixed cells only.
pub proof fn lemma_fills_same_fixed(g: Grid, h: Grid, s: Grid)
    requires
        same_fixed(g, h),
    ensures
        fills(g, s) == fills(h, s),
{
    assert(forall|r: int, c: int|
        in_grid(r, c) ==> (#[trigger] g[r][c]) is Open == h[r][c] is Open);
    assert(forall|r: int, c: int|
        in_grid(r, c) ==> (#[trigger] h[r][c]) is Open == g[r][c] is Open);
    if fills(g, s) {
        assert(extends(h, s));
        assert(fills(h, s));
    }
    if fills(h, s) {
        assert(extends(g, s));
        assert(fills(g, s));
    }
}

/// The solutions of `g` with `v` at the open cell (`r`, `c`) are the
/// solutions of `g` with that cell fixed to `v`, and there are none unless
/// `v` may be placed there.
pub proof fn lemma_fills_fix(g: Grid, r: int, c: int, v: int, s: Grid)
    requires
        grid_wf(g),
        in_grid(r, c),
        g[r][c] is Open,
    ensures
        fills(g, s) && s[r][c] == Cell::Fixed(v) ==> free_at(g, v, r, c),
        fills(g, s) && s[r][c] == Cell::Fixed(v) <==> free_at(g, v, r, c) && fills(
            put(g, r, c, Cell::Fixed(v)),
            s,
        ),
{
    let g1 = put(g, r, c, Cell::Fixed(v));
    assert(forall|i: int, j: int|
        in_grid(i, j) ==> #[trigger] g1[i][j] == (if i == r && j == c {
            Cell::Fixed(v)
        } else {
            g[i][j]
        }));
    if fills(g, s) && s[r][c] == Cell::Fixed(v) {
        assert forall|i: int, j: int|
            in_grid(i, j) && same_unit(r, c, i, j) implies #[trigger] g[i][j] != Cell::Fixed(
            v,
        ) by {
            if g[i][j] == Cell::Fixed(v) {
                assert(peers(r, c, i, j));
                assert(s[i][j] == g[i][j]);
                assert(g[r][c] is Open);
                assert(s[r][c] != s[i][j]);
            }
        }
        assert(extends(g1, s));
        assert forall|r1: int, c1: int, r2: int, c2: int|
            in_grid(r1, c1) && in_grid(r2, c2) && peers(r1, c1, r2, c2) && (
            #[trigger] g1[r1][c1]) is Open implies s[r1][c1] != #[trigger] s[r2][c2] by {
            assert(g[r1][c1] is Open);
        }
        assert(fills(g1, s));
    }
    if free_at(g, v, r, c) && fills(g1, s) {
        assert(g1[r][c] is Fixed);
        assert(s[r][c] == Cell::Fixed(v));
        assert forall|i: int, j: int| in_grid(i, j) && (#[trigger] g[i][j]) is Fixed implies s[i][j]
            == g[i][j] by {
            assert(g1[i][j] == g[i][j]);
        }
        assert forall|r1: int, c1: int, r2: int, c2: int|
            in_grid(r1, c1) && in_grid(r2, c2) && peers(r1, c1, r2, c2) && (
            #[trigger] g[r1][c1]) is Open implies s[r1][c1] != #[trigger] s[r2][c2] by {
            if r1 == r && c1 == c {
                if g1[r2][c2] is Open {
                    assert(peers(r2, c2, r1, c1));
                    assert(s[r2][c2] != s[r1][c1]);
                } else {
                    assert(g[r2][c2] is Fixed);
                    assert(same_unit(r, c, r2, c2));
                    assert(g[r2][c2] != Cell::Fixed(v));
                    assert(s[r2][c2] == g1[r2][c2]);
                }
            } else {
                assert(g1[r1][c1] is Open);
            }
        }
        assert(fills(g, s));
    }
}

/// What [`bf_search`] returns on a well-formed grid: it succeeds exactly
/// when the grid has a solution, and then ends on the solution that comes
/// first, after more steps than there were open cells; when it fails, the
/// fixed cells are as before, and an open cell is as before or has all
/// candidates.
pub open spec fn bf_search_ok(g: Grid) -> bool {
    let o = bf_search(g);
    &&& o.steps >= 1
    &&& grid_wf(o.grid)
    &&& o.found == solvable(g)
    &&& o.found ==> fills(g, o.grid)
    &&& o.found ==> o.steps >= open_count(g) + 1
    &&& o.found ==> forall|t: Grid| #[trigger] fills(g, t) ==> comes_first(o.grid, t)
    &&& !o.found ==> relaxed(g, o.grid)
}

/// What [`bf_try`] returns for the first open cell of a well-formed grid.
pub open spec fn bf_try_ok(g: Grid, r: int, c: int, v: int) -> bool {
    let o = bf_try(g, r, c, v);
    &&& grid_wf(o.grid)
    &&& o.found == solvable_from(g, r, c, v)
    &&& o.found ==> fills(g, o.grid)
    &&& o.found ==> o.steps >= open_count(g)
    &&& o.found ==> forall|t: Grid|
        #[trigger] fills(g, t) && t[r][c]->Fixed_0 >= v ==> comes_first(o.grid, t)
    &&& !o.found ==> relaxed(g, o.grid) && (v <= 9 ==> o.grid[r][c] == Cell::Open(all_values()))
}

/// No solution holds a value above 9.
pub proof fn lemma_no_value_above(g: Grid, r: int, c: int)
    requires
        in_grid(r, c),
    ensures
        !solvable_from(g, r, c, 10),
        solvable_from(g, r, c, 1) == solvable(g),
        !solvable_within_from(g, r, c, 10),
        solvable_within_from(g, r, c, 1) == solvable_within(g),
{
    if solvable_from(g, r, c, 10) {
        let s = choose|s: Grid| #[trigger] fills(g, s) && s[r][c]->Fixed_0 >= 10;
        assert(s[r][c] is Fixed);
    }
    if solvable_within_from(g, r, c, 10) {
        let s = choose|s: Grid| #[trigger] fills(g, s) && within(g, s) && s[r][c]->Fixed_0 >= 10;
        assert(s[r][c] is Fixed);
    }
    if solvable(g) {
        let s = choose|s: Grid| fills(g, s);
        assert(s[r][c] is Fixed);
        assert(fills(g, s) && s[r][c]->Fixed_0 >= 1);
    }
    if solvable_within(g) {
        let s = choose|s: Grid| #[trigger] fills(g, s) && within(g, s);
        assert(s[r][c] is Fixed);
        assert(fills(g, s) && within(g, s) && s[r][c]->Fixed_0 >= 1);
    }
}

/// The exhaustive search is sound and complete.
pub proof fn lemma_bf_search(g: Grid)
    requires
        grid_wf(g),
    ensures
        bf_search_ok(g),
    decreases open_count(g), 11int,
{
    if complete(g) {
        assert(fills(g, g));
        lemma_complete_count(g, 81);
        assert forall|t: Grid| #[trigger] fills(g, t) implies comes_first(g, t) by {
            assert forall|r: int, c: int| in_grid(r, c) implies g[r][c]->Fixed_0
                <= t[r][c]->Fixed_0 by {
                assert(g[r][c] is Fixed);
            }
        }
    } else {
        lemma_first_open_exists(g);
        let p = first_open(g);
        lemma_bf_try(g, p.0, p.1, 1);
        lemma_no_value_above(g, p.0, p.1);
        let o = bf_try(g, p.0, p.1, 1);
        if o.found {
            assert forall|t: Grid| #[trigger] fills(g, t) implies comes_first(o.grid, t) by {
                assert(t[p.0][p.1] is Fixed);
            }
        }
    }
}

/// Trying the values from `v` on in the first open cell is sound and
/// complete.
pub proof fn lemma_bf_try(g: Grid, r: int, c: int, v: int)
    requires
        grid_wf(g),
        is_first_open(g, r, c),
        1 <= v <= 10,
    ensures
        bf_try_ok(g, r, c, v),
    decreases open_count(g), 10 - v,
{
    let o = bf_try(g, r, c, v);
    let all = Cell::Open(all_values());
    if v > 9 {
        lemma_no_value_above(g, r, c);
    } else if free_at(g, v, r, c) {
        let g1 = put(g, r, c, Cell::Fixed(v));
        lemma_close_cell(g, r, c, v);
        lemma_bf_search(g1);
        let sub = bf_search(g1);
        if sub.found {
            lemma_fills_fix(g, r, c, v, sub.grid);
            assert(fills(g, sub.grid) && sub.grid[r][c]->Fixed_0 >= v);
            assert forall|t: Grid| #[trigger]
                fills(g, t) && t[r][c]->Fixed_0 >= v implies comes_first(sub.grid, t) by {
                lemma_fills_fix(g, r, c, v, t);
                assert(t[r][c] is Fixed);
                if t[r][c]->Fixed_0 > v {
                    lemma_first_cell_decides(g, sub.grid, t, r, c);
                }
            }
        } else {
            let g2 = put(carry(g, sub.grid), r, c, all);
            lemma_reopen_count(g, sub.grid, r, c);
            assert(grid_wf(g2));
            assert(same_fixed(g, g2));
            assert(is_first_open(g2, r, c));
            lemma_bf_try(g2, r, c, v + 1);
            let rest = bf_try(g2, r, c, v + 1);
            if solvable_from(g, r, c, v) {
                let s = choose|s: Grid| #[trigger] fills(g, s) && s[r][c]->Fixed_0 >= v;
                lemma_fills_same_fixed(g, g2, s);
                lemma_fills_fix(g, r, c, v, s);
                assert(s[r][c] is Fixed);
                assert(fills(g2, s) && s[r][c]->Fixed_0 >= v + 1);
            }
            if solvable_from(g2, r, c, v + 1) {
                let s = choose|s: Grid| #[trigger] fills(g2, s) && s[r][c]->Fixed_0 >= v + 1;
                lemma_fills_same_fixed(g, g2, s);
                assert(fills(g, s) && s[r][c]->Fixed_0 >= v);
            }
            if rest.found {
                lemma_fills_same_fixed(g, g2, rest.grid);
                assert forall|t: Grid| #[trigger]
                    fills(g, t) && t[r][c]->Fixed_0 >= v implies comes_first(rest.grid, t) by {
                    lemma_fills_same_fixed(g, g2, t);
                    lemma_fills_fix(g, r, c, v, t);
                    assert(t[r][c] is Fixed);
                    assert(fills(g2, t) && t[r][c]->Fixed_0 >= v + 1);
                }
            } else {
                assert(relaxed(g, rest.grid)) by {
                    assert forall|i: int, j: int|
                        in_grid(i, j) && (#[trigger] g[i][j]) is Open implies rest.grid[i][j]
                        == g[i][j] || rest.grid[i][j] == all by {
                        assert(g2[i][j] is Open);
                        if !(i == r && j == c) {
                            assert(g1[i][j] == g[i][j]);
                            assert(g2[i][j] == sub.grid[i][j]);
                        }
                    }
                }
            }
        }
    } else {
        let g2 = put(g, r, c, all);
        lemma_reopen_count(g, g, r, c);
        assert(same_fixed(g, g2));
        assert(is_first_open(g2, r, c));
        lemma_bf_try(g2, r, c, v + 1);
        let rest = bf_try(g2, r, c, v + 1);
        if solvable_from(g, r, c, v) {
            let s = choose|s: Grid| #[trigger] fills(g, s) && s[r][c]->Fixed_0 >= v;
            lemma_fills_same_fixed(g, g2, s);
            lemma_fills_fix(g, r, c, v, s);
            assert(s[r][c] is Fixed);
            assert(fills(g2, s) && s[r][c]->Fixed_0 >= v + 1);
        }
        if solvable_from(g2, r, c, v + 1) {
            let s = choose|s: Grid| #[trigger] fills(g2, s) && s[r][c]->Fixed_0 >= v + 1;
            lemma_fills_same_fixed(g, g2, s);
            assert(fills(g, s) && s[r][c]->Fixed_0 >= v);
        }
        if rest.found {
            lemma_fills_same_fixed(g, g2, rest.grid);
            assert forall|t: Grid| #[trigger]
                fills(g, t) && t[r][c]->Fixed_0 >= v implies comes_first(rest.grid, t) by {
                lemma_fills_same_fixed(g, g2, t);
                lemma_fills_fix(g, r, c, v, t);
                assert(t[r][c] is Fixed);
                assert(fills(g2, t) && t[r][c]->Fixed_0 >= v + 1);
            }
        } else {
            assert(relaxed(g, rest.grid)) by {
                assert forall|i: int, j: int|
                    in_grid(i, j) && (#[trigger] g[i][j]) is Open implies rest.grid[i][j] == g[i][j]
                    || rest.grid[i][j] == all by {
                    assert(g2[i][j] is Open);
                }
            }
        }
    }
}

/// The search that branches on the open cell with the fewest candidates
/// and removes each value it places from the candidates of the peers.
pub open spec fn csp_search(g: Grid) -> Outcome
    decreases open_count(g), 11int,
{
    if complete(g) || !grid_wf(g) {
        Outcome { found: complete(g), steps: 1, grid: g }
    } else {
        let p = mrv_cell(g);
        let tried = csp_try(g, p.0, p.1, 1);
        Outcome { found: tried.found, steps: 1 + tried.steps, grid: tried.grid }
    }
}

/// The part of [`csp_search`] that tries the candidates from `v` on in the
/// open cell (`r`, `c`).
pub open spec fn csp_try(g: Grid, r: int, c: int, v: int) -> Outcome
    decreases open_count(g), 10 - v,
    via csp_try_decreases
{
    if !(grid_wf(g) && in_grid(r, c) && g[r][c] is Open && 1 <= v <= 9) {
        Outcome { found: false, steps: 0, grid: g }
    } else if cell_has(g[r][c], v) && free_at(g, v, r, c) {
        let sub = csp_search(propagated(put(g, r, c, Cell::Fixed(v)), r, c));
        if sub.found {
            sub
        } else {
            let rest = csp_try(g, r, c, v + 1);
            Outcome { found: rest.found, steps: sub.steps + rest.steps, grid: rest.grid }
        }
    } else {
        csp_try(g, r, c, v + 1)
    }
}

/// Fixing an open cell and propagating it leaves one open cell less, in a
/// well-formed grid with the same fixed cells and this one.
pub proof fn lemma_collapse_count(g: Grid, r: int, c: int, v: int)
    requires
        grid_wf(g),
        in_grid(r, c),
        g[r][c] is Open,
        1 <= v <= 9,
    ensures
        open_count(propagated(put(g, r, c, Cell::Fixed(v)), r, c)) + 1 == open_count(g),
        grid_wf(propagated(put(g, r, c, Cell::Fixed(v)), r, c)),
        same_fixed(put(g, r, c, Cell::Fixed(v)), propagated(put(g, r, c, Cell::Fixed(v)), r, c)),
{
    let g1 = put(g, r, c, Cell::Fixed(v));
    let g2 = propagated(g1, r, c);
    lemma_close_cell(g, r, c, v);
    assert(grid_wf(g1));
    lemma_same_shape_count(g2, g1, 81);
}

/// Each attempt of [`csp_try`] works on a grid with fewer open cells, or
/// goes on to a greater value.
#[via_fn]
proof fn csp_try_decreases(g: Grid, r: int, c: int, v: int) {
    if grid_wf(g) && in_grid(r, c) && g[r][c] is Open && 1 <= v <= 9 {
        lemma_collapse_count(g, r, c, v);
    }
}

/// The solutions of `g` within its candidates that have `v` at the open cell
/// (`r`, `c`) are the solutions, within its candidates, of `g` with that cell
/// fixed to `v` and propagated; and there are none unless `v` is a candidate
/// that may be placed there.
pub proof fn lemma_within_fix(g: Grid, r: int, c: int, v: int, s: Grid)
    requires
        grid_wf(g),
        in_grid(r, c),
        g[r][c] is Open,
        1 <= v <= 9,
    ensures
        fills(g, s) && within(g, s) && s[r][c] == Cell::Fixed(v) <==> cell_has(g[r][c], v)
            && free_at(g, v, r, c) && fills(propagated(put(g, r, c, Cell::Fixed(v)), r, c), s)
            && within(propagated(put(g, r, c, Cell::Fixed(v)), r, c), s),
{
    let g1 = put(g, r, c, Cell::Fixed(v));
    let g2 = propagated(g1, r, c);
    lemma_collapse_count(g, r, c, v);
    lemma_fills_fix(g, r, c, v, s);
    lemma_fills_same_fixed(g1, g2, s);
    assert(forall|i: int, j: int|
        in_grid(i, j) ==> #[trigger] g1[i][j] == (if i == r && j == c {
            Cell::Fixed(v)
        } else {
            g[i][j]
        }));
    if fills(g, s) && within(g, s) && s[r][c] == Cell::Fixed(v) {
        assert forall|i: int, j: int|
            in_grid(i, j) && (#[trigger] g2[i][j]) is Open implies cell_has(
            g2[i][j],
            s[i][j]->Fixed_0,
        ) by {
            assert(g[i][j] is Open);
            assert(s[i][j] is Fixed);
            if peers(r, c, i, j) {
                assert(peers(i, j, r, c));
                assert(s[i][j] != s[r][c]);
            }
        }
    }
    if cell_has(g[r][c], v) && free_at(g, v, r, c) && fills(g2, s) && within(g2, s) {
        assert forall|i: int, j: int|
            in_grid(i, j) && (#[trigger] g[i][j]) is Open implies cell_has(
            g[i][j],
            s[i][j]->Fixed_0,
        ) by {
            if !(i == r && j == c) {
                assert(g2[i][j] is Open);
            }
        }
    }
}

/// What [`csp_search`] returns on a well-formed grid: it succeeds exactly
/// when the grid has a solution within its candidates, then ends on one; when
/// it fails, it ends on the grid it began with.
pub open spec fn csp_search_ok(g: Grid) -> bool {
    let o = csp_search(g);
    &&& o.steps >= 1
    &&& grid_wf(o.grid)
    &&& o.found == solvable_within(g)
    &&& o.found ==> fills(g, o.grid) && within(g, o.grid)
    &&& o.found ==> o.steps >= open_count(g) + 1
    &&& !o.found ==> o.grid == g
}

/// What [`csp_try`] returns for an open cell of a well-formed grid.
pub open spec fn csp_try_ok(g: Grid, r: int, c: int, v: int) -> bool {
    let o = csp_try(g, r, c, v);
    &&& grid_wf(o.grid)
    &&& o.found == solvable_within_from(g, r, c, v)
    &&& o.found ==> fills(g, o.grid) && within(g, o.grid)
    &&& o.found ==> o.steps >= open_count(g)
    &&& !o.found ==> o.grid == g
}

/// The search with forward checking is sound and complete.
pub proof fn lemma_csp_search(g: Grid)
    requires
        grid_wf(g),
    ensures
        csp_search_ok(g),
    decreases open_count(g), 11int,
{
    if complete(g) {
        assert(fills(g, g));
        assert(within(g, g));
        lemma_complete_count(g, 81);
    } else {
        lemma_mrv_exists(g);
        let p = mrv_cell(g);
        lemma_csp_try(g, p.0, p.1, 1);
        lemma_no_value_above(g, p.0, p.1);
    }
}

/// Trying the candidates from `v` on in an open cell is sound and complete.
pub proof fn lemma_csp_try(g: Grid, r: int, c: int, v: int)
    requires
        grid_wf(g),
        in_grid(r, c),
        g[r][c] is Open,
        1 <= v <= 10,
    ensures
        csp_try_ok(g, r, c, v),
    decreases open_count(g), 10 - v,
{
    if v > 9 {
        lemma_no_value_above(g, r, c);
    } else {
        let g2 = propagated(put(g, r, c, Cell::Fixed(v)), r, c);
        let tried = cell_has(g[r][c], v) && free_at(g, v, r, c);
        lemma_collapse_count(g, r, c, v);
        if tried {
            lemma_csp_search(g2);
        }
        let sub = csp_search(g2);
        if tried && sub.found {
            lemma_within_fix(g, r, c, v, sub.grid);
            assert(fills(g, sub.grid) && within(g, sub.grid) && sub.grid[r][c]->Fixed_0 >= v);
        } else {
            lemma_csp_try(g, r, c, v + 1);
            if solvable_within_from(g, r, c, v) {
                let s = choose|s: Grid| #[trigger]
                    fills(g, s) && within(g, s) && s[r][c]->Fixed_0 >= v;
                lemma_within_fix(g, r, c, v, s);
                assert(s[r][c] is Fixed);
                assert(fills(g, s) && within(g, s) && s[r][c]->Fixed_0 >= v + 1);
            }
            if solvable_within_from(g, r, c, v + 1) {
                let s = choose|s: Grid| #[trigger]
                    fills(g, s) && within(g, s) && s[r][c]->Fixed_0 >= v + 1;
                assert(fills(g, s) && within(g, s) && s[r][c]->Fixed_0 >= v);
            }
        }
    }
}

/// Where every value that could be placed in an open cell is one of its
/// candidates, every solution lies within the candidates.
pub proof fn lemma_cover_within(g: Grid, s: Grid)
    requires
        grid_wf(g),
        domains_cover(g),
        fills(g, s),
    ensures
        within(g, s),
{
    assert forall|r: int, c: int| in_grid(r, c) && (#[trigger] g[r][c]) is Open implies cell_has(
        g[r][c],
        s[r][c]->Fixed_0,
    ) by {
        assert(s[r][c] is Fixed);
        let v = s[r][c]->Fixed_0;
        lemma_fills_fix(g, r, c, v, s);
        assert(free_at(g, v, r, c));
    }
}

/// The two searches agree: on a grid whose candidates leave out no value that
/// could be placed, either both find a solution or neither does.
pub proof fn lemma_searches_agree(g: Grid)
    requires
        grid_wf(g),
        domains_cover(g),
    ensures
        bf_search(g).found == csp_search(g).found,
        bf_search(g).found == solvable(g),
{
    lemma_bf_search(g);
    lemma_csp_search(g);
    if solvable(g) {
        let s = choose|s: Grid| fills(g, s);
        lemma_cover_within(g, s);
    }
}

/// Where a grid has one solution only, both searches end on it.
pub proof fn lemma_searches_agree_on_unique(g: Grid)
    requires
        grid_wf(g),
        domains_cover(g),
        solvable(g),
        forall|s: Grid, t: Grid| fills(g, s) && fills(g, t) ==> s == t,
    ensures
        bf_search(g).found,
        csp_search(g).found,
        bf_search(g).grid == csp_search(g).grid,
{
    lemma_searches_agree(g);
    lemma_bf_search(g);
    lemma_csp_search(g);
}

/// A search that never turns back is not beaten: where one of the two
/// searches finds a solution in as few steps as can be, one more than there
/// are open cells, the other takes at least as many.
pub proof fn lemma_straight_search_not_beaten(g: Grid)
    requires
        grid_wf(g),
        domains_cover(g),
    ensures
        csp_search(g).found && csp_search(g).steps == open_count(g) + 1 ==> csp_search(g).steps
            <= bf_search(g).steps,
        bf_search(g).found && bf_search(g).steps == open_count(g) + 1 ==> bf_search(g).steps
            <= csp_search(g).steps,
{
    lemma_searches_agree(g);
    lemma_bf_search(g);
    lemma_csp_search(g);
}

/// Candidates that are skipped change nothing: where no value from `v` up to
/// `w` is a candidate of the cell, trying from `v` on is trying from `w` on.
pub proof fn lemma_csp_try_skip(g: Grid, r: int, c: int, v: int, w: int)
    requires
        1 <= v <= w <= 10,
        forall|u: int| v <= u < w ==> !cell_has(g[r][c], u),
    ensures
        csp_try(g, r, c, v) == csp_try(g, r, c, w),
    decreases w - v,
{
    if v < w {
        lemma_csp_try_skip(g, r, c, v + 1, w);
    }
}

/// One round of [`csp_try`], for the candidate `v` whose next candidate is
/// `w` (10 when it is the last): the grid the search goes down into, how
/// the round ends for each way the descent can end, and that undoing the
/// descent gives back the grid.
pub proof fn lemma_csp_round(g: Grid, r: int, c: int, v: int, w: int)
    requires
        grid_wf(g),
        in_grid(r, c),
        1 <= v < w <= 10,
        cell_has(g[r][c], v),
        forall|u: int| v < u < w ==> !cell_has(g[r][c], u),
    ensures
        ({
            let fixed = put(g, r, c, Cell::Fixed(v));
            let below = propagated(fixed, r, c);
            let sub = csp_search(below);
            let here = csp_try(g, r, c, v);
            let rest = csp_try(g, r, c, w);
            &&& grid_wf(fixed)
            &&& grid_wf(below)
            &&& open_count(below) < open_count(g)
            &&& all_in_grid(touched(fixed, r, c))
            &&& put(restored(below, v, touched(fixed, r, c)), r, c, g[r][c]) == g
            &&& if !free_at(g, v, r, c) {
                here == rest
            } else if sub.found {
                here == sub
            } else {
                here.found == rest.found && here.grid == rest.grid && here.steps == sub.steps
                    + rest.steps
            }
        }),
{
    let fixed = put(g, r, c, Cell::Fixed(v));
    lemma_collapse_count(g, r, c, v);
    lemma_csp_try_skip(g, r, c, v + 1, w);
    lemma_touched_members(fixed, r, c);
    lemma_collapse_undo(g, r, c, v);
}

/// One round of [`bf_try`], for the value `v`: the grid the search goes down
/// into, how the round ends for each way the descent can end, and the grid
/// on which the next round begins.
pub proof fn lemma_bf_round(g: Grid, r: int, c: int, v: int)
    requires
        grid_wf(g),
        in_grid(r, c),
        g[r][c] is Open,
        1 <= v <= 9,
    ensures
        ({
            let fixed = put(g, r, c, Cell::Fixed(v));
            let sub = bf_search(fixed);
            let here = bf_try(g, r, c, v);
            let open = Cell::Open(all_values());
            let next = if free_at(g, v, r, c) {
                put(sub.grid, r, c, open)
            } else {
                put(g, r, c, open)
            };
            let rest = bf_try(next, r, c, v + 1);
            &&& grid_wf(fixed)
            &&& open_count(fixed) < open_count(g)
            &&& if !free_at(g, v, r, c) {
                here == rest
            } else if sub.found {
                here == sub
            } else {
                here.found == rest.found && here.grid == rest.grid && here.steps == sub.steps
                    + rest.steps
            }
            &&& !(free_at(g, v, r, c) && sub.found) ==> grid_wf(next) && next[r][c] is Open
                && open_count(next) == open_count(g)
        }),
{
    let fixed = put(g, r, c, Cell::Fixed(v));
    let open = Cell::Open(all_values());
    lemma_close_cell(g, r, c, v);
    if free_at(g, v, r, c) {
        lemma_bf_search(fixed);
        let sub = bf_search(fixed);
        if !sub.found {
            lemma_reopen_count(g, sub.grid, r, c);
            let x = put(sub.grid, r, c, open);
            let y = put(carry(g, sub.grid), r, c, open);
            assert forall|i: int, j: int| in_grid(i, j) implies #[trigger] x[i][j] == y[i][j] by {
                if !(i == r && j == c) {
                    assert(fixed[i][j] == g[i][j]);
                }
            }
            assert(x =~~= y);
        }
    } else {
        lemma_reopen_count(g, g, r, c);
    }
}

/// What a 32-bit step counter shows after `n` steps: it starts again at 0
/// when it has passed 2^32 - 1.
pub open spec fn wrapped(n: int) -> u32 {
    (n % 0x1_0000_0000) as u32
}

/// Counting on from a wrapped counter is wrapping the sum.
pub proof fn lemma_wrapped_add(n: int, m: int)
    requires
        0 <= n,
        0 <= m,
    ensures
        wrapped(wrapped(n) + m) == wrapped(n + m),
        n <= u32::MAX ==> wrapped(n) == n,
        wrapped(n) < u32::MAX ==> wrapped(n + 1) == wrapped(n) + 1,
        wrapped(n) == u32::MAX ==> wrapped(n + 1) == 0,
{
}

} // verus!
