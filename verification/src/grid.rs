//! The mathematical model of a board: a 9 × 9 grid of cells, and what it
//! means for one to be valid, complete, or a solution of another.

use crate::tile::{all_values, Cell};
use vstd::prelude::*;

verus! {

/// Nine rows of nine cells.
pub type Grid = Seq<Seq<Cell>>;

/// Row `r`, column `c` names a cell of the board.
pub open spec fn in_grid(r: int, c: int) -> bool {
    0 <= r < 9 && 0 <= c < 9
}

/// Two positions lie in one row, one column or one 3 × 3 subgrid.
pub open spec fn same_unit(r1: int, c1: int, r2: int, c2: int) -> bool {
    r1 == r2 || c1 == c2 || (r1 / 3 == r2 / 3 && c1 / 3 == c2 / 3)
}

/// Two different cells that constrain each other.
pub open spec fn peers(r1: int, c1: int, r2: int, c2: int) -> bool {
    (r1 != r2 || c1 != c2) && same_unit(r1, c1, r2, c2)
}

/// A fixed value lies in 1..=9, and so does every candidate.
pub open spec fn cell_wf(x: Cell) -> bool {
    match x {
        Cell::Fixed(v) => 1 <= v <= 9,
        Cell::Open(d) => d.subset_of(all_values()),
    }
}

/// The grid has 9 × 9 well-formed cells.
pub open spec fn grid_wf(g: Grid) -> bool {
    &&& g.len() == 9
    &&& forall|r: int| 0 <= r < 9 ==> (#[trigger] g[r]).len() == 9
    &&& forall|r: int, c: int| in_grid(r, c) ==> cell_wf(#[trigger] g[r][c])
}

/// No two peers hold the same fixed value.
pub open spec fn valid(g: Grid) -> bool {
    forall|r1: int, c1: int, r2: int, c2: int|
        in_grid(r1, c1) && in_grid(r2, c2) && peers(r1, c1, r2, c2) && (
        #[trigger] g[r1][c1]) is Fixed ==> g[r1][c1] != #[trigger] g[r2][c2]
}

/// Every cell is fixed.
pub open spec fn complete(g: Grid) -> bool {
    forall|r: int, c: int| in_grid(r, c) ==> (#[trigger] g[r][c]) is Fixed
}

/// The grid with cell (`r`, `c`) replaced by `x`.
pub open spec fn put(g: Grid, r: int, c: int, x: Cell) -> Grid {
    g.update(r, g[r].update(c, x))
}

/// No cell in the row, column or subgrid of (`r`, `c`) is fixed to `v`.
pub open spec fn free_at(g: Grid, v: int, r: int, c: int) -> bool {
    forall|i: int, j: int|
        in_grid(i, j) && same_unit(r, c, i, j) ==> #[trigger] g[i][j] != Cell::Fixed(v)
}

/// `v` is a candidate of the open cell `x`.
pub open spec fn cell_has(x: Cell, v: int) -> bool {
    x is Open && x->Open_0.contains(v)
}

/// The number of candidates of an open cell.
pub open spec fn candidate_count(x: Cell) -> nat {
    x->Open_0.len()
}

/// Among the first `n` cells of the board, row by row, (`r`, `c`) is an open
/// cell with the fewest candidates, and the last such cell.
pub open spec fn is_mrv_upto(g: Grid, r: int, c: int, n: int) -> bool {
    &&& in_grid(r, c)
    &&& 9 * r + c < n
    &&& g[r][c] is Open
    &&& forall|i: int, j: int|
        in_grid(i, j) && 9 * i + j < n && (#[trigger] g[i][j]) is Open ==> candidate_count(
            g[r][c],
        ) < candidate_count(g[i][j]) || (candidate_count(g[r][c]) == candidate_count(g[i][j]) && 9
            * i + j <= 9 * r + c)
}

/// (`r`, `c`) is the open cell to branch on: none has fewer candidates, and
/// of those with as few it is the last, row by row.
pub open spec fn is_mrv(g: Grid, r: int, c: int) -> bool {
    is_mrv_upto(g, r, c, 81)
}

/// The cells of column `c`, top to bottom.
pub open spec fn column_of(g: Grid, c: int) -> Seq<Cell> {
    Seq::new(9, |i: int| g[i][c])
}

/// The cells of the subgrid in band `br` and stack `bc`, row by row.
pub open spec fn box_of(g: Grid, br: int, bc: int) -> Seq<Cell> {
    Seq::new(9, |i: int| g[3 * br + i / 3][3 * bc + i % 3])
}

/// No fixed value occurs twice among the first `n` cells of `u`.
pub open spec fn distinct_upto(u: Seq<Cell>, n: int) -> bool {
    forall|i: int, j: int| 0 <= i < j < n && (#[trigger] u[i]) is Fixed ==> u[i] != #[trigger] u[j]
}

/// One of the first `n` cells of `u` is fixed to `v`.
pub open spec fn seen_upto(u: Seq<Cell>, n: int, v: int) -> bool {
    exists|j: int| 0 <= j < n && #[trigger] u[j] == Cell::Fixed(v)
}

/// None of the first `n` cells of `u` is fixed to `v`.
pub open spec fn absent_upto(u: Seq<Cell>, n: int, v: int) -> bool {
    forall|j: int| 0 <= j < n ==> #[trigger] u[j] != Cell::Fixed(v)
}

/// No row, column or subgrid holds a fixed value twice.
pub open spec fn units_distinct(g: Grid) -> bool {
    &&& forall|r: int| 0 <= r < 9 ==> distinct_upto(#[trigger] g[r], 9)
    &&& forall|c: int| 0 <= c < 9 ==> #[trigger] distinct_upto(column_of(g, c), 9)
    &&& forall|br: int, bc: int|
        0 <= br < 3 && 0 <= bc < 3 ==> #[trigger] distinct_upto(box_of(g, br, bc), 9)
}

/// A grid whose units each hold distinct fixed values is valid.
pub proof fn lemma_units_distinct_valid(g: Grid)
    requires
        grid_wf(g),
        units_distinct(g),
    ensures
        valid(g),
{
    assert forall|r1: int, c1: int, r2: int, c2: int|
        in_grid(r1, c1) && in_grid(r2, c2) && peers(r1, c1, r2, c2) && (
        #[trigger] g[r1][c1]) is Fixed implies g[r1][c1] != #[trigger] g[r2][c2] by {
        if r1 == r2 {
            assert(distinct_upto(g[r1], 9));
        } else if c1 == c2 {
            let u = column_of(g, c1);
            assert(distinct_upto(u, 9));
            assert(u[r1] == g[r1][c1] && u[r2] == g[r2][c2]);
        } else {
            let u = box_of(g, r1 / 3, c1 / 3);
            assert(distinct_upto(u, 9));
            let k1 = 3 * (r1 % 3) + c1 % 3;
            let k2 = 3 * (r2 % 3) + c2 % 3;
            assert(u[k1] == g[r1][c1] && u[k2] == g[r2][c2]);
            assert(k1 != k2);
        }
    }
}

/// Looking at one more cell of a unit: what has been seen, and whether the
/// values seen are distinct.
pub proof fn lemma_scan_step(u: Seq<Cell>, n: int)
    requires
        0 <= n < u.len(),
    ensures
        forall|v: int|
            #[trigger] seen_upto(u, n + 1, v) == (seen_upto(u, n, v) || u[n] == Cell::Fixed(v)),
        u[n] is Open ==> distinct_upto(u, n + 1) == distinct_upto(u, n),
        u[n] is Fixed ==> distinct_upto(u, n + 1) == (distinct_upto(u, n) && !seen_upto(
            u,
            n,
            u[n]->Fixed_0,
        )),
{
    assert forall|v: int|
        #[trigger] seen_upto(u, n + 1, v) == (seen_upto(u, n, v) || u[n] == Cell::Fixed(
            v,
        )) by {
        if seen_upto(u, n, v) {
            let j = choose|j: int| 0 <= j < n && #[trigger] u[j] == Cell::Fixed(v);
            assert(0 <= j < n + 1 && u[j] == Cell::Fixed(v));
        }
    }
    if distinct_upto(u, n + 1) {
        assert(distinct_upto(u, n));
        if u[n] is Fixed && seen_upto(u, n, u[n]->Fixed_0) {
            let j = choose|j: int| 0 <= j < n && #[trigger] u[j] == Cell::Fixed(u[n]->Fixed_0);
            assert(u[j] != u[n]);
        }
    }
}

} // verus!
