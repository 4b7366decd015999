//! Forward checking on the model: what fixing a cell does to the candidates
//! of its peers, and how that is undone.

use crate::grid::{cell_has, free_at, grid_wf, in_grid, peers, put, same_unit, Grid};
use crate::tile::{all_values, Cell};
use vstd::prelude::*;

verus! {

/// The cell `x` once `v` is no longer a candidate. A fixed cell stays as it is.
pub open spec fn without(x: Cell, v: int) -> Cell {
    match x {
        Cell::Fixed(_) => x,
        Cell::Open(d) => Cell::Open(d.remove(v)),
    }
}

/// The cell `x` once `v` is a candidate again. A fixed cell is opened, with
/// every value as a candidate.
pub open spec fn revived(x: Cell, v: int) -> Cell {
    match x {
        Cell::Fixed(_) => Cell::Open(all_values()),
        Cell::Open(d) => Cell::Open(d.insert(v)),
    }
}

/// The grid after the value of the fixed cell (`r`, `c`) has been removed
/// from the candidates of all its peers.
pub open spec fn propagated(g: Grid, r: int, c: int) -> Grid {
    Seq::new(
        9,
        |i: int|
            Seq::new(
                9,
                |j: int|
                    if peers(r, c, i, j) {
                        without(g[i][j], g[r][c]->Fixed_0)
                    } else {
                        g[i][j]
                    },
            ),
    )
}

/// The grid after `v` has been made a candidate again in each of `cells`.
pub open spec fn restored(g: Grid, v: int, cells: Seq<(int, int)>) -> Grid {
    Seq::new(
        9,
        |i: int|
            Seq::new(
                9,
                |j: int|
                    if cells.contains((i, j)) {
                        revived(g[i][j], v)
                    } else {
                        g[i][j]
                    },
            ),
    )
}

/// The grid after `v` has been removed from the candidates of each of `cells`.
pub open spec fn struck(g: Grid, v: int, cells: Seq<(int, int)>) -> Grid {
    Seq::new(
        9,
        |i: int|
            Seq::new(
                9,
                |j: int|
                    if cells.contains((i, j)) {
                        without(g[i][j], v)
                    } else {
                        g[i][j]
                    },
            ),
    )
}

/// The positions of column `c`, top to bottom.
pub open spec fn column_cells(c: int) -> Seq<(int, int)> {
    Seq::new(9, |i: int| (i, c))
}

/// The positions of row `r`, left to right.
pub open spec fn row_cells(r: int) -> Seq<(int, int)> {
    Seq::new(9, |j: int| (r, j))
}

/// The positions of the subgrid that holds (`r`, `c`), row by row.
pub open spec fn box_cells(r: int, c: int) -> Seq<(int, int)> {
    Seq::new(9, |k: int| (r / 3 * 3 + k / 3, c / 3 * 3 + k % 3))
}

/// Says of a position whether its cell is open with `v` as a candidate.
pub open spec fn candidate_at(g: Grid, v: int) -> spec_fn((int, int)) -> bool {
    |p: (int, int)| cell_has(g[p.0][p.1], v)
}

/// As [`candidate_at`], for positions outside row `r` and column `c` only.
pub open spec fn candidate_off_cross(g: Grid, v: int, r: int, c: int) -> spec_fn(
    (int, int),
) -> bool {
    |p: (int, int)| p.0 != r && p.1 != c && cell_has(g[p.0][p.1], v)
}

/// The peers of the fixed cell (`r`, `c`) that hold its value as a candidate:
/// those of its column first, then those of its row, then the rest of its
/// subgrid.
pub open spec fn touched(g: Grid, r: int, c: int) -> Seq<(int, int)> {
    let v = g[r][c]->Fixed_0;
    column_cells(c).filter(candidate_at(g, v)) + row_cells(r).filter(candidate_at(g, v))
        + box_cells(r, c).filter(candidate_off_cross(g, v, r, c))
}

/// The integer positions that a list of index pairs names.
pub open spec fn positions(cells: Seq<(usize, usize)>) -> Seq<(int, int)> {
    Seq::new(cells.len(), |k: int| (cells[k].0 as int, cells[k].1 as int))
}

/// Every position of the list lies on the board.
pub open spec fn all_in_grid(cells: Seq<(int, int)>) -> bool {
    forall|k: int| 0 <= k < cells.len() ==> in_grid((#[trigger] cells[k]).0, cells[k].1)
}

/// The grid that an array of 81 numbers describes, row by row: 0 is an open
/// cell with every value as a candidate, another number a fixed cell.
pub open spec fn initial_grid(a: Seq<usize>) -> Grid {
    Seq::new(
        9,
        |i: int|
            Seq::new(
                9,
                |j: int|
                    if a[9 * i + j] == 0 {
                        Cell::Open(all_values())
                    } else {
                        Cell::Fixed(a[9 * i + j] as int)
                    },
            ),
    )
}

/// Filtering nothing gives nothing.
pub proof fn lemma_filter_none<A>(s: Seq<A>, pred: spec_fn(A) -> bool)
    ensures
        s.take(0).filter(pred) == Seq::<A>::empty(),
{
    s.take(0).lemma_filter_len(pred);
    assert(s.take(0).filter(pred) =~= Seq::<A>::empty());
}

/// Filtering one more element of a sequence.
pub proof fn lemma_filter_next<A>(s: Seq<A>, pred: spec_fn(A) -> bool, n: int)
    requires
        0 <= n < s.len(),
    ensures
        s.take(n + 1).filter(pred) == if pred(s[n]) {
            s.take(n).filter(pred).push(s[n])
        } else {
            s.take(n).filter(pred)
        },
{
    s.lemma_take_succ_push(n);
    s.take(n).lemma_filter_push(s[n], pred);
}

/// What a filtered sequence contains.
pub proof fn lemma_filter_members<A>(s: Seq<A>, pred: spec_fn(A) -> bool)
    ensures
        forall|x: A| #[trigger] s.filter(pred).contains(x) <==> s.contains(x) && pred(x),
{
    assert forall|x: A| #[trigger] s.filter(pred).contains(x) <==> s.contains(x) && pred(x) by {
        if s.filter(pred).contains(x) {
            s.lemma_filter_contains_rev(pred, x);
            let k = choose|k: int| 0 <= k < s.filter(pred).len() && s.filter(pred)[k] == x;
            s.lemma_filter_pred(pred, k);
        }
        if s.contains(x) && pred(x) {
            let k = choose|k: int| 0 <= k < s.len() && s[k] == x;
            s.lemma_filter_contains(pred, k);
        }
    }
}

/// The touched positions are exactly the peers that hold the value as a
/// candidate.
pub proof fn lemma_touched_members(g: Grid, r: int, c: int)
    requires
        in_grid(r, c),
        g[r][c] is Fixed,
    ensures
        forall|i: int, j: int|
            #[trigger] touched(g, r, c).contains((i, j)) <==> in_grid(i, j) && peers(r, c, i, j)
                && cell_has(g[i][j], g[r][c]->Fixed_0),
        all_in_grid(touched(g, r, c)),
{
    let v = g[r][c]->Fixed_0;
    let a = column_cells(c);
    let b = row_cells(r);
    let d = box_cells(r, c);
    let fa = a.filter(candidate_at(g, v));
    let fb = b.filter(candidate_at(g, v));
    let fd = d.filter(candidate_off_cross(g, v, r, c));
    lemma_filter_members(a, candidate_at(g, v));
    lemma_filter_members(b, candidate_at(g, v));
    lemma_filter_members(d, candidate_off_cross(g, v, r, c));
    assert forall|i: int, j: int|
        #[trigger] touched(g, r, c).contains((i, j)) <==> in_grid(i, j) && peers(r, c, i, j)
            && cell_has(g[i][j], v) by {
        let p = (i, j);
        vstd::seq_lib::lemma_seq_concat_contains_all_elements(fa, fb, p);
        vstd::seq_lib::lemma_seq_concat_contains_all_elements(fa + fb, fd, p);
        assert(a.contains(p) <==> 0 <= i < 9 && j == c) by {
            if 0 <= i < 9 && j == c {
                assert(a[i] == p);
            }
        }
        assert(b.contains(p) <==> 0 <= j < 9 && i == r) by {
            if 0 <= j < 9 && i == r {
                assert(b[j] == p);
            }
        }
        assert(d.contains(p) <==> in_grid(i, j) && i / 3 == r / 3 && j / 3 == c / 3) by {
            if in_grid(i, j) && i / 3 == r / 3 && j / 3 == c / 3 {
                assert(d[3 * (i % 3) + j % 3] == p);
            }
        }
    }
    let t = touched(g, r, c);
    assert forall|k: int| 0 <= k < t.len() implies in_grid((#[trigger] t[k]).0, t[k].1) by {
        assert(t.contains((t[k].0, t[k].1)));
    }
}

/// Striking one more cell.
pub proof fn lemma_struck_push(g: Grid, v: int, cells: Seq<(int, int)>, r: int, c: int)
    requires
        grid_wf(g),
        in_grid(r, c),
    ensures
        struck(g, v, cells.push((r, c))) == put(
            struck(g, v, cells),
            r,
            c,
            without(struck(g, v, cells)[r][c], v),
        ),
        struck(g, v, Seq::empty()) == g,
{
    let cur = struck(g, v, cells);
    let next = struck(g, v, cells.push((r, c)));
    let target = put(cur, r, c, without(cur[r][c], v));
    assert forall|i: int, j: int| in_grid(i, j) implies #[trigger] next[i][j] == target[i][j] by {
        vstd::seq_lib::lemma_seq_contains_after_push(cells, (r, c), (i, j));
        if i == r && j == c && g[i][j] is Open {
            let d = g[i][j]->Open_0;
            assert(d.remove(v).remove(v) =~= d.remove(v));
        }
    }
    assert(next =~~= target);
    assert(struck(g, v, Seq::empty()) =~~= g);
}

/// Striking the column, the row and the subgrid of a fixed cell is
/// propagating it.
pub proof fn lemma_struck_units(g: Grid, r: int, c: int)
    requires
        grid_wf(g),
        in_grid(r, c),
        g[r][c] is Fixed,
    ensures
        struck(g, g[r][c]->Fixed_0, column_cells(c) + row_cells(r) + box_cells(r, c))
            == propagated(g, r, c),
{
    let v = g[r][c]->Fixed_0;
    let a = column_cells(c);
    let b = row_cells(r);
    let d = box_cells(r, c);
    let all = a + b + d;
    let got = struck(g, v, all);
    let target = propagated(g, r, c);
    assert forall|i: int, j: int| in_grid(i, j) implies #[trigger] got[i][j] == target[i][j] by {
        let p = (i, j);
        vstd::seq_lib::lemma_seq_concat_contains_all_elements(a, b, p);
        vstd::seq_lib::lemma_seq_concat_contains_all_elements(a + b, d, p);
        if j == c {
            assert(a[i] == p);
        }
        if i == r {
            assert(b[j] == p);
        }
        if i / 3 == r / 3 && j / 3 == c / 3 {
            assert(d[3 * (i % 3) + j % 3] == p);
        }
    }
    assert(got =~~= target);
}

/// Reviving one more cell.
pub proof fn lemma_restored_push(g: Grid, v: int, cells: Seq<(int, int)>, r: int, c: int)
    requires
        grid_wf(g),
        in_grid(r, c),
        1 <= v <= 9,
    ensures
        restored(g, v, cells.push((r, c))) == put(
            restored(g, v, cells),
            r,
            c,
            revived(restored(g, v, cells)[r][c], v),
        ),
        restored(g, v, Seq::empty()) == g,
{
    let cur = restored(g, v, cells);
    let next = restored(g, v, cells.push((r, c)));
    let target = put(cur, r, c, revived(cur[r][c], v));
    assert forall|i: int, j: int| in_grid(i, j) implies #[trigger] next[i][j] == target[i][j] by {
        vstd::seq_lib::lemma_seq_contains_after_push(cells, (r, c), (i, j));
        if i == r && j == c {
            match g[i][j] {
                Cell::Fixed(_) => {
                    assert(all_values().insert(v) =~= all_values());
                },
                Cell::Open(d) => {
                    assert(d.insert(v).insert(v) =~= d.insert(v));
                },
            }
        }
    }
    assert(next =~~= target);
    assert(restored(g, v, Seq::empty()) =~~= g);
}

/// Forward checking is undone exactly: when the value of a fixed cell has
/// been removed from its peers, making it a candidate again in the touched
/// peers gives back the grid as it was.
pub proof fn lemma_propagation_round_trip(g: Grid, r: int, c: int)
    requires
        grid_wf(g),
        in_grid(r, c),
        g[r][c] is Fixed,
    ensures
        restored(propagated(g, r, c), g[r][c]->Fixed_0, touched(g, r, c)) == g,
{
    let v = g[r][c]->Fixed_0;
    let after = propagated(g, r, c);
    let back = restored(after, v, touched(g, r, c));
    lemma_touched_members(g, r, c);
    assert forall|i: int, j: int| in_grid(i, j) implies #[trigger] back[i][j] == g[i][j] by {
        if touched(g, r, c).contains((i, j)) {
            let d = g[i][j]->Open_0;
            assert(d.remove(v).insert(v) =~= d);
        } else if peers(r, c, i, j) && g[i][j] is Open {
            let d = g[i][j]->Open_0;
            assert(d.remove(v) =~= d);
        }
    }
    assert(back =~~= g);
}

/// Fixing an open cell, removing the value from its peers, and then undoing
/// both gives back the grid as it was: no candidate is lost and none is added.
pub proof fn lemma_collapse_undo(g: Grid, r: int, c: int, v: int)
    requires
        grid_wf(g),
        in_grid(r, c),
        g[r][c] is Open,
        1 <= v <= 9,
    ensures
        ({
            let fixed = put(g, r, c, Cell::Fixed(v));
            let back = restored(propagated(fixed, r, c), v, touched(fixed, r, c));
            put(back, r, c, g[r][c]) == g
        }),
{
    let fixed = put(g, r, c, Cell::Fixed(v));
    assert(grid_wf(fixed));
    lemma_propagation_round_trip(fixed, r, c);
    assert(put(fixed, r, c, g[r][c]) =~~= g);
}

/// The values that no cell in the row, column or subgrid of (`r`, `c`) is
/// fixed to, looking only at the first `n` cells of the board, row by row.
pub open spec fn free_values_upto(g: Grid, r: int, c: int, n: int) -> Set<int> {
    Set::new(
        |v: int|
            forall|i: int, j: int|
                in_grid(i, j) && same_unit(r, c, i, j) && 9 * i + j < n ==> #[trigger] g[i][j]
                    != Cell::Fixed(v),
    )
}

/// The grid after the values of its first `n` cells, as far as they are
/// fixed, have been removed from the candidates of their peers.
pub open spec fn seeded_upto(g: Grid, n: int) -> Grid {
    Seq::new(
        9,
        |i: int|
            Seq::new(
                9,
                |j: int|
                    match g[i][j] {
                        Cell::Fixed(_) => g[i][j],
                        Cell::Open(d) => Cell::Open(d.intersect(free_values_upto(g, i, j, n))),
                    },
            ),
    )
}

/// The grid after the value of every fixed cell has been removed from the
/// candidates of its peers: an open cell keeps the candidates that no cell of
/// its row, column or subgrid is fixed to.
pub open spec fn seeded(g: Grid) -> Grid {
    seeded_upto(g, 81)
}

/// Every value that could be placed in an open cell is one of its candidates.
pub open spec fn domains_cover(g: Grid) -> bool {
    forall|r: int, c: int, v: int|
        in_grid(r, c) && 1 <= v <= 9 && g[r][c] is Open && #[trigger] free_at(g, v, r, c)
            ==> cell_has(g[r][c], v)
}

/// The candidates of each open cell are exactly the values that could be
/// placed in it.
pub open spec fn domains_exact(g: Grid) -> bool {
    forall|r: int, c: int, v: int|
        in_grid(r, c) && g[r][c] is Open ==> (#[trigger] cell_has(g[r][c], v) <==> 1 <= v <= 9
            && free_at(g, v, r, c))
}

/// Nothing has been propagated yet when no cell has been looked at.
pub proof fn lemma_seeded_start(g: Grid)
    requires
        grid_wf(g),
    ensures
        seeded_upto(g, 0) == g,
{
    assert forall|i: int, j: int| in_grid(i, j) implies #[trigger] seeded_upto(g, 0)[i][j]
        == g[i][j] by {
        if g[i][j] is Open {
            let d = g[i][j]->Open_0;
            assert(d.intersect(free_values_upto(g, i, j, 0)) =~= d);
        }
    }
    assert(seeded_upto(g, 0) =~~= g);
}

/// Looking at one more cell: an open one changes nothing, a fixed one is
/// propagated.
pub proof fn lemma_seeded_step(g: Grid, r: int, c: int)
    requires
        grid_wf(g),
        in_grid(r, c),
    ensures
        grid_wf(seeded_upto(g, 9 * r + c)),
        seeded_upto(g, 9 * r + c)[r][c] is Fixed == g[r][c] is Fixed,
        g[r][c] is Open ==> seeded_upto(g, 9 * r + c + 1) == seeded_upto(g, 9 * r + c),
        g[r][c] is Fixed ==> seeded_upto(g, 9 * r + c + 1) == propagated(
            seeded_upto(g, 9 * r + c),
            r,
            c,
        ),
{
    let n = 9 * r + c;
    let cur = seeded_upto(g, n);
    let next = seeded_upto(g, n + 1);
    assert(grid_wf(cur));
    if g[r][c] is Open {
        assert forall|i: int, j: int| in_grid(i, j) implies #[trigger] next[i][j]
            == cur[i][j] by {
            if g[i][j] is Open {
                let d = g[i][j]->Open_0;
                assert(forall|a: int, b: int|
                    in_grid(a, b) && 9 * a + b == n ==> a == r && b == c);
                assert(free_values_upto(g, i, j, n + 1) =~= free_values_upto(g, i, j, n));
            }
        }
        assert(next =~~= cur);
    } else {
        let v = g[r][c]->Fixed_0;
        let target = propagated(cur, r, c);
        assert(cur[r][c] == g[r][c]);
        assert forall|i: int, j: int| in_grid(i, j) implies #[trigger] next[i][j]
            == target[i][j] by {
            if g[i][j] is Open {
                let d = g[i][j]->Open_0;
                assert(forall|a: int, b: int|
                    in_grid(a, b) && 9 * a + b == n ==> a == r && b == c);
                let before = free_values_upto(g, i, j, n);
                let after = free_values_upto(g, i, j, n + 1);
                if peers(r, c, i, j) {
                    assert(!after.contains(v)) by {
                        assert(same_unit(i, j, r, c));
                        assert(g[r][c] == Cell::Fixed(v));
                    }
                    assert(after =~= before.remove(v));
                    assert(d.intersect(after) =~= d.intersect(before).remove(v));
                } else {
                    assert(!same_unit(i, j, r, c));
                    assert(after =~= before);
                }
            }
        }
        assert(next =~~= target);
    }
}

/// Full propagation keeps the candidates that could be placed: where every
/// value that could be placed in an open cell was a candidate of it, that
/// still holds afterwards.
pub proof fn lemma_seeded_covers(g: Grid)
    requires
        grid_wf(g),
        domains_cover(g),
    ensures
        domains_cover(seeded(g)),
{
    let s = seeded(g);
    assert forall|r: int, c: int, v: int|
        in_grid(r, c) && 1 <= v <= 9 && s[r][c] is Open && #[trigger] free_at(
            s,
            v,
            r,
            c,
        ) implies cell_has(s[r][c], v) by {
        assert forall|i: int, j: int|
            in_grid(i, j) && same_unit(r, c, i, j) implies #[trigger] g[i][j] != Cell::Fixed(
            v,
        ) by {
            assert(s[i][j] != Cell::Fixed(v));
        }
        assert(free_at(g, v, r, c));
        assert(free_values_upto(g, r, c, 81).contains(v));
    }
}

/// Full propagation of a grid whose open cells have every value as a
/// candidate leaves each open cell with exactly the values that could be
/// placed in it, and the fixed cells as they were.
pub proof fn lemma_seeded_exact(g: Grid)
    requires
        grid_wf(g),
        forall|r: int, c: int|
            in_grid(r, c) && (#[trigger] g[r][c]) is Open ==> g[r][c] == Cell::Open(all_values()),
    ensures
        domains_exact(seeded(g)),
        forall|r: int, c: int|
            in_grid(r, c) ==> (#[trigger] seeded(g)[r][c]) is Open == g[r][c] is Open,
        forall|r: int, c: int|
            in_grid(r, c) && g[r][c] is Fixed ==> #[trigger] seeded(g)[r][c] == g[r][c],
{
    let s = seeded(g);
    assert forall|r: int, c: int, v: int| in_grid(r, c) && s[r][c] is Open implies (
    #[trigger] cell_has(s[r][c], v) <==> 1 <= v <= 9 && free_at(s, v, r, c)) by {
        if 1 <= v <= 9 && free_at(s, v, r, c) {
            assert forall|i: int, j: int|
                in_grid(i, j) && same_unit(r, c, i, j) && 9 * i + j < 81 implies #[trigger] g[i][j]
                != Cell::Fixed(v) by {
                assert(s[i][j] != Cell::Fixed(v));
            }
            assert(free_values_upto(g, r, c, 81).contains(v));
        }
        if cell_has(s[r][c], v) {
            assert(free_values_upto(g, r, c, 81).contains(v));
            assert forall|i: int, j: int|
                in_grid(i, j) && same_unit(r, c, i, j) implies #[trigger] s[i][j] != Cell::Fixed(
                v,
            ) by {
                assert(g[i][j] != Cell::Fixed(v));
            }
        }
    }
}

/// Propagating a fixed cell keeps the candidates that could be placed.
pub proof fn lemma_propagated_covers(g: Grid, r: int, c: int)
    requires
        grid_wf(g),
        in_grid(r, c),
        g[r][c] is Fixed,
        domains_cover(g),
    ensures
        domains_cover(propagated(g, r, c)),
{
    let h = propagated(g, r, c);
    assert forall|i: int, j: int, v: int|
        in_grid(i, j) && 1 <= v <= 9 && h[i][j] is Open && #[trigger] free_at(
            h,
            v,
            i,
            j,
        ) implies cell_has(h[i][j], v) by {
        assert forall|a: int, b: int|
            in_grid(a, b) && same_unit(i, j, a, b) implies #[trigger] g[a][b] != Cell::Fixed(
            v,
        ) by {
            assert(h[a][b] != Cell::Fixed(v));
        }
        assert(free_at(g, v, i, j));
        if peers(r, c, i, j) {
            assert(same_unit(i, j, r, c));
            assert(h[r][c] != Cell::Fixed(v));
        }
    }
}

/// A grid with no open cell, or with every value as a candidate of each open
/// cell, leaves out no candidate that could be placed.
pub proof fn lemma_open_covers(g: Grid)
    requires
        forall|r: int, c: int|
            in_grid(r, c) && (#[trigger] g[r][c]) is Open ==> g[r][c] == Cell::Open(all_values()),
    ensures
        domains_cover(g),
{
}

} // verus!
