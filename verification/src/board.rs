//! The board and its solvers.

use crate::grid::{
    absent_upto, box_of, candidate_count, cell_has, column_of, complete, distinct_upto, free_at,
    grid_wf, in_grid, is_mrv, is_mrv_upto, lemma_scan_step, lemma_units_distinct_valid, peers,
    put, same_unit, seen_upto, valid, Grid,
};
use crate::propagation::{
    all_in_grid, box_cells, candidate_at, candidate_off_cross, column_cells, domains_cover,
    domains_exact, initial_grid, lemma_filter_next, lemma_filter_none, lemma_open_covers,
    lemma_propagated_covers, lemma_restored_push, lemma_seeded_covers, lemma_seeded_exact,
    lemma_seeded_start, lemma_seeded_step, lemma_struck_push, lemma_struck_units, positions,
    propagated, restored, revived, row_cells, seeded, seeded_upto, struck, touched, without,
};
use crate::search::{
    bf_search, bf_search_ok, bf_try, comes_first, csp_search, csp_try, fills, lemma_bf_round,
    lemma_bf_search, lemma_cover_within, lemma_csp_round, lemma_csp_search,
    lemma_csp_try_skip, lemma_fills_valid, lemma_first_open_unique, lemma_mrv_unique,
    lemma_relaxed_covers, lemma_wrapped_add, open_count, relaxed, solvable, solvable_within,
    within, wrapped, Outcome,
};
use crate::tile::{
    all_values, lemma_candidates_gap, lists_candidates, next_candidate, Cell, Domain, Tile,
};
use vstd::pervasive::unreached;
use vstd::prelude::*;

verus! {

/// Side length of a subgrid.
pub const SUDOKU_BASE: usize = 3;

/// Side length of the board, and the largest value of a cell.
pub const SUDOKU_SIZE: usize = SUDOKU_BASE * SUDOKU_BASE;

/// Number of cells of the board.
pub const SUDOKU_CELLS: usize = 81;

/// A 9 × 9 board of tiles, row by row.
pub struct SudokuBoard {
    board: [[Tile; SUDOKU_SIZE]; SUDOKU_SIZE],
}

impl Clone for SudokuBoard {
    /// A board with the same grid.
    fn clone(&self) -> (copy: Self)
        ensures
            copy@ == self@,
    {
        Self { board: self.board }
    }
}

impl View for SudokuBoard {
    type V = Grid;

    /// The grid of the board: cell (`r`, `c`) is the value of the tile in row
    /// `r`, column `c`.
    closed spec fn view(&self) -> Grid {
        Seq::new(9, |r: int| Seq::new(9, |c: int| self.board@[r]@[c]@))
    }
}

impl SudokuBoard {
    /// Every fixed cell holds a value from 1 to 9.
    pub open spec fn wf(&self) -> bool {
        grid_wf(self@)
    }

    /// The board that `array` describes, row by row: 0 is a blank, another
    /// number a given. The givens are fixed and removed from the candidates
    /// of their peers.
    pub fn from_array(array: [usize; SUDOKU_CELLS]) -> (board: Self)
        requires
            forall|k: int| 0 <= k < 81 ==> array@[k] <= 9,
        ensures
            board.wf(),
            forall|r: int, c: int|
                in_grid(r, c) ==> (if array@[9 * r + c] == 0 {
                    (#[trigger] board@[r][c]) is Open
                } else {
                    board@[r][c] == Cell::Fixed(array@[9 * r + c] as int)
                }),
            domains_exact(board@),
            domains_cover(board@),
            board@ == seeded(initial_grid(array@)),
    {
        let mut board = [[Tile::default(); SUDOKU_SIZE]; SUDOKU_SIZE];
        let ghost g = initial_grid(array@);
        for row in 0..SUDOKU_SIZE
            invariant
                g == initial_grid(array@),
                forall|k: int| 0 <= k < 81 ==> array@[k] <= 9,
                forall|i: int, j: int|
                    in_grid(i, j) ==> (#[trigger] board@[i]@[j])@ == (if i < row {
                        g[i][j]
                    } else {
                        Cell::Open(all_values())
                    }),
        {
            for col in 0..SUDOKU_SIZE
                invariant
                    row < 9,
                    g == initial_grid(array@),
                    forall|k: int| 0 <= k < 81 ==> array@[k] <= 9,
                    forall|i: int, j: int|
                        in_grid(i, j) ==> (#[trigger] board@[i]@[j])@ == (if i < row || (i == row
                            && j < col) {
                            g[i][j]
                        } else {
                            Cell::Open(all_values())
                        }),
            {
                let index = row * SUDOKU_SIZE + col;
                match array[index] {
                    0 => {},
                    c => {
                        board[row][col] = Tile::Collapsed(c);
                    },
                }
            }
        }

        let mut board = Self { board };
        proof {
            assert(board@ =~~= g);
            lemma_open_covers(g);
            lemma_seeded_covers(g);
            lemma_seeded_exact(g);
        }
        board.propagate_uncollapsed();
        board
    }

    /// The empty board: every cell open, every value a candidate.
    pub fn generate() -> (board: Self)
        ensures
            board.wf(),
            forall|r: int, c: int|
                in_grid(r, c) ==> #[trigger] board@[r][c] == Cell::Open(all_values()),
            domains_cover(board@),
    {
        let board = [[Tile::default(); SUDOKU_SIZE]; SUDOKU_SIZE];
        Self { board }
    }

    /// The tile at (`row`, `col`).
    pub fn get(&self, row: usize, col: usize) -> (tile: Tile)
        requires
            row < SUDOKU_SIZE,
            col < SUDOKU_SIZE,
        ensures
            tile@ == self@[row as int][col as int],
    {
        self.board[row][col]
    }

    /// Whether no two cells of a row, a column or a subgrid are fixed to the
    /// same value. Open cells are ignored.
    pub fn is_valid(&self) -> (ok: bool)
        requires
            self.wf(),
        ensures
            ok == valid(self@),
    {
        let ghost g = self@;
        // Check rows
        for row in 0..SUDOKU_SIZE
            invariant
                g == self@,
                grid_wf(g),
                forall|r: int| 0 <= r < row ==> distinct_upto(#[trigger] g[r], 9),
        {
            let mut present = [false; SUDOKU_SIZE];
            for col in 0..SUDOKU_SIZE
                invariant
                    g == self@,
                    grid_wf(g),
                    row < 9,
                    distinct_upto(g[row as int], col as int),
                    forall|k: int|
                        0 <= k < 9 ==> #[trigger] present@[k] == seen_upto(
                            g[row as int],
                            col as int,
                            k + 1,
                        ),
            {
                proof {
                    lemma_scan_step(g[row as int], col as int);
                }
                if let Tile::Collapsed(val) = self.board[row][col] {
                    assert(g[row as int][col as int] == Cell::Fixed(val as int));
                    if present[val - 1] {
                        proof {
                            let j = choose|j: int|
                                0 <= j < col && #[trigger] g[row as int][j] == Cell::Fixed(
                                    val as int,
                                );
                            assert(peers(row as int, j, row as int, col as int));
                            assert(g[row as int][j] == g[row as int][col as int]);
                        }
                        return false;
                    }
                    present[val - 1] = true;
                } else {
                    assert(g[row as int][col as int] is Open);
                }
            }
        }

        // Check cols
        for col in 0..SUDOKU_SIZE
            invariant
                g == self@,
                grid_wf(g),
                forall|r: int| 0 <= r < 9 ==> distinct_upto(#[trigger] g[r], 9),
                forall|c: int| 0 <= c < col ==> #[trigger] distinct_upto(column_of(g, c), 9),
        {
            let mut present = [false; SUDOKU_SIZE];
            let ghost u = column_of(g, col as int);
            for row in 0..SUDOKU_SIZE
                invariant
                    g == self@,
                    grid_wf(g),
                    col < 9,
                    u == column_of(g, col as int),
                    distinct_upto(u, row as int),
                    forall|k: int|
                        0 <= k < 9 ==> #[trigger] present@[k] == seen_upto(u, row as int, k + 1),
            {
                proof {
                    lemma_scan_step(u, row as int);
                }
                if let Tile::Collapsed(val) = self.board[row][col] {
                    assert(u[row as int] == Cell::Fixed(val as int));
                    if present[val - 1] {
                        proof {
                            let j = choose|j: int|
                                0 <= j < row && #[trigger] u[j] == Cell::Fixed(val as int);
                            assert(peers(j, col as int, row as int, col as int));
                            assert(g[j][col as int] == g[row as int][col as int]);
                        }
                        return false;
                    }
                    present[val - 1] = true;
                } else {
                    assert(u[row as int] is Open);
                }
            }
        }

        // Check subgrids
        for sr in 0..SUDOKU_BASE
            invariant
                g == self@,
                grid_wf(g),
                forall|r: int| 0 <= r < 9 ==> distinct_upto(#[trigger] g[r], 9),
                forall|c: int| 0 <= c < 9 ==> #[trigger] distinct_upto(column_of(g, c), 9),
                forall|br: int, bc: int|
                    0 <= br < sr && 0 <= bc < 3 ==> #[trigger] distinct_upto(box_of(g, br, bc), 9),
        {
            for sc in 0..SUDOKU_BASE
                invariant
                    g == self@,
                    grid_wf(g),
                    sr < 3,
                    forall|br: int, bc: int|
                        0 <= br < sr && 0 <= bc < 3 ==> #[trigger] distinct_upto(
                            box_of(g, br, bc),
                            9,
                        ),
                    forall|bc: int|
                        0 <= bc < sc ==> #[trigger] distinct_upto(box_of(g, sr as int, bc), 9),
            {
                let mut present = [false; SUDOKU_SIZE];
                let ghost u = box_of(g, sr as int, sc as int);
                for r in 0..SUDOKU_BASE
                    invariant
                        g == self@,
                        grid_wf(g),
                        sr < 3,
                        sc < 3,
                        u == box_of(g, sr as int, sc as int),
                        distinct_upto(u, 3 * r),
                        forall|k: int|
                            0 <= k < 9 ==> #[trigger] present@[k] == seen_upto(u, 3 * r, k + 1),
                {
                    for c in 0..SUDOKU_BASE
                        invariant
                            g == self@,
                            grid_wf(g),
                            sr < 3,
                            sc < 3,
                            r < 3,
                            u == box_of(g, sr as int, sc as int),
                            distinct_upto(u, 3 * r + c),
                            forall|k: int|
                                0 <= k < 9 ==> #[trigger] present@[k] == seen_upto(
                                    u,
                                    3 * r + c,
                                    k + 1,
                                ),
                    {
                        let row = sr * SUDOKU_BASE + r;
                        let col = sc * SUDOKU_BASE + c;
                        proof {
                            lemma_scan_step(u, 3 * r + c);
                            assert(u[3 * r + c] == g[row as int][col as int]);
                        }
                        if let Tile::Collapsed(val) = self.board[row][col] {
                            assert(u[3 * r + c] == Cell::Fixed(val as int));
                            if present[val - 1] {
                                proof {
                                    let j = choose|j: int|
                                        0 <= j < 3 * r + c && #[trigger] u[j] == Cell::Fixed(
                                            val as int,
                                        );
                                    let r1 = 3 * sr + j / 3;
                                    let c1 = 3 * sc + j % 3;
                                    assert(peers(r1, c1, row as int, col as int));
                                    assert(g[r1][c1] == g[row as int][col as int]);
                                }
                                return false;
                            }
                            present[val - 1] = true;
                        } else {
                            assert(u[3 * r + c] is Open);
                        }
                    }
                }
            }
        }

        proof {
            lemma_units_distinct_valid(g);
        }
        true
    }

    /// Whether every cell is fixed.
    pub fn is_complete(&self) -> (done: bool)
        ensures
            done == complete(self@),
            !done ==> exists|r: int, c: int| in_grid(r, c) && (#[trigger] self@[r][c]) is Open,
    {
        for row in 0..SUDOKU_SIZE
            invariant
                forall|r: int, c: int|
                    0 <= r < row && 0 <= c < 9 ==> (#[trigger] self@[r][c]) is Fixed,
        {
            for col in 0..SUDOKU_SIZE
                invariant
                    row < 9,
                    forall|r: int, c: int|
                        0 <= r < row && 0 <= c < 9 ==> (#[trigger] self@[r][c]) is Fixed,
                    forall|c: int| 0 <= c < col ==> (#[trigger] self@[row as int][c]) is Fixed,
            {
                if let Tile::Uncollapsed(_) = self.board[row][col] {
                    assert(self@[row as int][col as int] is Open);
                    return false;
                }
            }
        }
        true
    }
}

impl SudokuBoard {
    /// Whether `val` may be placed at (`row`, `col`): no cell of that row, that
    /// column or that subgrid is fixed to `val`.
    pub fn is_valid_assignment(&self, val: usize, row: usize, col: usize) -> (ok: bool)
        requires
            row < SUDOKU_SIZE,
            col < SUDOKU_SIZE,
        ensures
            ok == free_at(self@, val as int, row as int, col as int),
    {
        let ghost g = self@;
        let ghost v = val as int;
        // Row
        for c in 0..SUDOKU_SIZE
            invariant
                g == self@,
                v == val as int,
                row < 9,
                absent_upto(g[row as int], c as int, v),
        {
            if let Tile::Collapsed(tile) = self.board[row][c] {
                if tile == val {
                    assert(g[row as int][c as int] == Cell::Fixed(v));
                    assert(same_unit(row as int, col as int, row as int, c as int));
                    return false;
                }
            }
            assert(g[row as int][c as int] != Cell::Fixed(v));
        }

        // Col
        for r in 0..SUDOKU_SIZE
            invariant
                g == self@,
                v == val as int,
                row < 9,
                col < 9,
                absent_upto(g[row as int], 9, v),
                absent_upto(column_of(g, col as int), r as int, v),
        {
            if let Tile::Collapsed(tile) = self.board[r][col] {
                if tile == val {
                    assert(g[r as int][col as int] == Cell::Fixed(v));
                    assert(same_unit(row as int, col as int, r as int, col as int));
                    return false;
                }
            }
            assert(column_of(g, col as int)[r as int] != Cell::Fixed(v));
        }

        // 3x3 subgrid
        let sr = row / SUDOKU_BASE;
        let sc = col / SUDOKU_BASE;
        let ghost u = box_of(g, sr as int, sc as int);
        for r in 0..SUDOKU_BASE
            invariant
                g == self@,
                v == val as int,
                row < 9,
                col < 9,
                sr == row / 3,
                sc == col / 3,
                u == box_of(g, sr as int, sc as int),
                absent_upto(g[row as int], 9, v),
                absent_upto(column_of(g, col as int), 9, v),
                absent_upto(u, 3 * r, v),
        {
            for c in 0..SUDOKU_BASE
                invariant
                    g == self@,
                    v == val as int,
                    row < 9,
                    col < 9,
                    r < 3,
                    sr == row / 3,
                    sc == col / 3,
                    u == box_of(g, sr as int, sc as int),
                    absent_upto(u, 3 * r + c, v),
            {
                let cur_row = sr * SUDOKU_BASE + r;
                let cur_col = sc * SUDOKU_BASE + c;
                assert(u[3 * r + c] == g[cur_row as int][cur_col as int]);
                if let Tile::Collapsed(tile) = self.board[cur_row][cur_col] {
                    if tile == val {
                        assert(g[cur_row as int][cur_col as int] == Cell::Fixed(v));
                        assert(same_unit(row as int, col as int, cur_row as int, cur_col as int));
                        return false;
                    }
                }
                assert(u[3 * r + c] != Cell::Fixed(v));
            }
        }

        assert forall|i: int, j: int|
            in_grid(i, j) && same_unit(row as int, col as int, i, j) implies #[trigger] g[i][j]
            != Cell::Fixed(v) by {
            if i == row {
                assert(g[row as int][j] != Cell::Fixed(v));
            } else if j == col {
                assert(column_of(g, col as int)[i] == g[i][j]);
            } else {
                let k = 3 * (i % 3) + j % 3;
                assert(u[k] == g[i][j]);
            }
        }
        true
    }
}

impl SudokuBoard {
    /// The open cell to branch on: the one with the fewest candidates, and of
    /// those with as few the last, row by row.
    pub fn get_lowest_entropy(&self) -> (cell: (usize, usize))
        requires
            self.wf(),
            !complete(self@),
        ensures
            is_mrv(self@, cell.0 as int, cell.1 as int),
    {
        let ghost g = self@;
        let mut lowest_entropy = SUDOKU_SIZE + 1;
        let mut lowest_index = (usize::MAX, usize::MAX);
        for row in 0..SUDOKU_SIZE
            invariant
                g == self@,
                grid_wf(g),
                lowest_entropy <= 10,
                lowest_entropy < 10 ==> is_mrv_upto(
                    g,
                    lowest_index.0 as int,
                    lowest_index.1 as int,
                    9 * row,
                ) && lowest_entropy == candidate_count(
                    g[lowest_index.0 as int][lowest_index.1 as int],
                ),
                lowest_entropy == 10 ==> forall|i: int, j: int|
                    in_grid(i, j) && 9 * i + j < 9 * row ==> (#[trigger] g[i][j]) is Fixed,
        {
            for col in 0..SUDOKU_SIZE
                invariant
                    row < 9,
                    g == self@,
                    grid_wf(g),
                    lowest_entropy <= 10,
                    lowest_entropy < 10 ==> is_mrv_upto(
                        g,
                        lowest_index.0 as int,
                        lowest_index.1 as int,
                        9 * row + col,
                    ) && lowest_entropy == candidate_count(
                        g[lowest_index.0 as int][lowest_index.1 as int],
                    ),
                    lowest_entropy == 10 ==> forall|i: int, j: int|
                        in_grid(i, j) && 9 * i + j < 9 * row + col ==> (
                        #[trigger] g[i][j]) is Fixed,
            {
                assert(forall|i: int, j: int|
                    in_grid(i, j) && 9 * i + j < 9 * row + col + 1 ==> 9 * i + j < 9 * row + col
                        || (i == row && j == col));
                if let Tile::Uncollapsed(domain) = &self.board[row][col] {
                    let cur_entropy = domain.get_valid().len();
                    assert(cur_entropy == candidate_count(g[row as int][col as int]));
                    if cur_entropy <= lowest_entropy {
                        lowest_entropy = cur_entropy;
                        lowest_index = (row, col);
                    }
                } else {
                    assert(g[row as int][col as int] is Fixed);
                }
            }
        }
        lowest_index
    }

    /// Removes the value of every fixed cell from the candidates of its peers.
    pub fn propagate_uncollapsed(&mut self)
        requires
            old(self).wf(),
        ensures
            final(self).wf(),
            final(self)@ == seeded(old(self)@),
            domains_cover(old(self)@) ==> domains_cover(final(self)@),
    {
        let ghost g = self@;
        proof {
            lemma_seeded_start(g);
            if domains_cover(g) {
                lemma_seeded_covers(g);
            }
        }
        for row in 0..SUDOKU_SIZE
            invariant
                grid_wf(g),
                self.wf(),
                self@ == seeded_upto(g, 9 * row),
        {
            for col in 0..SUDOKU_SIZE
                invariant
                    row < 9,
                    grid_wf(g),
                    self.wf(),
                    self@ == seeded_upto(g, 9 * row + col),
            {
                proof {
                    lemma_seeded_step(g, row as int, col as int);
                }
                if let Tile::Collapsed(_) = &self.board[row][col] {
                    self.propagate_collapse(row, col);
                }
            }
        }
    }

    /// Removes the value of the fixed cell (`row`, `col`) from the candidates
    /// of its peers, and lists the peers that lost it: those of the column
    /// first, then those of the row, then the rest of the subgrid.
    pub fn propagate_collapse(&mut self, row: usize, col: usize) -> (modified: Vec<(usize, usize)>)
        requires
            old(self).wf(),
            row < SUDOKU_SIZE,
            col < SUDOKU_SIZE,
            old(self)@[row as int][col as int] is Fixed,
        ensures
            final(self).wf(),
            final(self)@ == propagated(old(self)@, row as int, col as int),
            positions(modified@) == touched(old(self)@, row as int, col as int),
            domains_cover(old(self)@) ==> domains_cover(final(self)@),
    {
        let mut modified: Vec<(usize, usize)> = Vec::new();
        let val = match self.board[row][col] {
            Tile::Collapsed(val) => val,
            Tile::Uncollapsed(_) => unreached(),
        };
        let ghost g = self@;
        let ghost v = val as int;
        let ghost hit = candidate_at(g, v);
        let ghost off = candidate_off_cross(g, v, row as int, col as int);
        let ghost in_column = column_cells(col as int);
        let ghost in_row = row_cells(row as int);
        let ghost in_box = box_cells(row as int, col as int);
        proof {
            lemma_filter_none(in_column, hit);
            lemma_struck_push(g, v, Seq::empty(), 0, 0);
            assert(in_column.take(0) =~= Seq::empty());
            assert(positions(modified@) =~= in_column.take(0).filter(hit));
        }

        // Update column
        for r in 0..SUDOKU_SIZE
            invariant
                row < 9,
                col < 9,
                1 <= val <= 9,
                v == val as int,
                grid_wf(g),
                self.wf(),
                g[row as int][col as int] == Cell::Fixed(v),
                hit == candidate_at(g, v),
                in_column == column_cells(col as int),
                self@ == struck(g, v, in_column.take(r as int)),
                positions(modified@) == in_column.take(r as int).filter(hit),
        {
            let ghost listed = modified@;
            let ghost before = *self;
            if r != row {
                if let Tile::Uncollapsed(domain) = &mut self.board[r][col] {
                    if domain.mark_invalid(val) {
                        modified.push((r, col));
                    }
                }
            }
            proof {
                lemma_filter_next(in_column, hit, r as int);
                in_column.lemma_take_succ_push(r as int);
                lemma_struck_push(g, v, in_column.take(r as int), r as int, col as int);
                lemma_tile_changed(before, *self, r as int, col as int);
                assert(self.board@[r as int]@[col as int]@ == without(
                    before@[r as int][col as int],
                    v,
                ));
                assert(positions(modified@) =~= if hit(in_column[r as int]) {
                    positions(listed).push((r as int, col as int))
                } else {
                    positions(listed)
                });
            }
        }

        proof {
            in_column.lemma_take_len();
            lemma_filter_none(in_row, hit);
            assert(in_column + in_row.take(0) =~= in_column);
            assert(positions(modified@) =~= in_column.filter(hit) + in_row.take(0).filter(hit));
        }
        // Update row
        for c in 0..SUDOKU_SIZE
            invariant
                row < 9,
                col < 9,
                1 <= val <= 9,
                v == val as int,
                grid_wf(g),
                self.wf(),
                g[row as int][col as int] == Cell::Fixed(v),
                hit == candidate_at(g, v),
                in_column == column_cells(col as int),
                in_row == row_cells(row as int),
                self@ == struck(g, v, in_column + in_row.take(c as int)),
                positions(modified@) == in_column.filter(hit) + in_row.take(c as int).filter(hit),
        {
            let ghost listed = modified@;
            let ghost before = *self;
            if c != col {
                if let Tile::Uncollapsed(domain) = &mut self.board[row][c] {
                    if domain.mark_invalid(val) {
                        modified.push((row, c));
                    }
                }
            }
            proof {
                let done = in_column + in_row.take(c as int);
                lemma_filter_next(in_row, hit, c as int);
                in_row.lemma_take_succ_push(c as int);
                assert(in_column + in_row.take(c + 1) =~= done.push((row as int, c as int)));
                lemma_struck_push(g, v, done, row as int, c as int);
                lemma_tile_changed(before, *self, row as int, c as int);
                assert(done.contains((row as int, col as int))) by {
                    assert(in_column[row as int] == (row as int, col as int));
                    assert(done[row as int] == (row as int, col as int));
                }
                assert(self.board@[row as int]@[c as int]@ == without(
                    before@[row as int][c as int],
                    v,
                ));
                assert(positions(modified@) =~= if hit(in_row[c as int]) {
                    positions(listed).push((row as int, c as int))
                } else {
                    positions(listed)
                });
                assert(positions(modified@) =~= in_column.filter(hit) + in_row.take(
                    c + 1,
                ).filter(hit));
            }
        }

        proof {
            in_row.lemma_take_len();
            lemma_filter_none(in_box, off);
            assert(in_column + in_row + in_box.take(0) =~= in_column + in_row);
            assert(positions(modified@) =~= in_column.filter(hit) + in_row.filter(hit)
                + in_box.take(0).filter(off));
        }
        // Update subgrid
        let subgrid_row = row / SUDOKU_BASE;
        let subgrid_col = col / SUDOKU_BASE;
        for r in 0..SUDOKU_BASE
            invariant
                row < 9,
                col < 9,
                1 <= val <= 9,
                v == val as int,
                subgrid_row == row / 3,
                subgrid_col == col / 3,
                grid_wf(g),
                self.wf(),
                g[row as int][col as int] == Cell::Fixed(v),
                hit == candidate_at(g, v),
                off == candidate_off_cross(g, v, row as int, col as int),
                in_column == column_cells(col as int),
                in_row == row_cells(row as int),
                in_box == box_cells(row as int, col as int),
                self@ == struck(g, v, in_column + in_row + in_box.take(3 * r)),
                positions(modified@) == in_column.filter(hit) + in_row.filter(hit) + in_box.take(
                    3 * r,
                ).filter(off),
        {
            for c in 0..SUDOKU_BASE
                invariant
                    r < 3,
                    row < 9,
                    col < 9,
                    1 <= val <= 9,
                    v == val as int,
                    subgrid_row == row / 3,
                    subgrid_col == col / 3,
                    grid_wf(g),
                    self.wf(),
                    g[row as int][col as int] == Cell::Fixed(v),
                    hit == candidate_at(g, v),
                    off == candidate_off_cross(g, v, row as int, col as int),
                    in_column == column_cells(col as int),
                    in_row == row_cells(row as int),
                    in_box == box_cells(row as int, col as int),
                    self@ == struck(g, v, in_column + in_row + in_box.take(3 * r + c)),
                    positions(modified@) == in_column.filter(hit) + in_row.filter(hit)
                        + in_box.take(3 * r + c).filter(off),
            {
                let s_row = subgrid_row * SUDOKU_BASE + r;
                let s_col = subgrid_col * SUDOKU_BASE + c;
                let ghost listed = modified@;
                let ghost before = *self;
                if !(s_row == row || s_col == col) {
                    if let Tile::Uncollapsed(domain) = &mut self.board[s_row][s_col] {
                        if domain.mark_invalid(val) {
                            modified.push((s_row, s_col));
                        }
                    }
                }
                proof {
                    let n = 3 * r + c;
                    let p = (s_row as int, s_col as int);
                    let done = in_column + in_row + in_box.take(n);
                    assert(in_box[n] == p);
                    lemma_filter_next(in_box, off, n);
                    in_box.lemma_take_succ_push(n);
                    assert(in_column + in_row + in_box.take(n + 1) =~= done.push(p));
                    lemma_struck_push(g, v, done, p.0, p.1);
                    lemma_tile_changed(before, *self, p.0, p.1);
                    if s_col == col {
                        assert(in_column[p.0] == p);
                        assert(done[p.0] == p);
                    } else if s_row == row {
                        assert(in_row[p.1] == p);
                        assert(done[9 + p.1] == p);
                    }
                    assert(self.board@[p.0]@[p.1]@ == without(before@[p.0][p.1], v)) by {
                        if s_row == row || s_col == col {
                            assert(done.contains(p));
                            if g[p.0][p.1] is Open {
                                let d = g[p.0][p.1]->Open_0;
                                assert(d.remove(v).remove(v) =~= d.remove(v));
                            }
                        }
                    }
                    assert(positions(modified@) =~= if off(in_box[n]) {
                        positions(listed).push(p)
                    } else {
                        positions(listed)
                    });
                    assert(positions(modified@) =~= in_column.filter(hit) + in_row.filter(hit)
                        + in_box.take(n + 1).filter(off));
                }
            }
        }

        proof {
            in_box.lemma_take_len();
            lemma_struck_units(g, row as int, col as int);
            if domains_cover(g) {
                lemma_propagated_covers(g, row as int, col as int);
            }
        }
        modified
    }

    /// Makes `val` a candidate again in each of the listed cells. A listed
    /// cell that is fixed is opened, with every value as a candidate.
    pub fn restore_domain(&mut self, val: usize, collapsed: Vec<(usize, usize)>)
        requires
            old(self).wf(),
            1 <= val <= SUDOKU_SIZE,
            all_in_grid(positions(collapsed@)),
        ensures
            final(self).wf(),
            final(self)@ == restored(old(self)@, val as int, positions(collapsed@)),
    {
        let ghost g = self@;
        let ghost v = val as int;
        let ghost cells = positions(collapsed@);
        proof {
            lemma_restored_push(g, v, Seq::empty(), 0, 0);
            assert(cells.take(0) =~= Seq::empty());
        }
        for k in 0..collapsed.len()
            invariant
                1 <= val <= 9,
                v == val as int,
                grid_wf(g),
                self.wf(),
                cells == positions(collapsed@),
                all_in_grid(cells),
                self@ == restored(g, v, cells.take(k as int)),
        {
            let (row, col) = collapsed[k];
            assert(cells[k as int] == (row as int, col as int));
            let ghost before = *self;
            if let Tile::Uncollapsed(domain) = &mut self.board[row][col] {
                domain.mark_valid(val);
            } else {
                self.board[row][col] = Tile::Uncollapsed(Domain::from_value(val));
            }
            proof {
                cells.lemma_take_succ_push(k as int);
                lemma_restored_push(g, v, cells.take(k as int), row as int, col as int);
                lemma_tile_changed(before, *self, row as int, col as int);
                assert(self.board@[row as int]@[col as int]@ == revived(
                    before@[row as int][col as int],
                    v,
                ));
            }
        }
        assert(cells.take(collapsed.len() as int) =~= cells);
    }
}

impl SudokuBoard {
    /// Searches for a solution by trying every value, in ascending order, in
    /// the first open cell, and so on from there. Each call, this one and
    /// those it makes, adds one to `steps`, which wraps around.
    ///
    /// It succeeds exactly when the board has a solution, and then ends on
    /// one. When it fails, the fixed cells are as before; an open cell has its
    /// candidates as before, or all of them.
    pub fn solve_brute_force(&mut self, steps: &mut u32) -> (found: bool)
        requires
            old(self).wf(),
        ensures
            final(self).wf(),
            found == solvable(old(self)@),
            found ==> complete(final(self)@) && fills(old(self)@, final(self)@),
            found ==> forall|t: Grid|
                #[trigger] fills(old(self)@, t) ==> comes_first(final(self)@, t),
            found && valid(old(self)@) ==> valid(final(self)@),
            !found ==> relaxed(old(self)@, final(self)@),
            domains_cover(old(self)@) ==> domains_cover(final(self)@),
            found == bf_search(old(self)@).found,
            final(self)@ == bf_search(old(self)@).grid,
            *final(steps) == wrapped(*old(steps) + bf_search(old(self)@).steps),
    {
        let idle = |_board: &SudokuBoard| {};
        self.solve_brute_force_watched(steps, &idle)
    }

    /// As [`Self::solve_brute_force`], and shows the board to `watch` at the
    /// start of each step.
    pub fn solve_brute_force_watched<F: Fn(&SudokuBoard)>(
        &mut self,
        steps: &mut u32,
        watch: &F,
    ) -> (found: bool)
        requires
            old(self).wf(),
            forall|board: &SudokuBoard| board.wf() ==> call_requires(*watch, (board,)),
        ensures
            final(self).wf(),
            found == solvable(old(self)@),
            found ==> complete(final(self)@) && fills(old(self)@, final(self)@),
            found ==> forall|t: Grid|
                #[trigger] fills(old(self)@, t) ==> comes_first(final(self)@, t),
            found && valid(old(self)@) ==> valid(final(self)@),
            !found ==> relaxed(old(self)@, final(self)@),
            domains_cover(old(self)@) ==> domains_cover(final(self)@),
            found == bf_search(old(self)@).found,
            final(self)@ == bf_search(old(self)@).grid,
            *final(steps) == wrapped(*old(steps) + bf_search(old(self)@).steps),
        decreases open_count(old(self)@),
    {
        let ghost g = self@;
        let ghost start = *steps as int;
        proof {
            lemma_bf_outcome(g);
            lemma_wrapped_add(start, 1);
        }
        watch(&*self);
        *steps = steps.wrapping_add(1);
        if self.is_complete() {
            return true;
        }
        for row in 0..SUDOKU_SIZE
            invariant
                self@ == g,
                grid_wf(g),
                !complete(g),
                *steps == wrapped(start + 1),
                0 <= start <= u32::MAX,
                forall|board: &SudokuBoard| board.wf() ==> call_requires(*watch, (board,)),
                g == old(self)@,
                start == *old(steps),
                forall|i: int, j: int|
                    in_grid(i, j) && 9 * i + j < 9 * row ==> (#[trigger] g[i][j]) is Fixed,
        {
            for col in 0..SUDOKU_SIZE
                invariant
                    row < 9,
                    self@ == g,
                    grid_wf(g),
                    !complete(g),
                    *steps == wrapped(start + 1),
                    0 <= start <= u32::MAX,
                    forall|board: &SudokuBoard| board.wf() ==> call_requires(*watch, (board,)),
                    g == old(self)@,
                    start == *old(steps),
                    forall|i: int, j: int|
                        in_grid(i, j) && 9 * i + j < 9 * row + col ==> (
                        #[trigger] g[i][j]) is Fixed,
            {
                assert(forall|i: int, j: int|
                    in_grid(i, j) && 9 * i + j < 9 * row + col + 1 ==> 9 * i + j < 9 * row + col
                        || (i == row && j == col));
                if let Tile::Uncollapsed(_) = self.board[row][col] {
                    proof {
                        assert(g[row as int][col as int] is Open);
                        lemma_first_open_unique(g, row as int, col as int);
                    }
                    let ghost whole = bf_try(g, row as int, col as int, 1);
                    let ghost spent: nat = 0;
                    let mut s: usize = 1;
                    while s <= SUDOKU_SIZE
                        invariant
                            row < 9,
                            col < 9,
                            1 <= s <= 10,
                            self.wf(),
                            grid_wf(g),
                            self@[row as int][col as int] is Open,
                            open_count(self@) == open_count(g),
                            0 <= start <= u32::MAX,
                            forall|board: &SudokuBoard| board.wf() ==> call_requires(*watch, (board,)),
                            g == old(self)@,
                            start == *old(steps),
                            *steps == wrapped(start + 1 + spent),
                            whole.found == bf_try(self@, row as int, col as int, s as int).found,
                            whole.grid == bf_try(self@, row as int, col as int, s as int).grid,
                            whole.steps == spent + bf_try(
                                self@,
                                row as int,
                                col as int,
                                s as int,
                            ).steps,
                            bf_search(g) == (Outcome {
                                found: whole.found,
                                steps: 1 + whole.steps,
                                grid: whole.grid,
                            }),
                        decreases 10 - s,
                    {
                        let ghost cur = self@;
                        let ghost before = *self;
                        proof {
                            lemma_bf_round(cur, row as int, col as int, s as int);
                        }
                        if self.is_valid_assignment(s, row, col) {
                            self.board[row][col] = Tile::Collapsed(s);
                            proof {
                                lemma_tile_changed(before, *self, row as int, col as int);
                            }
                            let ghost sub = bf_search(self@);
                            if self.solve_brute_force_watched(steps, watch) {
                                proof {
                                    lemma_wrapped_add(start + 1 + spent, sub.steps as int);
                                    lemma_bf_outcome(g);
                                }
                                return true;
                            }
                            proof {
                                lemma_wrapped_add(start + 1 + spent, sub.steps as int);
                                spent = spent + sub.steps;
                            }
                        }
                        let ghost mid = *self;
                        self.board[row][col] = Tile::default();
                        proof {
                            lemma_tile_changed(mid, *self, row as int, col as int);
                        }
                        s += 1;
                    }
                    proof {
                        lemma_bf_outcome(g);
                    }
                    return false;
                }
            }
        }

        proof {
            assert(forall|i: int, j: int| in_grid(i, j) ==> 9 * i + j < 81);
        }
        false
    }

    /// Searches for a solution by branching on the open cell with the
    /// fewest candidates: each candidate that may be placed is fixed and
    /// removed from the candidates of the peers, and the search goes on from
    /// there; when that fails, both are undone. Each call, this one and those
    /// it makes, adds one to `steps`, which wraps around.
    ///
    /// It succeeds exactly when the board has a solution within its
    /// candidates, and then ends on one. When it fails, the board is as it
    /// was.
    pub fn solve_csp(&mut self, steps: &mut u32) -> (found: bool)
        requires
            old(self).wf(),
        ensures
            final(self).wf(),
            found == solvable_within(old(self)@),
            domains_cover(old(self)@) ==> found == solvable(old(self)@),
            found ==> complete(final(self)@) && fills(old(self)@, final(self)@) && within(
                old(self)@,
                final(self)@,
            ),
            found && valid(old(self)@) ==> valid(final(self)@),
            !found ==> final(self)@ == old(self)@,
            domains_cover(old(self)@) ==> domains_cover(final(self)@),
            found == csp_search(old(self)@).found,
            final(self)@ == csp_search(old(self)@).grid,
            *final(steps) == wrapped(*old(steps) + csp_search(old(self)@).steps),
    {
        let idle = |_board: &SudokuBoard| {};
        self.solve_csp_watched(steps, &idle)
    }

    /// As [`Self::solve_csp`], and shows the board to `watch` at the start of
    /// each step.
    pub fn solve_csp_watched<F: Fn(&SudokuBoard)>(
        &mut self,
        steps: &mut u32,
        watch: &F,
    ) -> (found: bool)
        requires
            old(self).wf(),
            forall|board: &SudokuBoard| board.wf() ==> call_requires(*watch, (board,)),
        ensures
            final(self).wf(),
            found == solvable_within(old(self)@),
            domains_cover(old(self)@) ==> found == solvable(old(self)@),
            found ==> complete(final(self)@) && fills(old(self)@, final(self)@) && within(
                old(self)@,
                final(self)@,
            ),
            found && valid(old(self)@) ==> valid(final(self)@),
            !found ==> final(self)@ == old(self)@,
            domains_cover(old(self)@) ==> domains_cover(final(self)@),
            found == csp_search(old(self)@).found,
            final(self)@ == csp_search(old(self)@).grid,
            *final(steps) == wrapped(*old(steps) + csp_search(old(self)@).steps),
        decreases open_count(old(self)@),
    {
        let ghost g = self@;
        let ghost start = *steps as int;
        proof {
            lemma_csp_outcome(g);
            lemma_wrapped_add(start, 1);
        }
        watch(&*self);
        *steps = steps.wrapping_add(1);

        if self.is_complete() {
            return true;
        }

        let (row, col) = self.get_lowest_entropy();
        proof {
            lemma_mrv_unique(g, row as int, col as int);
        }

        let valid = match self.board[row][col] {
            Tile::Collapsed(_) => unreached(),
            Tile::Uncollapsed(domain) => domain.get_valid(),
        };
        let ghost whole = csp_try(g, row as int, col as int, 1);
        let ghost spent: nat = 0;
        proof {
            lemma_candidates_gap(g[row as int][col as int]->Open_0, valid@, 0);
            lemma_csp_try_skip(g, row as int, col as int, 1, next_candidate(valid@, 0));
        }

        for i in 0..valid.len()
            invariant
                row < 9,
                col < 9,
                self@ == g,
                grid_wf(g),
                g[row as int][col as int] is Open,
                lists_candidates(valid@, g[row as int][col as int]->Open_0),
                0 <= start <= u32::MAX,
                forall|board: &SudokuBoard| board.wf() ==> call_requires(*watch, (board,)),
                g == old(self)@,
                start == *old(steps),
                *steps == wrapped(start + 1 + spent),
                whole.found == csp_try(
                    g,
                    row as int,
                    col as int,
                    next_candidate(valid@, i as int),
                ).found,
                whole.grid == csp_try(
                    g,
                    row as int,
                    col as int,
                    next_candidate(valid@, i as int),
                ).grid,
                whole.steps == spent + csp_try(
                    g,
                    row as int,
                    col as int,
                    next_candidate(valid@, i as int),
                ).steps,
                csp_search(g) == (Outcome {
                    found: whole.found,
                    steps: 1 + whole.steps,
                    grid: whole.grid,
                }),
        {
            let val = valid[i];
            proof {
                assert(cell_has(g[row as int][col as int], val as int));
                lemma_candidates_gap(g[row as int][col as int]->Open_0, valid@, i + 1);
                lemma_csp_round(
                    g,
                    row as int,
                    col as int,
                    val as int,
                    next_candidate(valid@, i + 1),
                );
            }
            if self.is_valid_assignment(val, row, col) {
                let saved_domain = if let Tile::Uncollapsed(domain) = &self.board[row][col] {
                    domain.clone()
                } else {
                    unreached()
                };

                let ghost before = *self;
                self.board[row][col] = Tile::Collapsed(val);
                proof {
                    lemma_tile_changed(before, *self, row as int, col as int);
                }
                let collapsed_states = self.propagate_collapse(row, col);
                let ghost sub = csp_search(self@);
                if self.solve_csp_watched(steps, watch) {
                    proof {
                        lemma_wrapped_add(start + 1 + spent, sub.steps as int);
                        lemma_csp_outcome(g);
                    }
                    return true;
                }
                proof {
                    lemma_wrapped_add(start + 1 + spent, sub.steps as int);
                    spent = spent + sub.steps;
                }
                self.restore_domain(val, collapsed_states);
                let ghost mid = *self;
                self.board[row][col] = Tile::Uncollapsed(saved_domain);
                proof {
                    lemma_tile_changed(mid, *self, row as int, col as int);
                }
            }
        }

        proof {
            lemma_csp_outcome(g);
        }
        false
    }
}

/// What the exhaustive search comes to, in the terms of the board's callers.
proof fn lemma_bf_outcome(g: Grid)
    requires
        grid_wf(g),
    ensures
        bf_search_ok(g),
        bf_search(g).found ==> complete(bf_search(g).grid),
        bf_search(g).found && valid(g) ==> valid(bf_search(g).grid),
        domains_cover(g) ==> domains_cover(bf_search(g).grid),
{
    lemma_bf_search(g);
    if bf_search(g).found {
        lemma_open_covers(bf_search(g).grid);
        if valid(g) {
            lemma_fills_valid(g, bf_search(g).grid);
        }
    } else if domains_cover(g) {
        lemma_relaxed_covers(g, bf_search(g).grid);
    }
}

/// What the search with forward checking comes to, in the terms of the
/// board's callers.
proof fn lemma_csp_outcome(g: Grid)
    requires
        grid_wf(g),
    ensures
        csp_search(g).steps >= 1,
        grid_wf(csp_search(g).grid),
        csp_search(g).found == solvable_within(g),
        domains_cover(g) ==> csp_search(g).found == solvable(g),
        csp_search(g).found ==> fills(g, csp_search(g).grid) && within(g, csp_search(g).grid),
        csp_search(g).found ==> complete(csp_search(g).grid),
        csp_search(g).found && valid(g) ==> valid(csp_search(g).grid),
        !csp_search(g).found ==> csp_search(g).grid == g,
        domains_cover(g) ==> domains_cover(csp_search(g).grid),
{
    lemma_csp_search(g);
    if csp_search(g).found {
        lemma_open_covers(csp_search(g).grid);
        if valid(g) {
            lemma_fills_valid(g, csp_search(g).grid);
        }
    }
    if domains_cover(g) && solvable(g) {
        let s = choose|s: Grid| fills(g, s);
        lemma_cover_within(g, s);
    }
}

/// A board that differs from another in one tile only has that grid with
/// one cell replaced.
proof fn lemma_tile_changed(before: SudokuBoard, after: SudokuBoard, row: int, col: int)
    requires
        in_grid(row, col),
        forall|i: int| 0 <= i < 9 && i != row ==> after.board@[i] == before.board@[i],
        forall|j: int| 0 <= j < 9 && j != col ==> after.board@[row]@[j] == before.board@[row]@[j],
    ensures
        after@ == put(before@, row, col, after.board@[row]@[col]@),
{
    assert(after@ =~~= put(before@, row, col, after.board@[row]@[col]@));
}

} // verus!
