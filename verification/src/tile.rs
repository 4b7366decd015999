//! A cell of the board and the candidate values it may still take.

use crate::board::SUDOKU_SIZE;
use vstd::prelude::*;

verus! {

/// The values a cell can hold: 1 to 9.
pub open spec fn all_values() -> Set<int> {
    Set::new(|v: int| 1 <= v <= 9)
}

/// The values from 1 to `n` that are members of `s`.
pub open spec fn members_upto(s: Set<int>, n: int) -> Set<int> {
    Set::new(|v: int| 1 <= v <= n && s.contains(v))
}

/// The members up to `n` are finitely many, at most `n`; going from `n - 1`
/// to `n` adds `n` if it is a member, and nothing else.
pub proof fn lemma_members_upto(s: Set<int>, n: int)
    requires
        0 <= n,
    ensures
        members_upto(s, n).finite(),
        members_upto(s, n).len() <= n,
        n > 0 ==> members_upto(s, n) =~= (if s.contains(n) {
            members_upto(s, n - 1).insert(n)
        } else {
            members_upto(s, n - 1)
        }),
        n > 0 ==> members_upto(s, n).len() == members_upto(s, n - 1).len() + (if s.contains(n) {
            1int
        } else {
            0int
        }),
    decreases n,
{
    if n == 0 {
        assert(members_upto(s, n) =~= Set::empty());
    } else {
        lemma_members_upto(s, n - 1);
        let prev = members_upto(s, n - 1);
        assert(!prev.contains(n));
        if s.contains(n) {
            assert(members_upto(s, n) =~= prev.insert(n));
        } else {
            assert(members_upto(s, n) =~= prev);
        }
    }
}

/// A set of cell values is finite, with at most 9 members.
pub proof fn lemma_values_finite(s: Set<int>)
    requires
        s.subset_of(all_values()),
    ensures
        s.finite(),
        s.len() <= 9,
        s =~= members_upto(s, 9),
{
    lemma_members_upto(s, 9);
    assert(s =~= members_upto(s, 9));
}

/// `valid` lists the members of `d`, which are cell values, in ascending
/// order.
pub open spec fn lists_candidates(valid: Seq<usize>, d: Set<int>) -> bool {
    &&& forall|i: int, j: int| 0 <= i < j < valid.len() ==> valid[i] < valid[j]
    &&& forall|v: int| d.contains(v) <==> exists|i: int| 0 <= i < valid.len() && valid[i] == v
    &&& d.subset_of(all_values())
}

/// The candidate values of one cell: entry `v - 1` of `state` says whether `v`
/// is still a candidate.
#[derive(Clone, Copy)]
pub struct Domain {
    pub state: [bool; SUDOKU_SIZE],
}

impl View for Domain {
    type V = Set<int>;

    /// The set of candidates.
    open spec fn view(&self) -> Set<int> {
        Set::new(|v: int| 1 <= v <= 9 && self.state@[v - 1])
    }
}

impl Default for Domain {
    /// The unconstrained domain: every value is a candidate.
    fn default() -> (domain: Self)
        ensures
            domain@ == all_values(),
    {
        let domain = Self { state: [true; SUDOKU_SIZE] };
        assert(domain@ =~= all_values());
        domain
    }
}

impl Domain {
    /// A domain that is sure to hold `val`. It starts from the unconstrained
    /// domain and excludes nothing, so every value is a candidate.
    pub fn from_value(val: usize) -> (domain: Self)
        requires
            1 <= val <= SUDOKU_SIZE,
        ensures
            domain@ == all_values(),
            domain@.contains(val as int),
    {
        let mut domain = Self::default();
        domain.state[val - 1] = true;
        assert(domain@ =~= all_values());
        domain
    }

    /// The candidates in ascending order.
    pub fn get_valid(&self) -> (valid: Vec<usize>)
        ensures
            lists_candidates(valid@, self@),
            valid.len() == self@.len(),
            valid.len() <= SUDOKU_SIZE,
    {
        let mut valid: Vec<usize> = Vec::new();
        let mut index: usize = 0;
        proof {
            lemma_members_upto(self@, 0);
        }
        while index < SUDOKU_SIZE
            invariant
                0 <= index <= SUDOKU_SIZE,
                forall|i: int, j: int| 0 <= i < j < valid.len() ==> valid[i] < valid[j],
                forall|i: int| 0 <= i < valid.len() ==> 1 <= #[trigger] valid[i] <= index,
                forall|v: int|
                    members_upto(self@, index as int).contains(v) <==> exists|i: int|
                        0 <= i < valid.len() && valid[i] == v,
                valid.len() == members_upto(self@, index as int).len(),
                valid.len() <= index,
            decreases SUDOKU_SIZE - index,
        {
            proof {
                lemma_members_upto(self@, index + 1);
            }
            let ghost before = valid@;
            if self.state[index] {
                valid.push(index + 1);
                assert(valid[before.len() as int] == index + 1);
                assert forall|v: int| #[trigger]
                    members_upto(self@, index + 1).contains(v) implies exists|i: int|
                    0 <= i < valid.len() && valid[i] == v by {
                    if v != index + 1 {
                        assert(members_upto(self@, index as int).contains(v));
                        let i = choose|i: int| 0 <= i < before.len() && before[i] == v;
                        assert(valid[i] == v);
                    }
                }
            }
            index += 1;
        }
        proof {
            lemma_values_finite(self@);
        }
        valid
    }

    /// Removes `val` from the candidates and says whether it was one.
    pub fn mark_invalid(&mut self, val: usize) -> (changed: bool)
        requires
            1 <= val <= SUDOKU_SIZE,
        ensures
            final(self)@ == old(self)@.remove(val as int),
            changed == old(self)@.contains(val as int),
    {
        if !self.state[val - 1] {
            assert(self@ =~= old(self)@.remove(val as int));
            return false;
        }
        self.state[val - 1] = false;
        assert(self@ =~= old(self)@.remove(val as int));
        true
    }

    /// Makes `val` a candidate again.
    pub fn mark_valid(&mut self, val: usize)
        requires
            1 <= val <= SUDOKU_SIZE,
        ensures
            final(self)@ == old(self)@.insert(val as int),
    {
        self.state[val - 1] = true;
        assert(self@ =~= old(self)@.insert(val as int));
    }
}

/// The candidate at index `i`, or 10 past the last one.
pub open spec fn next_candidate(valid: Seq<usize>, i: int) -> int {
    if i < valid.len() {
        valid[i] as int
    } else {
        10
    }
}

/// Between one listed candidate and the next there is no candidate.
pub proof fn lemma_candidates_gap(d: Set<int>, valid: Seq<usize>, i: int)
    requires
        lists_candidates(valid, d),
        0 <= i <= valid.len(),
    ensures
        1 <= next_candidate(valid, i) <= 10,
        i > 0 ==> valid[i - 1] + 1 <= next_candidate(valid, i),
        forall|u: int|
            (if i > 0 {
                valid[i - 1] + 1
            } else {
                1
            }) <= u < next_candidate(valid, i) ==> !d.contains(u),
{
    if i < valid.len() {
        assert(d.contains(valid[i] as int));
    }
    if i > 0 {
        assert(d.contains(valid[i - 1] as int));
        if i < valid.len() {
            assert(valid[i - 1] < valid[i]);
        }
    }
    assert forall|u: int|
        (if i > 0 {
            valid[i - 1] + 1
        } else {
            1
        }) <= u < next_candidate(valid, i) implies !d.contains(u) by {
        if d.contains(u) {
            let k = choose|k: int| 0 <= k < valid.len() && valid[k] == u;
            if k < i {
                if k < i - 1 {
                    assert(valid[k] < valid[i - 1]);
                }
            } else if k > i {
                assert(valid[i] < valid[k]);
            }
        }
    }
}

/// The state of one cell: fixed to a value, or open with its candidates.
#[derive(Clone, Copy)]
pub enum Tile {
    /// The cell is fixed to this value, from 1 to 9 on a board.
    Collapsed(usize),
    /// The cell is unresolved and carries its candidates.
    Uncollapsed(Domain),
}

/// The mathematical value of a [`Tile`].
pub enum Cell {
    /// The cell holds this value.
    Fixed(int),
    /// The cell is unresolved and may still take these values.
    Open(Set<int>),
}

impl View for Tile {
    type V = Cell;

    /// The cell that the tile stands for.
    open spec fn view(&self) -> Cell {
        match *self {
            Tile::Collapsed(v) => Cell::Fixed(v as int),
            Tile::Uncollapsed(domain) => Cell::Open(domain@),
        }
    }
}

impl Default for Tile {
    /// An open cell with every value as a candidate.
    fn default() -> (tile: Self)
        ensures
            tile@ == Cell::Open(all_values()),
    {
        Tile::Uncollapsed(Domain::default())
    }
}

} // verus!
