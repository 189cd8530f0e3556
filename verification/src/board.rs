use rand::seq::SliceRandom;
use vstd::prelude::*;

verus! {

broadcast use
    vstd::seq_lib::group_to_multiset_ensures,
    vstd::multiset::group_multiset_axioms,
    vstd::multiset::group_multiset_properties;

/// Number of columns on a board.
pub const BOARD_WIDTH: usize = 60;

/// Number of rows on a board.
pub const BOARD_HEIGHT: usize = 60;

/// Total number of cells on a board.
pub const BOARD_CELLS: usize = 60 * 60;

/// One marble: steel conducts, glass insulates.
#[derive(PartialEq, Eq, Structural, Clone, Copy, Debug)]
pub enum Marble {
    Steel,
    Glass,
}

/// True when `(y, x)` indexes a cell of the board: `y` is the row,
/// `x` the column.
pub open spec fn in_bounds(y: int, x: int) -> bool {
    0 <= y < BOARD_HEIGHT as int && 0 <= x < BOARD_WIDTH as int
}

/// A fixed `BOARD_HEIGHT` x `BOARD_WIDTH` board of marbles, stored row-major.
pub struct MarbleBoard {
    marbles: Vec<Marble>,
}

/// Relies on rand's `SliceRandom::shuffle` (seeded from `rand::thread_rng`):
/// it permutes the slice in place, so the length and the multiset of
/// elements are unchanged, whatever permutation the generator picks.
#[verifier::external_body]
fn shuffle_marbles(v: &mut Vec<Marble>)
    ensures
        final(v)@.len() == old(v)@.len(),
        final(v)@.to_multiset() == old(v)@.to_multiset(),
{
    v.shuffle(&mut rand::thread_rng());
}

impl MarbleBoard {
    /// The representation holds exactly one marble per cell.
    pub closed spec fn well_formed(self) -> bool {
        self.marbles@.len() == BOARD_CELLS as int
    }

    /// The marble at row `y`, column `x`.
    pub closed spec fn cell(self, y: int, x: int) -> Marble {
        self.marbles@[y * (BOARD_WIDTH as int) + x]
    }

    /// How many marbles of the board are steel.
    pub closed spec fn steel_count(self) -> nat {
        self.marbles@.to_multiset().count(Marble::Steel)
    }

    /// Read the marble at `(y, x)`.
    pub fn get(&self, y: usize, x: usize) -> (r: Marble)
        requires
            self.well_formed(),
            y < BOARD_HEIGHT,
            x < BOARD_WIDTH,
        ensures
            r == self.cell(y as int, x as int),
    {
        self.marbles[y * BOARD_WIDTH + x]
    }

    /// Replace the marble at `(y, x)`; every other cell keeps its marble.
    pub fn set(&mut self, y: usize, x: usize, m: Marble)
        requires
            old(self).well_formed(),
            y < BOARD_HEIGHT,
            x < BOARD_WIDTH,
        ensures
            final(self).well_formed(),
            final(self).cell(y as int, x as int) == m,
            forall|yy: int, xx: int|
                in_bounds(yy, xx) && !(yy == y as int && xx == x as int)
                    ==> #[trigger] final(self).cell(yy, xx) == old(self).cell(yy, xx),
    {
        let i: usize = y * BOARD_WIDTH + x;
        self.marbles[i] = m;
    }

    /// A board with exactly `num_steels` steel marbles, their positions drawn
    /// uniformly: a line with the steel marbles first is shuffled, then read
    /// row-major. The shuffle keeps the multiset of marbles, so the steel
    /// count is exact for every outcome of the generator.
    pub fn new_shuffled(num_steels: usize) -> (r: Self)
        requires
            num_steels <= BOARD_CELLS,
        ensures
            r.well_formed(),
            r.steel_count() == num_steels,
    {
        let mut linear: Vec<Marble> = Vec::new();
        let mut i: usize = 0;
        while i < BOARD_CELLS
            invariant
                num_steels <= BOARD_CELLS,
                i <= BOARD_CELLS,
                linear@.len() == i as int,
                linear@.to_multiset().count(Marble::Steel) == if i <= num_steels {
                    i as nat
                } else {
                    num_steels as nat
                },
            decreases BOARD_CELLS - i,
        {
            let ghost prev = linear@;
            if i < num_steels {
                linear.push(Marble::Steel);
                proof {
                    assert(linear@.to_multiset() =~= prev.to_multiset().insert(Marble::Steel));
                }
            } else {
                linear.push(Marble::Glass);
                proof {
                    assert(linear@.to_multiset() =~= prev.to_multiset().insert(Marble::Glass));
                }
            }
            i += 1;
        }
        shuffle_marbles(&mut linear);
        MarbleBoard { marbles: linear }
    }
}

/// No value can occur in a line of marbles more often than the line is long.
proof fn lemma_count_le_len(s: Seq<Marble>, m: Marble)
    ensures
        s.to_multiset().count(m) <= s.len(),
    decreases s.len(),
{
    if s.len() == 0 {
        assert(s.to_multiset().len() == 0);
        vstd::multiset::lemma_multiset_empty_len(s.to_multiset());
    } else {
        let s0 = s.drop_last();
        assert(s =~= s0.push(s.last()));
        assert(s.to_multiset() =~= s0.to_multiset().insert(s.last()));
        lemma_count_le_len(s0, m);
    }
}

/// A line whose steel tally equals its length is steel throughout.
proof fn lemma_full_count_all_steel(s: Seq<Marble>)
    requires
        s.to_multiset().count(Marble::Steel) == s.len(),
    ensures
        forall|i: int| 0 <= i < s.len() ==> s[i] == Marble::Steel,
    decreases s.len(),
{
    if s.len() > 0 {
        let s0 = s.drop_last();
        assert(s =~= s0.push(s.last()));
        assert(s.to_multiset() =~= s0.to_multiset().insert(s.last()));
        if s.last() == Marble::Steel {
            lemma_full_count_all_steel(s0);
            assert forall|i: int| 0 <= i < s.len() implies s[i] == Marble::Steel by {
                if i < s.len() - 1 {
                    assert(s[i] == s0[i]);
                }
            }
        } else {
            assert(s0.to_multiset().count(Marble::Steel) == s.len());
            lemma_count_le_len(s0, Marble::Steel);
            assert(false);
        }
    }
}

/// A board with no steel marble at all holds glass in every cell.
pub proof fn lemma_no_steel_all_glass(g: MarbleBoard)
    requires
        g.well_formed(),
        g.steel_count() == 0,
    ensures
        forall|y: int, x: int| in_bounds(y, x) ==> (#[trigger] g.cell(y, x)) == Marble::Glass,
{
    assert forall|y: int, x: int| in_bounds(y, x) implies (#[trigger] g.cell(y, x))
        == Marble::Glass by {
        let idx = y * (BOARD_WIDTH as int) + x;
        assert(0 <= idx < g.marbles@.len());
        if g.marbles@[idx] == Marble::Steel {
            assert(g.marbles@.contains(Marble::Steel));
            assert(g.marbles@.to_multiset().count(Marble::Steel) > 0);
            assert(false);
        }
    }
}

/// A board whose steel tally fills it holds steel in every cell.
pub proof fn lemma_full_steel_all_steel(g: MarbleBoard)
    requires
        g.well_formed(),
        g.steel_count() == BOARD_CELLS as nat,
    ensures
        forall|y: int, x: int| in_bounds(y, x) ==> (#[trigger] g.cell(y, x)) == Marble::Steel,
{
    lemma_full_count_all_steel(g.marbles@);
    assert forall|y: int, x: int| in_bounds(y, x) implies (#[trigger] g.cell(y, x))
        == Marble::Steel by {
        let idx = y * (BOARD_WIDTH as int) + x;
        assert(0 <= idx < g.marbles@.len());
    }
}

impl Default for MarbleBoard {
    /// A fresh board holds glass in every cell.
    fn default() -> (r: Self)
        ensures
            r.well_formed(),
            forall|y: int, x: int|
                in_bounds(y, x) ==> #[trigger] r.cell(y, x) == Marble::Glass,
    {
        let mut marbles: Vec<Marble> = Vec::new();
        let mut i: usize = 0;
        while i < BOARD_CELLS
            invariant
                i <= BOARD_CELLS,
                marbles@.len() == i as int,
                forall|j: int| 0 <= j < i as int ==> marbles@[j] == Marble::Glass,
            decreases BOARD_CELLS - i,
        {
            marbles.push(Marble::Glass);
            i += 1;
        }
        MarbleBoard { marbles }
    }
}

} // verus!
