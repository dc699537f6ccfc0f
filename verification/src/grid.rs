//! A set of cells, held in the order in which the cells came.

use crate::cell::Cell;
use vstd::prelude::*;

verus! {

/// The cells of `s` added to `acc` one by one, each unless it stands there
/// already.
pub open spec fn distinct_onto(acc: Seq<Cell>, s: Seq<Cell>) -> Seq<Cell>
    decreases s.len(),
{
    if s.len() == 0 {
        acc
    } else if acc.contains(s[0]) {
        distinct_onto(acc, s.drop_first())
    } else {
        distinct_onto(acc.push(s[0]), s.drop_first())
    }
}

/// The cells of `s` without repeats: each where it stands first.
pub open spec fn distinct(s: Seq<Cell>) -> Seq<Cell> {
    distinct_onto(Seq::empty(), s)
}

/// Adding cells unless they stand there already keeps what was there, adds
/// no cell twice, and ends with the cells of both.
pub proof fn lemma_distinct_onto(acc: Seq<Cell>, s: Seq<Cell>)
    requires
        acc.no_duplicates(),
    ensures
        distinct_onto(acc, s).no_duplicates(),
        distinct_onto(acc, s).to_set() == acc.to_set().union(s.to_set()),
        acc.len() <= distinct_onto(acc, s).len(),
        forall|i: int| 0 <= i < acc.len() ==> distinct_onto(acc, s)[i] == acc[i],
    decreases s.len(),
{
    if s.len() == 0 {
        assert(acc.to_set() =~= acc.to_set().union(s.to_set()));
    } else {
        let next = if acc.contains(s[0]) {
            acc
        } else {
            acc.push(s[0])
        };
        let rest = s.drop_first();
        lemma_distinct_onto(next, rest);
        assert forall|c: Cell| next.to_set().union(rest.to_set()).contains(c) == acc.to_set().union(
            s.to_set(),
        ).contains(c) by {
            if acc.contains(c) {
                let i = choose|i: int| 0 <= i < acc.len() && acc[i] == c;
                assert(next[i] == c);
            }
            if next.contains(c) {
                let i = choose|i: int| 0 <= i < next.len() && next[i] == c;
                if i < acc.len() {
                    assert(acc[i] == c);
                } else {
                    assert(s[0] == c);
                }
            }
            if rest.contains(c) {
                let i = choose|i: int| 0 <= i < rest.len() && rest[i] == c;
                assert(s[i + 1] == c);
            }
            if s.contains(c) {
                let i = choose|i: int| 0 <= i < s.len() && s[i] == c;
                if i == 0 {
                    if acc.contains(s[0]) {
                    } else {
                        assert(next[acc.len() as int] == c);
                    }
                } else {
                    assert(rest[i - 1] == c);
                }
            }
        }
        assert(distinct_onto(acc, s).to_set() =~= acc.to_set().union(s.to_set()));
        assert forall|i: int| 0 <= i < acc.len() implies distinct_onto(acc, s)[i] == acc[i] by {
            assert(next[i] == acc[i]);
        }
    }
}

/// The cells of a sequence without its repeats are the cells of the
/// sequence, each once: as many as the sequence has different cells.
pub proof fn lemma_distinct(s: Seq<Cell>)
    ensures
        distinct(s).no_duplicates(),
        distinct(s).to_set() == s.to_set(),
        distinct(s).len() == s.to_set().len(),
{
    lemma_distinct_onto(Seq::empty(), s);
    assert(Seq::<Cell>::empty().to_set().union(s.to_set()) =~= s.to_set());
    distinct(s).unique_seq_to_set();
}

/// A set of cells: no cell stands in it twice. The cells keep the order in
/// which they came.
pub struct Grid {
    cells: Vec<Cell>,
}

impl View for Grid {
    type V = Set<Cell>;

    /// The cells.
    open spec fn view(&self) -> Set<Cell> {
        self.spec_seq().to_set()
    }
}

impl Grid {
    /// The cells in the order in which they came.
    pub closed spec fn spec_seq(&self) -> Seq<Cell> {
        self.cells@
    }

    /// A grid is well formed when no cell stands in it twice.
    pub open spec fn wf(&self) -> bool {
        self.spec_seq().no_duplicates()
    }

    /// A well formed grid holds as many cells in its order as it has cells.
    pub proof fn lemma_len(&self)
        requires
            self.wf(),
        ensures
            self@.finite(),
            self.spec_seq().len() == self@.len(),
    {
        self.spec_seq().unique_seq_to_set();
        vstd::seq_lib::seq_to_set_is_finite(self.spec_seq());
    }

    /// The grid without cells.
    pub fn new() -> (grid: Grid)
        ensures
            grid.wf(),
            grid.spec_seq() == Seq::<Cell>::empty(),
            grid@ == Set::<Cell>::empty(),
    {
        let grid = Grid { cells: Vec::new() };
        assert(grid@ =~= Set::<Cell>::empty());
        grid
    }

    /// The number of cells.
    pub fn len(&self) -> (n: usize)
        ensures
            n == self.spec_seq().len(),
            self.wf() ==> n == self@.len(),
    {
        proof {
            if self.wf() {
                self.lemma_len();
            }
        }
        self.cells.len()
    }

    /// The cell that came as number `i`, counted from nothing.
    pub fn get(&self, i: usize) -> (cell: Cell)
        requires
            i < self.spec_seq().len(),
        ensures
            cell == self.spec_seq()[i as int],
    {
        self.cells[i]
    }

    /// Whether the cell stands in the grid.
    pub fn contains(&self, cell: Cell) -> (found: bool)
        ensures
            found == self@.contains(cell),
            found == self.spec_seq().contains(cell),
    {
        let mut i: usize = 0;
        while i < self.cells.len()
            invariant
                i <= self.cells.len(),
                forall|k: int| 0 <= k < i ==> self.cells@[k] != cell,
            decreases self.cells.len() - i,
        {
            if self.cells[i] == cell {
                return true;
            }
            i = i + 1;
        }
        false
    }

    /// Adds the cell unless it stands in the grid already, and says whether it
    /// was added.
    pub fn insert(&mut self, cell: Cell) -> (added: bool)
        requires
            old(self).wf(),
        ensures
            final(self).wf(),
            added == !old(self)@.contains(cell),
            final(self).spec_seq() == if added {
                old(self).spec_seq().push(cell)
            } else {
                old(self).spec_seq()
            },
            final(self)@ == old(self)@.insert(cell),
    {
        if self.contains(cell) {
            proof {
                assert(self@ =~= self@.insert(cell));
            }
            false
        } else {
            self.cells.push(cell);
            proof {
                let before = old(self).spec_seq();
                let after = self.spec_seq();
                assert forall|c: Cell| after.to_set().contains(c) == before.to_set().insert(
                    cell,
                ).contains(c) by {
                    if before.contains(c) {
                        let i = choose|i: int| 0 <= i < before.len() && before[i] == c;
                        assert(after[i] == c);
                    }
                    if c == cell {
                        assert(after[before.len() as int] == c);
                    }
                }
                assert(self@ =~= old(self)@.insert(cell));
            }
            true
        }
    }

    /// The cells in the order in which they came.
    pub fn to_vec(&self) -> (cells: Vec<Cell>)
        ensures
            cells@ == self.spec_seq(),
    {
        let mut cells: Vec<Cell> = Vec::new();
        let mut i: usize = 0;
        while i < self.cells.len()
            invariant
                i <= self.cells.len(),
                cells@ == self.cells@.take(i as int),
            decreases self.cells.len() - i,
        {
            cells.push(self.cells[i]);
            proof {
                assert(cells@ =~= self.cells@.take(i + 1));
            }
            i = i + 1;
        }
        proof {
            assert(self.cells@.take(self.cells.len() as int) =~= self.cells@);
        }
        cells
    }

    /// The grid of the given cells: each once, where it stands first.
    pub fn from_cells(cells: &Vec<Cell>) -> (grid: Grid)
        ensures
            grid.wf(),
            grid.spec_seq() == distinct(cells@),
            grid@ == cells@.to_set(),
    {
        let mut grid = Grid::new();
        let mut i: usize = 0;
        proof {
            assert(cells@.skip(0) =~= cells@);
        }
        while i < cells.len()
            invariant
                i <= cells.len(),
                grid.wf(),
                distinct_onto(grid.spec_seq(), cells@.skip(i as int)) == distinct(cells@),
            decreases cells.len() - i,
        {
            proof {
                assert(cells@.skip(i as int).drop_first() =~= cells@.skip(i + 1));
            }
            grid.insert(cells[i]);
            i = i + 1;
        }
        proof {
            lemma_distinct(cells@);
        }
        grid
    }
}

} // verus!
