//! Conway's rule on a set of live cells.

use vstd::prelude::*;

verus! {

/// Conway's rule: a cell is alive in the next generation when three of its
/// eight neighbours are alive now, or two are and the cell itself is.
pub open spec fn conway(alive: bool, neighbours: int) -> bool {
    neighbours == 3 || (neighbours == 2 && alive)
}

/// One where the cell at column `x`, row `y` is alive, else nothing.
pub closed spec fn bit_at(cells: Set<(int, int)>, x: int, y: int) -> int {
    if cells.contains((x, y)) {
        1
    } else {
        0
    }
}

/// `bit_at` is 1 for a live cell and 0 for a dead one.
pub proof fn lemma_bit_at(cells: Set<(int, int)>, x: int, y: int)
    ensures
        0 <= bit_at(cells, x, y) <= 1,
        bit_at(cells, x, y) == 1 <==> cells.contains((x, y)),
{
}

/// The number of live cells among the eight around column `x`, row `y`.
pub open spec fn live_neighbours(cells: Set<(int, int)>, x: int, y: int) -> int {
    bit_at(cells, x - 1, y - 1) + bit_at(cells, x, y - 1) + bit_at(cells, x + 1, y - 1) + bit_at(
        cells,
        x - 1,
        y,
    ) + bit_at(cells, x + 1, y) + bit_at(cells, x - 1, y + 1) + bit_at(cells, x, y + 1) + bit_at(
        cells,
        x + 1,
        y + 1,
    )
}

/// Whether the cell at column `x`, row `y` is alive one generation after
/// `cells`.
pub open spec fn next_alive(cells: Set<(int, int)>, x: int, y: int) -> bool {
    conway(cells.contains((x, y)), live_neighbours(cells, x, y))
}

/// The live cells one generation after `cells`, on a grid without bounds.
pub open spec fn life_step(cells: Set<(int, int)>) -> Set<(int, int)> {
    Set::new(|p: (int, int)| next_alive(cells, p.0, p.1))
}

/// Nothing is born where nothing lives.
pub proof fn lemma_empty_stays_empty()
    ensures
        life_step(Set::<(int, int)>::empty()) == Set::<(int, int)>::empty(),
{
    assert(life_step(Set::<(int, int)>::empty()) =~= Set::<(int, int)>::empty());
}

} // verus!
