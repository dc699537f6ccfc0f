//! The tree of nested squares and the operations that build one tree from
//! another: setting a cell, reading a cell, growing the square, listing the
//! live cells.

use crate::cell::Cell;
use crate::geometry::{
    clamp, covers, exp2, high, lemma_exp2_positive, low, quadrant_offset, quadrant_shift,
    same_cell, MAX_LEVEL,
};
use crate::node_lemmas::{
    lemma_alive_at_clamps, lemma_empty_is_dead, lemma_expanded, lemma_holds_part_kept,
    lemma_level_bounds, lemma_node_is_well_formed, lemma_parts_make_whole,
    lemma_population_bounds, lemma_set_in_quadrant,
};
use std::rc::Rc;
use vstd::prelude::*;

verus! {

/// A square block of the grid: a single cell, or four blocks of half its
/// side. Blocks are never changed once built, so a block may be a quadrant of
/// any number of larger ones.
#[derive(Debug)]
pub enum CC {
    /// The level, whether any cell is alive, the number of live cells, and the
    /// north-west, north-east, south-west and south-east quadrants.
    Node(i32, bool, i64, Rc<CC>, Rc<CC>, Rc<CC>, Rc<CC>),
    /// One cell, alive or dead.
    Leaf(bool),
}

/// The block that `node` builds from four quadrants.
pub open spec fn spec_node(nw: Rc<CC>, ne: Rc<CC>, sw: Rc<CC>, se: Rc<CC>) -> CC {
    let population = nw.population() + ne.population() + sw.population() + se.population();
    CC::Node((nw.level() + 1) as i32, population > 0, population as i64, nw, ne, sw, se)
}

/// The quadrant of `n` in row `i` (north is 0) and column `j` (west is 0).
pub open spec fn quadrant(n: CC, i: int, j: int) -> CC {
    if i == 0 {
        if j == 0 {
            n.spec_nw()
        } else {
            n.spec_ne()
        }
    } else {
        if j == 0 {
            n.spec_sw()
        } else {
            n.spec_se()
        }
    }
}

/// The block `n` with `q` in place of its quadrant in row `i` and column `j`.
pub open spec fn with_quadrant(n: CC, i: int, j: int, q: Rc<CC>) -> CC {
    match n {
        CC::Leaf(_) => n,
        CC::Node(_, _, _, nw, ne, sw, se) => if i == 0 {
            if j == 0 {
                spec_node(q, ne, sw, se)
            } else {
                spec_node(nw, q, sw, se)
            }
        } else {
            if j == 0 {
                spec_node(nw, ne, q, se)
            } else {
                spec_node(nw, ne, sw, q)
            }
        },
    }
}

/// Whether the cells of `s` from index `from` up to `to` are the live cells
/// of `n`, each once, as they lie when the origin of `n` is at column `dx`,
/// row `dy`.
pub open spec fn holds_part(n: &CC, dx: int, dy: int, s: Seq<Cell>, from: int, to: int) -> bool {
    &&& 0 <= from <= to <= s.len()
    &&& forall|i: int| from <= i < to ==> n@.contains(((#[trigger] s[i]).x - dx, s[i].y - dy))
    &&& forall|x: int, y: int|
        n@.contains((x, y)) ==> exists|i: int|
            from <= i < to && #[trigger] s[i]@ == (x + dx, y + dy)
    &&& forall|i: int, j: int| from <= i < j < to ==> #[trigger] s[i]@ != #[trigger] s[j]@
}

impl View for CC {
    type V = Set<(int, int)>;

    /// The live cells inside the block, each by its column and row.
    open spec fn view(&self) -> Set<(int, int)> {
        Set::new(|p: (int, int)| covers(self.level() as int, p.0, p.1) && self.alive_at(p.0, p.1))
    }
}

impl CC {
    /// The level: nothing for a single cell, and one more than its quadrants'
    /// for a larger block.
    pub open spec fn spec_level(&self) -> i32 {
        match *self {
            CC::Leaf(_) => 0,
            CC::Node(level, _, _, _, _, _, _) => level,
        }
    }

    /// The number of live cells, as the block records it.
    pub open spec fn spec_population(&self) -> i64 {
        match *self {
            CC::Leaf(alive) => if alive {
                1
            } else {
                0
            },
            CC::Node(_, _, population, _, _, _, _) => population,
        }
    }

    /// The north-west quadrant; a single cell is its own quadrant.
    pub open spec fn spec_nw(&self) -> CC {
        match *self {
            CC::Node(_, _, _, nw, _, _, _) => *nw,
            CC::Leaf(alive) => CC::Leaf(alive),
        }
    }

    /// The north-east quadrant; a single cell is its own quadrant.
    pub open spec fn spec_ne(&self) -> CC {
        match *self {
            CC::Node(_, _, _, _, ne, _, _) => *ne,
            CC::Leaf(alive) => CC::Leaf(alive),
        }
    }

    /// The south-west quadrant; a single cell is its own quadrant.
    pub open spec fn spec_sw(&self) -> CC {
        match *self {
            CC::Node(_, _, _, _, _, sw, _) => *sw,
            CC::Leaf(alive) => CC::Leaf(alive),
        }
    }

    /// The south-east quadrant; a single cell is its own quadrant.
    pub open spec fn spec_se(&self) -> CC {
        match *self {
            CC::Node(_, _, _, _, _, _, se) => *se,
            CC::Leaf(alive) => CC::Leaf(alive),
        }
    }

    /// A block is well formed when its quadrants are well formed blocks one
    /// level below it, its population is the sum of theirs, and it is marked
    /// alive exactly when that sum is positive.
    pub open spec fn wf(&self) -> bool
        decreases *self,
    {
        match *self {
            CC::Leaf(_) => true,
            CC::Node(level, alive, population, nw, ne, sw, se) => {
                &&& 1 <= level <= MAX_LEVEL
                &&& nw.level() == level - 1
                &&& ne.level() == level - 1
                &&& sw.level() == level - 1
                &&& se.level() == level - 1
                &&& population == nw.population() + ne.population() + sw.population()
                    + se.population()
                &&& alive == (population > 0)
                &&& nw.wf()
                &&& ne.wf()
                &&& sw.wf()
                &&& se.wf()
            },
        }
    }

    /// Whether the cell that column `x`, row `y` is taken for is alive. The
    /// origin is the block's centre: negative columns lie west, negative rows
    /// north. A position outside the block is taken for the nearest cell of
    /// its edge.
    pub open spec fn alive_at(&self, x: int, y: int) -> bool
        decreases *self,
    {
        match *self {
            CC::Leaf(alive) => alive,
            CC::Node(level, _, _, nw, ne, sw, se) => {
                let d = quadrant_offset(level as int);
                if x < 0 {
                    if y < 0 {
                        nw.alive_at(x + d, y + d)
                    } else {
                        sw.alive_at(x + d, y - d)
                    }
                } else {
                    if y < 0 {
                        ne.alive_at(x - d, y + d)
                    } else {
                        se.alive_at(x - d, y - d)
                    }
                }
            },
        }
    }

    /// What `get_bit` returns: one where the cell is alive, else nothing.
    pub open spec fn spec_get_bit(&self, x: i32, y: i32) -> u32 {
        if self.alive_at(x as int, y as int) {
            1
        } else {
            0
        }
    }

    /// The number of live cells.
    #[verifier::when_used_as_spec(spec_population)]
    pub fn population(&self) -> (p: i64)
        ensures
            p == self.spec_population(),
    {
        match *self {
            CC::Leaf(alive) => if alive {
                1
            } else {
                0
            },
            CC::Node(_, _, population, _, _, _, _) => population,
        }
    }

    /// The level: the block's side is two to this power.
    #[verifier::when_used_as_spec(spec_level)]
    pub fn level(&self) -> (l: i32)
        ensures
            l == self.spec_level(),
    {
        match *self {
            CC::Leaf(_) => 0,
            CC::Node(level, _, _, _, _, _, _) => level,
        }
    }

    /// The north-west quadrant, shared with this block.
    pub fn nw(&self) -> (r: Rc<CC>)
        ensures
            *r == self.spec_nw(),
    {
        match *self {
            CC::Node(_, _, _, ref nw, _, _, _) => nw.clone(),
            CC::Leaf(alive) => leaf(alive),
        }
    }

    /// The north-east quadrant, shared with this block.
    pub fn ne(&self) -> (r: Rc<CC>)
        ensures
            *r == self.spec_ne(),
    {
        match *self {
            CC::Node(_, _, _, _, ref ne, _, _) => ne.clone(),
            CC::Leaf(alive) => leaf(alive),
        }
    }

    /// The south-west quadrant, shared with this block.
    pub fn sw(&self) -> (r: Rc<CC>)
        ensures
            *r == self.spec_sw(),
    {
        match *self {
            CC::Node(_, _, _, _, _, ref sw, _) => sw.clone(),
            CC::Leaf(alive) => leaf(alive),
        }
    }

    /// The south-east quadrant, shared with this block.
    pub fn se(&self) -> (r: Rc<CC>)
        ensures
            *r == self.spec_se(),
    {
        match *self {
            CC::Node(_, _, _, _, _, _, ref se) => se.clone(),
            CC::Leaf(alive) => leaf(alive),
        }
    }

    /// The block with the cell at column `x`, row `y` alive and every other
    /// cell as it is here. Only the blocks on the way to that cell are built
    /// anew; the rest is shared.
    pub fn set_bit(&self, x: i32, y: i32) -> (r: Rc<CC>)
        requires
            self.wf(),
        ensures
            r.wf(),
            r.level() == self.level(),
            r.get_bit(x, y) == 1,
            forall|x2: i32, y2: i32|
                !same_cell(self.level() as int, x as int, y as int, x2 as int, y2 as int)
                    ==> r.get_bit(x2, y2) == self.get_bit(x2, y2),
            forall|x2: int, y2: int|
                r.alive_at(x2, y2) == (self.alive_at(x2, y2) || same_cell(
                    self.level() as int,
                    x as int,
                    y as int,
                    x2,
                    y2,
                )),
            r.population() == if self.alive_at(x as int, y as int) {
                self.population() as int
            } else {
                self.population() + 1
            },
            r@ == self@.insert(
                (clamp(self.level() as int, x as int), clamp(self.level() as int, y as int)),
            ),
        decreases self.level(),
    {
        match *self {
            CC::Leaf(_) => {
                let r = leaf(true);
                assert(r@ =~= self@.insert((0int, 0int)));
                r
            },
            CC::Node(level, _, _, ref nw, ref ne, ref sw, ref se) => {
                let offset = quadrant_shift(level);
                let ghost l = level as int;
                let r = if x < 0 {
                    if y < 0 {
                        let q = nw.set_bit(x + offset, y + offset);
                        let r = node(q, ne.clone(), sw.clone(), se.clone());
                        proof {
                            lemma_set_in_quadrant(self, &*q, &*r, x as int, y as int);
                        }
                        r
                    } else {
                        let q = sw.set_bit(x + offset, y - offset);
                        let r = node(nw.clone(), ne.clone(), q, se.clone());
                        proof {
                            lemma_set_in_quadrant(self, &*q, &*r, x as int, y as int);
                        }
                        r
                    }
                } else {
                    if y < 0 {
                        let q = ne.set_bit(x - offset, y + offset);
                        let r = node(nw.clone(), q, sw.clone(), se.clone());
                        proof {
                            lemma_set_in_quadrant(self, &*q, &*r, x as int, y as int);
                        }
                        r
                    } else {
                        let q = se.set_bit(x - offset, y - offset);
                        let r = node(nw.clone(), ne.clone(), sw.clone(), q);
                        proof {
                            lemma_set_in_quadrant(self, &*q, &*r, x as int, y as int);
                        }
                        r
                    }
                };
                proof {
                    lemma_exp2_positive(l - 1);
                    lemma_alive_at_clamps(self, x as int, y as int);
                    lemma_alive_at_clamps(&*r, x as int, y as int);
                    assert(r@ =~= self@.insert((clamp(l, x as int), clamp(l, y as int)))) by {
                        assert forall|p: (int, int)|
                            r@.contains(p) == self@.insert(
                                (clamp(l, x as int), clamp(l, y as int)),
                            ).contains(p) by {
                            if covers(l, p.0, p.1) {
                                assert(clamp(l, p.0) == p.0 && clamp(l, p.1) == p.1);
                            }
                        }
                    }
                }
                r
            },
        }
    }

    /// One where the cell at column `x`, row `y` is alive, else nothing. An
    /// empty block answers without looking further.
    #[verifier::when_used_as_spec(spec_get_bit)]
    pub fn get_bit(&self, x: i32, y: i32) -> (bit: u32)
        requires
            self.wf(),
        ensures
            bit == self.spec_get_bit(x, y),
            bit == if self@.contains(
                (clamp(self.level() as int, x as int), clamp(self.level() as int, y as int)),
            ) {
                1u32
            } else {
                0u32
            },
        decreases self.level(),
    {
        proof {
            lemma_alive_at_clamps(self, x as int, y as int);
            lemma_exp2_positive(self.level() - 1);
            lemma_population_bounds(self);
        }
        match *self {
            CC::Leaf(alive) => if alive {
                1
            } else {
                0
            },
            CC::Node(_, false, _, _, _, _, _) => {
                proof {
                    lemma_empty_is_dead(self, x as int, y as int);
                }
                0
            },
            CC::Node(level, _, _, ref nw, ref ne, ref sw, ref se) => {
                let offset = quadrant_shift(level);
                if x < 0 {
                    if y < 0 {
                        nw.get_bit(x + offset, y + offset)
                    } else {
                        sw.get_bit(x + offset, y - offset)
                    }
                } else {
                    if y < 0 {
                        ne.get_bit(x - offset, y + offset)
                    } else {
                        se.get_bit(x - offset, y - offset)
                    }
                }
            },
        }
    }

    /// The block one level up (two for a single cell) that holds this block
    /// in its middle and dead cells around it. The quadrants are shared.
    pub fn expand_universe(&self) -> (r: Rc<CC>)
        requires
            self.wf(),
            self.level() < MAX_LEVEL,
        ensures
            r.wf(),
            r.level() == if self.level() == 0 {
                2
            } else {
                self.level() + 1
            },
            r.population() == if self.level() == 0 {
                4 * self.population()
            } else {
                self.population() as int
            },
            forall|x: int, y: int|
                r.alive_at(x, y) == (self.alive_at(x, y) && covers(
                    if self.level() == 0 {
                        1
                    } else {
                        self.level() as int
                    },
                    x,
                    y,
                )),
            forall|x: i32, y: i32|
                covers(self.level() as int, x as int, y as int) ==> r.get_bit(x, y)
                    == self.get_bit(x, y),
            self.level() >= 1 ==> r@ == self@,
    {
        match *self {
            CC::Leaf(alive) => {
                let l = leaf(alive);
                let r = node(
                    node(leaf(false), leaf(false), leaf(false), l.clone()),
                    node(leaf(false), leaf(false), l.clone(), leaf(false)),
                    node(leaf(false), l.clone(), leaf(false), leaf(false)),
                    node(l.clone(), leaf(false), leaf(false), leaf(false)),
                );
                proof {
                    reveal_with_fuel(CC::alive_at, 3);
                    reveal_with_fuel(exp2, 3);
                }
                r
            },
            CC::Node(level, _, _, ref nw, ref ne, ref sw, ref se) => {
                let border = empty_tree(level - 1);
                let r = node(
                    node(border.clone(), border.clone(), border.clone(), nw.clone()),
                    node(border.clone(), border.clone(), ne.clone(), border.clone()),
                    node(border.clone(), sw.clone(), border.clone(), border.clone()),
                    node(se.clone(), border.clone(), border.clone(), border.clone()),
                );
                proof {
                    lemma_expanded(self, &*border, &*r);
                    assert(r@ =~= self@) by {
                        lemma_exp2_positive(level as int);
                        assert forall|p: (int, int)| r@.contains(p) == self@.contains(p) by {
                            if covers(level as int, p.0, p.1) {
                                assert(covers(level + 1, p.0, p.1));
                            }
                        }
                    }
                }
                r
            },
        }
    }

    /// The live cells of the block, each once, by column and row.
    pub fn live_cells(&self) -> (cells: Vec<Cell>)
        requires
            self.wf(),
        ensures
            forall|i: int| 0 <= i < cells.len() ==> self@.contains(#[trigger] cells[i]@),
            forall|x: int, y: int|
                self@.contains((x, y)) ==> exists|i: int|
                    0 <= i < cells.len() && #[trigger] cells[i]@ == (x, y),
            forall|i: int, j: int|
                0 <= i < j < cells.len() ==> #[trigger] cells[i]@ != #[trigger] cells[j]@,
            cells.len() == self.population(),
    {
        let mut cells = Vec::new();
        proof {
            lemma_level_bounds(self);
        }
        self.collect_cells(0, 0, &mut cells);
        proof {
            assert forall|x: int, y: int| self@.contains((x, y)) implies exists|i: int|
                0 <= i < cells.len() && #[trigger] cells[i]@ == (x, y) by {
                let i = choose|i: int|
                    0 <= i < cells.len() && #[trigger] cells[i]@ == (x + 0, y + 0);
                assert(cells[i]@ == (x, y));
            }
        }
        cells
    }

    /// Appends the live cells of the block to `out`, each once, as they lie
    /// when the block's origin is at column `dx`, row `dy`. A block without a
    /// live cell is passed over whole.
    pub fn collect_cells(&self, dx: i32, dy: i32, out: &mut Vec<Cell>)
        requires
            self.wf(),
            i32::MIN <= dx + low(self.level() as int),
            dx + high(self.level() as int) <= i32::MAX,
            i32::MIN <= dy + low(self.level() as int),
            dy + high(self.level() as int) <= i32::MAX,
        ensures
            final(out).len() == old(out).len() + self.population(),
            forall|i: int| 0 <= i < old(out).len() ==> final(out)[i] == old(out)[i],
            holds_part(
                self,
                dx as int,
                dy as int,
                final(out)@,
                old(out).len() as int,
                final(out).len() as int,
            ),
        decreases self.level(),
    {
        match *self {
            CC::Leaf(true) => {
                out.push(Cell { x: dx, y: dy });
                proof {
                    let at = old(out).len() as int;
                    assert(out[at]@ == (dx as int, dy as int));
                    assert(self@.contains((0int, 0int)));
                }
            },
            CC::Leaf(false) => {},
            CC::Node(_, false, _, _, _, _, _) => {
                proof {
                    lemma_population_bounds(self);
                    assert forall|x: int, y: int| !self@.contains((x, y)) by {
                        lemma_empty_is_dead(self, x, y);
                    }
                }
            },
            CC::Node(level, _, _, ref nw, ref ne, ref sw, ref se) => {
                let offset = quadrant_shift(level);
                let west = if level == 1 {
                    1
                } else {
                    offset
                };
                proof {
                    lemma_exp2_positive(level as int - 2);
                    lemma_population_bounds(&**nw);
                    lemma_population_bounds(&**ne);
                    lemma_population_bounds(&**sw);
                    lemma_population_bounds(&**se);
                }
                let ghost n0 = out.len() as int;
                nw.collect_cells(dx - west, dy - west, out);
                let ghost n1 = out.len() as int;
                let ghost s1 = out@;
                ne.collect_cells(dx + offset, dy - west, out);
                let ghost n2 = out.len() as int;
                let ghost s2 = out@;
                sw.collect_cells(dx - west, dy + offset, out);
                let ghost n3 = out.len() as int;
                let ghost s3 = out@;
                se.collect_cells(dx + offset, dy + offset, out);
                proof {
                    let n4 = out.len() as int;
                    let s4 = out@;
                    assert forall|i: int| 0 <= i < n1 implies s4[i] == s1[i] by {
                        assert(s2[i] == s1[i]);
                        assert(s3[i] == s2[i]);
                    }
                    assert forall|i: int| n1 <= i < n2 implies s4[i] == s2[i] by {
                        assert(s3[i] == s2[i]);
                    }
                    assert(holds_part(&**nw, dx - west, dy - west, s4, n0, n1)) by {
                        assert(holds_part(&**nw, dx - west, dy - west, s1, n0, n1));
                        lemma_holds_part_kept(&**nw, dx - west, dy - west, s1, s4, n0, n1);
                    }
                    assert(holds_part(&**ne, dx + offset, dy - west, s4, n1, n2)) by {
                        assert(holds_part(&**ne, dx + offset, dy - west, s2, n1, n2));
                        lemma_holds_part_kept(&**ne, dx + offset, dy - west, s2, s4, n1, n2);
                    }
                    assert(holds_part(&**sw, dx - west, dy + offset, s4, n2, n3)) by {
                        assert(holds_part(&**sw, dx - west, dy + offset, s3, n2, n3));
                        lemma_holds_part_kept(&**sw, dx - west, dy + offset, s3, s4, n2, n3);
                    }
                    assert(holds_part(&**se, dx + offset, dy + offset, s4, n3, n4));
                    lemma_parts_make_whole(self, dx as int, dy as int, s4, n0, n1, n2, n3, n4);
                }
            },
        }
    }
}

/// A single cell, alive or dead.
pub fn leaf(alive: bool) -> (r: Rc<CC>)
    ensures
        *r == CC::Leaf(alive),
{
    Rc::new(CC::Leaf(alive))
}

/// The block whose quadrants are the four given blocks, which it shares.
pub fn node(nw: Rc<CC>, ne: Rc<CC>, sw: Rc<CC>, se: Rc<CC>) -> (r: Rc<CC>)
    requires
        nw.wf(),
        ne.wf(),
        sw.wf(),
        se.wf(),
        ne.level() == nw.level(),
        sw.level() == nw.level(),
        se.level() == nw.level(),
        nw.level() < MAX_LEVEL,
    ensures
        *r == spec_node(nw, ne, sw, se),
        r.wf(),
{
    proof {
        lemma_node_is_well_formed(&*nw, &*ne, &*sw, &*se);
    }
    let level = nw.level();
    let population = nw.population() + ne.population() + sw.population() + se.population();
    let alive = population > 0;
    Rc::new(CC::Node(level + 1, alive, population, nw, ne, sw, se))
}

/// The block of the given level in which every cell is dead.
pub fn empty_tree(level: i32) -> (r: Rc<CC>)
    requires
        0 <= level <= MAX_LEVEL,
    ensures
        r.wf(),
        r.level() == level,
        r.population() == 0,
        forall|x: int, y: int| !r.alive_at(x, y),
        r@ == Set::<(int, int)>::empty(),
    decreases level,
{
    if level == 0 {
        leaf(false)
    } else {
        let l = empty_tree(level - 1);
        let r = node(l.clone(), l.clone(), l.clone(), l);
        proof {
            assert forall|x: int, y: int| !r.alive_at(x, y) by {
                lemma_empty_is_dead(&*r, x, y);
            }
            assert(r@ =~= Set::<(int, int)>::empty());
        }
        r
    }
}

} // verus!
