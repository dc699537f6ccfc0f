//! A universe of cells that advances generation by generation.

use crate::cell::Cell;
use crate::grid::Grid;
use crate::generation::{
    lemma_base_case, lemma_empty_advances, lemma_packed_bound, lemma_packed_windows,
    lemma_recombine, packed,
};
use crate::geometry::{
    clamp, covers, exp2, high, lemma_covers_grows, lemma_exp2_is_pow2, lemma_exp2_monotonic,
    lemma_exp2_positive, low, power_of_two, region, same_cell, MAX_LEVEL,
};
use crate::life::{bit_at, lemma_bit_at, life_step};
use crate::node::{empty_tree, leaf, node, CC};
use crate::node_lemmas::{lemma_alive_at_clamps, lemma_empty_is_dead, lemma_population_counts};
use crate::table::{lemma_window_next, next_state, LookupTable, WINDOW_BITS};
use crate::windows::{inner, window};
use std::rc::Rc;
use vstd::prelude::*;

verus! {

/// The level of the tree that a new world starts with.
pub const START_LEVEL: i32 = 9;

/// A step grows the tree until its level is above this one.
pub const STEP_LEVEL: i32 = 9;

/// A universe of cells at one moment: the tree that holds the cells, the
/// number of generations that have passed, and the table of the rule.
pub struct World {
    ngen: u64,
    root: Rc<CC>,
    bitcount: Rc<LookupTable>,
}

impl View for World {
    type V = Set<(int, int)>;

    /// The live cells, each by its column and row.
    open spec fn view(&self) -> Set<(int, int)> {
        self.spec_root()@
    }
}

/// Whether a world whose tree has the given level takes a coordinate as it
/// is given: the world takes its tree to span twice what the tree does span.
pub open spec fn in_reach(level: int, x: int) -> bool {
    -exp2(level) <= x <= exp2(level) - 1
}

/// The level to which a world of the given level grows before it sets the
/// cell at column `x`, row `y`: the first level from there up at which both
/// are in reach.
pub open spec fn grown_level(level: int, x: int, y: int) -> int
    decreases MAX_LEVEL - level,
{
    if level >= MAX_LEVEL || (in_reach(level, x) && in_reach(level, y)) {
        level
    } else {
        grown_level(level + 1, x, y)
    }
}

/// The level of a world's tree after a step from the given level.
pub open spec fn stepped_level(level: int) -> int {
    if level <= STEP_LEVEL {
        STEP_LEVEL as int
    } else {
        level - 1
    }
}

/// The live cells of a world one step after it held `cells` in a tree of the
/// given level: the next generation, as far as the new tree spans.
pub open spec fn stepped(cells: Set<(int, int)>, level: int) -> Set<(int, int)> {
    life_step(cells).intersect(region(stepped_level(level)))
}

/// The level of a world's tree after `count` steps from the given level.
pub open spec fn advanced_level(level: int, count: nat) -> int
    decreases count,
{
    if count == 0 {
        level
    } else {
        advanced_level(stepped_level(level), (count - 1) as nat)
    }
}

/// The live cells of a world `count` steps after it held `cells` in a tree
/// of the given level.
pub open spec fn advanced(cells: Set<(int, int)>, level: int, count: nat) -> Set<(int, int)>
    decreases count,
{
    if count == 0 {
        cells
    } else {
        advanced(stepped(cells, level), stepped_level(level), (count - 1) as nat)
    }
}

/// The cells that setting each cell of `cells` in turn leaves alive in a
/// tree of the given level.
pub open spec fn placed(cells: Seq<Cell>, level: int) -> Set<(int, int)> {
    Set::new(
        |p: (int, int)|
            exists|i: int|
                0 <= i < cells.len() && p == (
                    clamp(level, (#[trigger] cells[i]).x as int),
                    clamp(level, cells[i].y as int),
                ),
    )
}

/// Every coordinate that an `i32` holds is in reach at `MAX_LEVEL`.
pub proof fn lemma_all_in_reach(x: i32)
    ensures
        in_reach(MAX_LEVEL as int, x as int),
{
    assert(exp2(31) == 0x8000_0000) by {
        lemma_exp2_is_pow2(31);
        vstd::arithmetic::power2::lemma2_to64();
    }
}

/// What is in reach at one level is in reach at every level above it, and
/// what a tree spans is in reach at its level.
pub proof fn lemma_reach_grows(low_level: int, level: int, x: int)
    requires
        0 <= low_level <= level,
    ensures
        in_reach(low_level, x) ==> in_reach(level, x),
        low(low_level) <= x <= high(low_level) ==> in_reach(level, x),
{
    lemma_exp2_monotonic(low_level, level);
    lemma_exp2_monotonic(low_level - 1, low_level);
    lemma_exp2_positive(low_level - 1);
}

/// Whether both coordinates are in reach at the given level.
pub fn reaches(level: i32, x: i32, y: i32) -> (b: bool)
    requires
        0 <= level <= MAX_LEVEL,
    ensures
        b == (in_reach(level as int, x as int) && in_reach(level as int, y as int)),
{
    if level >= MAX_LEVEL {
        proof {
            lemma_all_in_reach(x);
            lemma_all_in_reach(y);
        }
        true
    } else {
        let max_coordinate = power_of_two(level);
        -max_coordinate <= x && x <= max_coordinate - 1 && -max_coordinate <= y && y
            <= max_coordinate - 1
    }
}

impl World {
    /// The tree that holds the cells.
    pub closed spec fn spec_root(&self) -> CC {
        *self.root
    }

    /// The number of generations that have passed.
    pub closed spec fn spec_generation(&self) -> u64 {
        self.ngen
    }

    /// The table of the rule.
    pub closed spec fn table(&self) -> LookupTable {
        *self.bitcount
    }

    /// A world is well formed when its tree is, at a level from `START_LEVEL`
    /// up, and its table is the table of Conway's rule.
    pub open spec fn wf(&self) -> bool {
        &&& self.spec_root().wf()
        &&& START_LEVEL <= self.spec_root().level() <= MAX_LEVEL
        &&& self.table().wf()
    }

    /// A world without population holds no live cell, and every read of it
    /// gives nothing.
    pub proof fn lemma_empty_reads_dead(&self)
        requires
            self.wf(),
            self.spec_root().population() == 0,
        ensures
            self@ == Set::<(int, int)>::empty(),
            forall|x: i32, y: i32| self.get_bit(x, y) == 0,
    {
        assert forall|x: int, y: int| !self.spec_root().alive_at(x, y) by {
            lemma_empty_is_dead(&self.spec_root(), x, y);
        }
        assert(self@ =~= Set::<(int, int)>::empty());
    }

    /// The world of the given cells before any generation has passed: each
    /// cell is set in an empty tree of level `START_LEVEL`.
    pub fn new(grid: Grid, bitcount: Rc<LookupTable>) -> (world: World)
        requires
            bitcount.wf(),
        ensures
            world.wf(),
            world.spec_generation() == 0,
            world.spec_root().level() == START_LEVEL,
            world.table() == *bitcount,
            world@ == placed(grid.spec_seq(), START_LEVEL as int),
            world@.finite(),
            world.spec_root().population() == world@.len(),
    {
        let mut tree = empty_tree(START_LEVEL);
        let mut i: usize = 0;
        proof {
            assert(tree@ =~= placed(grid.spec_seq().take(0), START_LEVEL as int));
        }
        while i < grid.len()
            invariant
                i <= grid.spec_seq().len(),
                tree.wf(),
                tree.level() == START_LEVEL,
                tree@ == placed(grid.spec_seq().take(i as int), START_LEVEL as int),
            decreases grid.spec_seq().len() - i,
        {
            let cell = grid.get(i);
            let ghost before = tree@;
            tree = tree.set_bit(cell.x, cell.y);
            proof {
                let done = grid.spec_seq().take(i as int);
                let more = grid.spec_seq().take(i + 1);
                let l = START_LEVEL as int;
                let p = (clamp(l, cell.x as int), clamp(l, cell.y as int));
                assert forall|q: (int, int)| before.insert(p).contains(q) == placed(
                    more,
                    l,
                ).contains(q) by {
                    if before.contains(q) {
                        let k = choose|k: int|
                            0 <= k < done.len() && q == (
                                clamp(l, (#[trigger] done[k]).x as int),
                                clamp(l, done[k].y as int),
                            );
                        assert(more[k] == done[k]);
                    }
                    if q == p {
                        assert(more[i as int] == cell);
                    }
                    if placed(more, l).contains(q) {
                        let k = choose|k: int|
                            0 <= k < more.len() && q == (
                                clamp(l, (#[trigger] more[k]).x as int),
                                clamp(l, more[k].y as int),
                            );
                        if k < i {
                            assert(done[k] == more[k]);
                        }
                    }
                }
                assert(tree@ =~= placed(more, l));
            }
            i = i + 1;
        }
        proof {
            assert(grid.spec_seq().take(grid.spec_seq().len() as int) =~= grid.spec_seq());
            lemma_population_counts(&*tree);
        }
        World { root: tree, ngen: 0, bitcount }
    }

    /// The number of generations that have passed.
    pub fn generation(&self) -> (n: u64)
        ensures
            n == self.spec_generation(),
    {
        self.ngen
    }

    /// The tree that holds the cells, shared with this world.
    pub fn root(&self) -> (r: Rc<CC>)
        ensures
            *r == self.spec_root(),
    {
        self.root.clone()
    }

    /// The number of live cells.
    pub fn population(&self) -> (p: i64)
        ensures
            p == self.spec_root().population(),
    {
        self.root.population()
    }

    /// What `get_bit` returns: what the tree holds at column `x`, row `y`
    /// where both are in reach, and nothing where one is not.
    pub open spec fn spec_get_bit(&self, x: i32, y: i32) -> u32 {
        if in_reach(self.spec_root().level() as int, x as int) && in_reach(
            self.spec_root().level() as int,
            y as int,
        ) {
            self.spec_root().get_bit(x, y)
        } else {
            0
        }
    }

    /// One where the cell at column `x`, row `y` is alive, else nothing. A
    /// position out of reach is dead, and the read grows nothing; a position
    /// in reach is read from the tree.
    #[verifier::when_used_as_spec(spec_get_bit)]
    pub fn get_bit(&self, x: i32, y: i32) -> (bit: u32)
        requires
            self.wf(),
        ensures
            bit == self.spec_get_bit(x, y),
            bit == if in_reach(self.spec_root().level() as int, x as int) && in_reach(
                self.spec_root().level() as int,
                y as int,
            ) && self@.contains(
                (
                    clamp(self.spec_root().level() as int, x as int),
                    clamp(self.spec_root().level() as int, y as int),
                ),
            ) {
                1u32
            } else {
                0u32
            },
    {
        if reaches(self.root.level(), x, y) {
            self.root.get_bit(x, y)
        } else {
            0
        }
    }

    /// The world with the cell at column `x`, row `y` alive, at the same
    /// generation. The tree first grows until both coordinates are in reach.
    /// A position that the grown tree does not span is taken for the nearest
    /// cell of its edge, in this write as in a later read.
    pub fn set_bit(&self, x: i32, y: i32) -> (world: World)
        requires
            self.wf(),
        ensures
            world.wf(),
            world.spec_generation() == self.spec_generation(),
            world.table() == self.table(),
            world.spec_root().level() == grown_level(
                self.spec_root().level() as int,
                x as int,
                y as int,
            ),
            in_reach(world.spec_root().level() as int, x as int),
            in_reach(world.spec_root().level() as int, y as int),
            world@ == self@.insert(
                (
                    clamp(world.spec_root().level() as int, x as int),
                    clamp(world.spec_root().level() as int, y as int),
                ),
            ),
            world.spec_root().population() == self.spec_root().population() + 1 - self.get_bit(
                x,
                y,
            ),
            world.get_bit(x, y) == 1,
            forall|a: i32, b: i32|
                world.get_bit(a, b) == if in_reach(world.spec_root().level() as int, a as int)
                    && in_reach(world.spec_root().level() as int, b as int) && (same_cell(
                    world.spec_root().level() as int,
                    x as int,
                    y as int,
                    a as int,
                    b as int,
                ) || self@.contains(
                    (
                        clamp(world.spec_root().level() as int, a as int),
                        clamp(world.spec_root().level() as int, b as int),
                    ),
                )) {
                    1u32
                } else {
                    0u32
                },
            forall|a: i32, b: i32|
                covers(self.spec_root().level() as int, a as int, b as int) && !same_cell(
                    world.spec_root().level() as int,
                    x as int,
                    y as int,
                    a as int,
                    b as int,
                ) ==> world.get_bit(a, b) == self.get_bit(a, b),
            forall|a: i32, b: i32|
                !(in_reach(world.spec_root().level() as int, a as int) && in_reach(
                    world.spec_root().level() as int,
                    b as int,
                )) ==> world.get_bit(a, b) == 0 && self.get_bit(a, b) == 0,
    {
        let mut root = self.root.clone();
        while !reaches(root.level(), x, y)
            invariant
                self.wf(),
                root.wf(),
                self.spec_root().level() <= root.level() <= MAX_LEVEL,
                root@ == self@,
                root.population() == self.spec_root().population(),
                forall|a: int, b: int|
                    root.alive_at(a, b) == (self.spec_root().alive_at(a, b) && (root.level()
                        == self.spec_root().level() || covers(
                        self.spec_root().level() as int,
                        a,
                        b,
                    ))),
                grown_level(root.level() as int, x as int, y as int) == grown_level(
                    self.spec_root().level() as int,
                    x as int,
                    y as int,
                ),
            decreases MAX_LEVEL - root.level(),
        {
            let ghost before = root;
            proof {
                lemma_all_in_reach(x);
                lemma_all_in_reach(y);
            }
            root = root.expand_universe();
            proof {
                assert forall|a: int, b: int|
                    root.alive_at(a, b) == (self.spec_root().alive_at(a, b) && covers(
                        self.spec_root().level() as int,
                        a,
                        b,
                    )) by {
                    lemma_covers_grows(
                        self.spec_root().level() as int,
                        before.level() as int,
                        a,
                        b,
                    );
                }
            }
        }
        let ghost grown = root;
        let root = root.set_bit(x, y);
        proof {
            let l = self.spec_root().level() as int;
            let g = grown.level() as int;
            lemma_all_in_reach(x);
            lemma_all_in_reach(y);
            lemma_reach_grows(l, g, x as int);
            lemma_reach_grows(l, g, y as int);
            assert forall|a: i32, b: i32|
                covers(l, a as int, b as int) && !same_cell(
                    g,
                    x as int,
                    y as int,
                    a as int,
                    b as int,
                ) implies root.alive_at(a as int, b as int) == self.spec_root().alive_at(
                    a as int,
                    b as int,
                ) && in_reach(l, a as int) && in_reach(l, b as int) && in_reach(g, a as int)
                && in_reach(g, b as int) by {
                lemma_reach_grows(l, l, a as int);
                lemma_reach_grows(l, l, b as int);
                lemma_reach_grows(l, g, a as int);
                lemma_reach_grows(l, g, b as int);
            }
            assert forall|a: i32, b: i32|
                root.alive_at(a as int, b as int) == (same_cell(
                    g,
                    x as int,
                    y as int,
                    a as int,
                    b as int,
                ) || self@.contains((clamp(g, a as int), clamp(g, b as int)))) by {
                lemma_alive_at_clamps(&*grown, a as int, b as int);
                lemma_exp2_positive(g - 1);
            }
            assert forall|a: i32, b: i32|
                !(in_reach(g, a as int) && in_reach(g, b as int)) implies !(in_reach(l, a as int)
                && in_reach(l, b as int)) by {
                lemma_reach_grows(l, g, a as int);
                lemma_reach_grows(l, g, b as int);
            }
        }
        World { root, ngen: self.ngen, bitcount: self.bitcount.clone() }
    }

    /// The world one generation on. The tree first grows until its level is
    /// above `STEP_LEVEL`; the new tree is its middle, one level down, and holds
    /// the next generation as far as it spans. Where the whole next generation
    /// lies inside it, it holds the whole.
    pub fn step(&self) -> (world: World)
        requires
            self.wf(),
            self.spec_generation() < u64::MAX,
        ensures
            world.wf(),
            world.spec_generation() == self.spec_generation() + 1,
            world.table() == self.table(),
            world.spec_root().level() == stepped_level(self.spec_root().level() as int),
            world@ == stepped(self@, self.spec_root().level() as int),
            life_step(self@).subset_of(region(world.spec_root().level() as int)) ==> world@
                == life_step(self@),
            self.spec_root().population() == 0 ==> {
                &&& world.spec_root().population() == 0
                &&& world@ == Set::<(int, int)>::empty()
                &&& forall|x: i32, y: i32| world.get_bit(x, y) == 0
            },
    {
        let mut root = self.root.clone();
        while root.level() <= STEP_LEVEL
            invariant
                root.wf(),
                START_LEVEL <= root.level() <= MAX_LEVEL,
                root.level() == self.spec_root().level() || (self.spec_root().level()
                    <= STEP_LEVEL && root.level() == STEP_LEVEL + 1),
                root@ == self@,
                root.population() == self.spec_root().population(),
            decreases STEP_LEVEL + 1 - root.level(),
        {
            root = root.expand_universe();
        }
        let root = self.next_generation(root);
        let next = self.ngen + 1;
        let world = World { root, ngen: next, bitcount: self.bitcount.clone() };
        proof {
            if life_step(self@).subset_of(region(root.level() as int)) {
                assert(root@ =~= life_step(self@));
            }
            if self.spec_root().population() == 0 {
                world.lemma_empty_reads_dead();
            }
        }
        world
    }

    /// The world `count` generations on: `count` steps, one after another.
    pub fn advance(&self, count: u32) -> (world: World)
        requires
            self.wf(),
            self.spec_generation() + count <= u64::MAX,
        ensures
            world.wf(),
            world.spec_generation() == self.spec_generation() + count,
            world.table() == self.table(),
            world.spec_root().level() == advanced_level(
                self.spec_root().level() as int,
                count as nat,
            ),
            world@ == advanced(self@, self.spec_root().level() as int, count as nat),
            self.spec_root().population() == 0 ==> {
                &&& world.spec_root().population() == 0
                &&& world@ == Set::<(int, int)>::empty()
                &&& forall|x: i32, y: i32| world.get_bit(x, y) == 0
            },
    {
        let mut world = World {
            root: self.root.clone(),
            ngen: self.ngen,
            bitcount: self.bitcount.clone(),
        };
        let mut done: u32 = 0;
        while done < count
            invariant
                done <= count,
                world.wf(),
                world.table() == self.table(),
                world.spec_generation() == self.spec_generation() + done,
                self.spec_generation() + count <= u64::MAX,
                self.spec_root().population() == 0 ==> world.spec_root().population() == 0,
                advanced_level(world.spec_root().level() as int, (count - done) as nat)
                    == advanced_level(self.spec_root().level() as int, count as nat),
                advanced(world@, world.spec_root().level() as int, (count - done) as nat)
                    == advanced(self@, self.spec_root().level() as int, count as nat),
            decreases count - done,
        {
            world = world.step();
            done = done + 1;
        }
        proof {
            if self.spec_root().population() == 0 {
                world.lemma_empty_reads_dead();
            }
        }
        world
    }

    /// The live cells, each once, by column and row.
    pub fn live_cells(&self) -> (cells: Vec<Cell>)
        requires
            self.wf(),
        ensures
            forall|i: int| 0 <= i < cells.len() ==> self@.contains(#[trigger] cells[i]@),
            forall|x: int, y: int|
                self@.contains((x, y)) ==> exists|i: int|
                    0 <= i < cells.len() && #[trigger] cells[i]@ == (x, y),
            forall|i: int, j: int|
                0 <= i < j < cells.len() ==> #[trigger] cells[i]@ != #[trigger] cells[j]@,
            cells.len() == self.spec_root().population(),
    {
        self.root.live_cells()
    }

    /// The block that is the centre of a window one generation on: the table's
    /// answer for the window bits of `mask`.
    pub fn one_gen(&self, mask: u32) -> (r: Rc<CC>)
        requires
            self.table().wf(),
        ensures
            *r == CC::Leaf(next_state(mask & WINDOW_BITS)),
    {
        proof {
            assert(mask & 0x777 < 0x778) by (bit_vector);
        }
        match self.bitcount.get(mask & WINDOW_BITS) {
            Some(alive) => leaf(alive),
            None => vstd::pervasive::unreached(),
        }
    }

    /// The four cells at the centre of a block of level 2, one generation on:
    /// every cell of the block is read, and the table is asked for each of the
    /// four windows around the centre.
    pub fn slow_simulation(&self, root: Rc<CC>) -> (r: Rc<CC>)
        requires
            self.table().wf(),
            root.wf(),
            root.level() == 2,
        ensures
            r.wf(),
            r.level() == 1,
            r@ == life_step(root@).intersect(region(1)),
    {
        let mut allbits: u32 = 0;
        for y in -2i32..2
            invariant
                root.wf(),
                root.level() == 2,
                allbits == packed(root@, 4 * (y + 2)),
        {
            for x in -2i32..2
                invariant
                    root.wf(),
                    root.level() == 2,
                    -2 <= y < 2,
                    allbits == packed(root@, 4 * (y + 2) + (x + 2)),
            {
                let bit = root.get_bit(x, y);
                proof {
                    let k = 4 * (y + 2) + (x + 2);
                    lemma_packed_bound(root@, k);
                    reveal_with_fuel(exp2, 2);
                    lemma_exp2_monotonic(k, 15);
                    assert(exp2(15) == 0x8000) by {
                        lemma_exp2_is_pow2(15);
                        vstd::arithmetic::power2::lemma2_to64();
                    }
                    assert((allbits << 1) | bit == 2 * allbits + bit) by (bit_vector)
                        requires
                            allbits < 0x8000,
                            bit <= 1,
                    ;
                    lemma_bit_at(root@, x as int, y as int);
                    assert(k % 4 - 2 == x && k / 4 - 2 == y);
                    assert(clamp(2, x as int) == x && clamp(2, y as int) == y);
                    assert(packed(root@, k + 1) == 2 * packed(root@, k) + bit_at(
                        root@,
                        x as int,
                        y as int,
                    ));
                }
                allbits = (allbits << 1) | bit;
            }
        }
        let r = node(
            self.one_gen(allbits >> 5),
            self.one_gen(allbits >> 4),
            self.one_gen(allbits >> 1),
            self.one_gen(allbits),
        );
        proof {
            lemma_packed_windows(root@, allbits);
            lemma_window_next(root@, -1, -1);
            lemma_window_next(root@, 0, -1);
            lemma_window_next(root@, -1, 0);
            lemma_window_next(root@, 0, 0);
            lemma_base_case(&*root, &*r);
        }
        r
    }

    /// The middle of `root` one generation on: a block one level below
    /// `root` that spans the inner half of each side. An empty block is
    /// answered at once, a block of level 2 by `slow_simulation`; a larger one
    /// is cut into four overlapping blocks one level down, each of which is
    /// advanced in turn.
    pub fn next_generation(&self, root: Rc<CC>) -> (r: Rc<CC>)
        requires
            self.table().wf(),
            root.wf(),
            root.level() >= 2 || root.population() == 0,
        ensures
            r.wf(),
            r.level() == if root.level() == 0 {
                0
            } else {
                root.level() - 1
            },
            r@ == life_step(root@).intersect(region(r.level() as int)),
            root.population() == 0 ==> r.population() == 0,
        decreases root.level(),
    {
        if root.population() == 0 {
            let r = root.nw();
            proof {
                lemma_empty_advances(&*root, &*r);
            }
            r
        } else if root.level() == 2 {
            self.slow_simulation(root)
        } else {
            proof {
                reveal_with_fuel(CC::wf, 4);
            }
            let n00 = node(
                root.nw().nw().se(),
                root.nw().ne().sw(),
                root.nw().sw().ne(),
                root.nw().se().nw(),
            );
            let n01 = node(
                root.nw().ne().se(),
                root.ne().nw().sw(),
                root.nw().se().ne(),
                root.ne().sw().nw(),
            );
            let n02 = node(
                root.ne().nw().se(),
                root.ne().ne().sw(),
                root.ne().sw().ne(),
                root.ne().se().nw(),
            );
            let n10 = node(
                root.nw().sw().se(),
                root.nw().se().sw(),
                root.sw().nw().ne(),
                root.sw().ne().nw(),
            );
            let n11 = node(
                root.nw().se().se(),
                root.ne().sw().sw(),
                root.sw().ne().ne(),
                root.se().nw().nw(),
            );
            let n12 = node(
                root.ne().sw().se(),
                root.ne().se().sw(),
                root.se().nw().ne(),
                root.se().ne().nw(),
            );
            let n20 = node(
                root.sw().nw().se(),
                root.sw().ne().sw(),
                root.sw().sw().ne(),
                root.sw().se().nw(),
            );
            let n21 = node(
                root.sw().ne().se(),
                root.se().nw().sw(),
                root.sw().se().ne(),
                root.se().sw().nw(),
            );
            let n22 = node(
                root.se().nw().se(),
                root.se().ne().sw(),
                root.se().sw().ne(),
                root.se().se().nw(),
            );
            proof {
                assert(*n00 == inner(*root, 0, 0));
                assert(*n01 == inner(*root, 0, 1));
                assert(*n02 == inner(*root, 0, 2));
                assert(*n10 == inner(*root, 1, 0));
                assert(*n11 == inner(*root, 1, 1));
                assert(*n12 == inner(*root, 1, 2));
                assert(*n20 == inner(*root, 2, 0));
                assert(*n21 == inner(*root, 2, 1));
                assert(*n22 == inner(*root, 2, 2));
            }

            let nw = node(n00.clone(), n01.clone(), n10.clone(), n11.clone());
            let ne = node(n01.clone(), n02.clone(), n11.clone(), n12.clone());
            let sw = node(n10.clone(), n11.clone(), n20.clone(), n21.clone());
            let se = node(n11.clone(), n12.clone(), n21.clone(), n22.clone());
            proof {
                assert(*nw == window(*root, 0, 0));
                assert(*ne == window(*root, 0, 1));
                assert(*sw == window(*root, 1, 0));
                assert(*se == window(*root, 1, 1));
            }

            let r = node(
                self.next_generation(nw),
                self.next_generation(ne),
                self.next_generation(sw),
                self.next_generation(se),
            );
            proof {
                lemma_recombine(&*root, &*r);
            }
            r
        }
    }
}

} // verus!
