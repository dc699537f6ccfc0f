//! Why a step is one generation of the rule: the sixteen cells of a smallest
//! block packed into windows, and the four advanced windows of a larger block
//! put together.

use crate::geometry::{covers, exp2, lemma_exp2_positive, quadrant_offset, region};
use crate::life::{bit_at, lemma_bit_at, lemma_empty_stays_empty, life_step, next_alive};
use crate::node::{quadrant, spec_node, CC};
use crate::node_lemmas::{lemma_empty_is_dead, lemma_population_bounds};
use crate::table::{window_at, WINDOW_BITS};
use crate::windows::{lemma_window, window, window_centre};
use std::rc::Rc;
use vstd::prelude::*;

verus! {

/// The sixteen cells of a block of level 2, row by row from the north-west
/// corner, of which the first `k` are packed into a number: each cell is one
/// bit, the first cell the highest.
pub open spec fn packed(cells: Set<(int, int)>, k: int) -> int
    decreases k,
{
    if k <= 0 {
        0
    } else {
        2 * packed(cells, k - 1) + bit_at(cells, (k - 1) % 4 - 2, (k - 1) / 4 - 2)
    }
}

/// The first `k` cells fill `k` bits.
pub proof fn lemma_packed_bound(cells: Set<(int, int)>, k: int)
    requires
        0 <= k,
    ensures
        0 <= packed(cells, k) < exp2(k),
    decreases k,
{
    if k > 0 {
        lemma_packed_bound(cells, k - 1);
        lemma_bit_at(cells, (k - 1) % 4 - 2, (k - 1) / 4 - 2);
    }
}

/// Shifting the sixteen packed cells and masking them with the window bits
/// leaves a window: by 5 the one around the north-west cell of the centre, by
/// 4 the north-east, by 1 the south-west, by 0 the south-east.
proof fn lemma_packed_bits(
    c0: u32,
    c1: u32,
    c2: u32,
    c3: u32,
    c4: u32,
    c5: u32,
    c6: u32,
    c7: u32,
    c8: u32,
    c9: u32,
    c10: u32,
    c11: u32,
    c12: u32,
    c13: u32,
    c14: u32,
    c15: u32,
    allbits: u32,
)
    by (bit_vector)
    requires
        c0 <= 1,
        c1 <= 1,
        c2 <= 1,
        c3 <= 1,
        c4 <= 1,
        c5 <= 1,
        c6 <= 1,
        c7 <= 1,
        c8 <= 1,
        c9 <= 1,
        c10 <= 1,
        c11 <= 1,
        c12 <= 1,
        c13 <= 1,
        c14 <= 1,
        c15 <= 1,
        allbits == 32768 * c0 + 16384 * c1 + 8192 * c2 + 4096 * c3 + 2048 * c4 + 1024 * c5 + 512
            * c6 + 256 * c7 + 128 * c8 + 64 * c9 + 32 * c10 + 16 * c11 + 8 * c12 + 4 * c13 + 2
            * c14 + c15,
    ensures
        (allbits >> 5) & 0x777 == 1024 * c0 + 512 * c1 + 256 * c2 + 64 * c4 + 32 * c5 + 16 * c6 + 4
            * c8 + 2 * c9 + c10,
        (allbits >> 4) & 0x777 == 1024 * c1 + 512 * c2 + 256 * c3 + 64 * c5 + 32 * c6 + 16 * c7 + 4
            * c9 + 2 * c10 + c11,
        (allbits >> 1) & 0x777 == 1024 * c4 + 512 * c5 + 256 * c6 + 64 * c8 + 32 * c9 + 16 * c10
            + 4 * c12 + 2 * c13 + c14,
        allbits & 0x777 == 1024 * c5 + 512 * c6 + 256 * c7 + 64 * c9 + 32 * c10 + 16 * c11 + 4
            * c13 + 2 * c14 + c15,
{
}

/// The same of sixteen bits that are numbers rather than cells.
proof fn lemma_sum_windows(
    c0: int,
    c1: int,
    c2: int,
    c3: int,
    c4: int,
    c5: int,
    c6: int,
    c7: int,
    c8: int,
    c9: int,
    c10: int,
    c11: int,
    c12: int,
    c13: int,
    c14: int,
    c15: int,
    allbits: u32,
)
    requires
        0 <= c0 <= 1,
        0 <= c1 <= 1,
        0 <= c2 <= 1,
        0 <= c3 <= 1,
        0 <= c4 <= 1,
        0 <= c5 <= 1,
        0 <= c6 <= 1,
        0 <= c7 <= 1,
        0 <= c8 <= 1,
        0 <= c9 <= 1,
        0 <= c10 <= 1,
        0 <= c11 <= 1,
        0 <= c12 <= 1,
        0 <= c13 <= 1,
        0 <= c14 <= 1,
        0 <= c15 <= 1,
        allbits == 32768 * c0 + 16384 * c1 + 8192 * c2 + 4096 * c3 + 2048 * c4 + 1024 * c5 + 512
            * c6 + 256 * c7 + 128 * c8 + 64 * c9 + 32 * c10 + 16 * c11 + 8 * c12 + 4 * c13 + 2
            * c14 + c15,
    ensures
        (allbits >> 5) & 0x777 == 1024 * c0 + 512 * c1 + 256 * c2 + 64 * c4 + 32 * c5 + 16 * c6 + 4
            * c8 + 2 * c9 + c10,
        (allbits >> 4) & 0x777 == 1024 * c1 + 512 * c2 + 256 * c3 + 64 * c5 + 32 * c6 + 16 * c7 + 4
            * c9 + 2 * c10 + c11,
        (allbits >> 1) & 0x777 == 1024 * c4 + 512 * c5 + 256 * c6 + 64 * c8 + 32 * c9 + 16 * c10
            + 4 * c12 + 2 * c13 + c14,
        allbits & 0x777 == 1024 * c5 + 512 * c6 + 256 * c7 + 64 * c9 + 32 * c10 + 16 * c11 + 4
            * c13 + 2 * c14 + c15,
{
    lemma_packed_bits(
        c0 as u32,
        c1 as u32,
        c2 as u32,
        c3 as u32,
        c4 as u32,
        c5 as u32,
        c6 as u32,
        c7 as u32,
        c8 as u32,
        c9 as u32,
        c10 as u32,
        c11 as u32,
        c12 as u32,
        c13 as u32,
        c14 as u32,
        c15 as u32,
        allbits,
    );
}

/// The sixteen packed cells, written out.
pub open spec fn packed_sum(cells: Set<(int, int)>) -> int {
    32768 * bit_at(cells, -2, -2) + 16384 * bit_at(cells, -1, -2)
        + 8192 * bit_at(cells, 0, -2) + 4096 * bit_at(cells, 1, -2)
        + 2048 * bit_at(cells, -2, -1) + 1024 * bit_at(cells, -1, -1)
        + 512 * bit_at(cells, 0, -1) + 256 * bit_at(cells, 1, -1)
        + 128 * bit_at(cells, -2, 0) + 64 * bit_at(cells, -1, 0)
        + 32 * bit_at(cells, 0, 0) + 16 * bit_at(cells, 1, 0)
        + 8 * bit_at(cells, -2, 1) + 4 * bit_at(cells, -1, 1)
        + 2 * bit_at(cells, 0, 1) + bit_at(cells, 1, 1)
}

/// Packing the sixteen cells one by one gives their sum by place value.
pub proof fn lemma_packed_sum(cells: Set<(int, int)>)
    ensures
        packed(cells, 16) == packed_sum(cells),
{
    assert(packed(cells, 0) == 0);
    assert(packed(cells, 1) == 2 * packed(cells, 0) + bit_at(cells, -2, -2));
    assert(packed(cells, 2) == 2 * packed(cells, 1) + bit_at(cells, -1, -2));
    assert(packed(cells, 3) == 2 * packed(cells, 2) + bit_at(cells, 0, -2));
    assert(packed(cells, 4) == 2 * packed(cells, 3) + bit_at(cells, 1, -2));
    assert(packed(cells, 5) == 2 * packed(cells, 4) + bit_at(cells, -2, -1));
    assert(packed(cells, 6) == 2 * packed(cells, 5) + bit_at(cells, -1, -1));
    assert(packed(cells, 7) == 2 * packed(cells, 6) + bit_at(cells, 0, -1));
    assert(packed(cells, 8) == 2 * packed(cells, 7) + bit_at(cells, 1, -1));
    assert(packed(cells, 9) == 2 * packed(cells, 8) + bit_at(cells, -2, 0));
    assert(packed(cells, 10) == 2 * packed(cells, 9) + bit_at(cells, -1, 0));
    assert(packed(cells, 11) == 2 * packed(cells, 10) + bit_at(cells, 0, 0));
    assert(packed(cells, 12) == 2 * packed(cells, 11) + bit_at(cells, 1, 0));
    assert(packed(cells, 13) == 2 * packed(cells, 12) + bit_at(cells, -2, 1));
    assert(packed(cells, 14) == 2 * packed(cells, 13) + bit_at(cells, -1, 1));
    assert(packed(cells, 15) == 2 * packed(cells, 14) + bit_at(cells, 0, 1));
    assert(packed(cells, 16) == 2 * packed(cells, 15) + bit_at(cells, 1, 1));
}

/// Of the sixteen packed cells of a block, the shifts by 5, 4, 1 and 0 hold
/// the windows around the four cells at the block's centre.
pub proof fn lemma_packed_windows(cells: Set<(int, int)>, allbits: u32)
    requires
        allbits == packed(cells, 16),
    ensures
        (allbits >> 5) & WINDOW_BITS == window_at(cells, -1, -1),
        (allbits >> 4) & WINDOW_BITS == window_at(cells, 0, -1),
        (allbits >> 1) & WINDOW_BITS == window_at(cells, -1, 0),
        allbits & WINDOW_BITS == window_at(cells, 0, 0),
{
    lemma_packed_sum(cells);
    assert forall|x: int, y: int| 0 <= #[trigger] bit_at(cells, x, y) <= 1 by {
        lemma_bit_at(cells, x, y);
    }
    lemma_sum_windows(
        bit_at(cells, -2, -2),
        bit_at(cells, -1, -2),
        bit_at(cells, 0, -2),
        bit_at(cells, 1, -2),
        bit_at(cells, -2, -1),
        bit_at(cells, -1, -1),
        bit_at(cells, 0, -1),
        bit_at(cells, 1, -1),
        bit_at(cells, -2, 0),
        bit_at(cells, -1, 0),
        bit_at(cells, 0, 0),
        bit_at(cells, 1, 0),
        bit_at(cells, -2, 1),
        bit_at(cells, -1, 1),
        bit_at(cells, 0, 1),
        bit_at(cells, 1, 1),
        allbits,
    );
}

/// A block of level 1 whose four cells are the four cells at the centre of a
/// block of level 2 one generation on is that centre one generation on.
pub proof fn lemma_base_case(root: &CC, r: &CC)
    requires
        root.wf(),
        root.level() == 2,
        *r == spec_node(
            Rc::new(CC::Leaf(next_alive(root@, -1, -1))),
            Rc::new(CC::Leaf(next_alive(root@, 0, -1))),
            Rc::new(CC::Leaf(next_alive(root@, -1, 0))),
            Rc::new(CC::Leaf(next_alive(root@, 0, 0))),
        ),
    ensures
        r@ == life_step(root@).intersect(region(1)),
{
    reveal_with_fuel(exp2, 3);
    reveal_with_fuel(CC::alive_at, 2);
    assert forall|x: int, y: int| -1 <= x <= 0 && -1 <= y <= 0 implies r.alive_at(x, y)
        == next_alive(root@, x, y) by {
    }
    assert(r@ =~= life_step(root@).intersect(region(1)));
}

/// Whether two sets of cells agree on a cell of each and on the eight cells
/// around it.
pub open spec fn same_hood(
    a: Set<(int, int)>,
    ax: int,
    ay: int,
    b: Set<(int, int)>,
    bx: int,
    by: int,
) -> bool {
    &&& a.contains((ax - 1, ay - 1)) == b.contains((bx - 1, by - 1))
    &&& a.contains((ax, ay - 1)) == b.contains((bx, by - 1))
    &&& a.contains((ax + 1, ay - 1)) == b.contains((bx + 1, by - 1))
    &&& a.contains((ax - 1, ay)) == b.contains((bx - 1, by))
    &&& a.contains((ax, ay)) == b.contains((bx, by))
    &&& a.contains((ax + 1, ay)) == b.contains((bx + 1, by))
    &&& a.contains((ax - 1, ay + 1)) == b.contains((bx - 1, by + 1))
    &&& a.contains((ax, ay + 1)) == b.contains((bx, by + 1))
    &&& a.contains((ax + 1, ay + 1)) == b.contains((bx + 1, by + 1))
}

/// Where two sets of cells agree on a cell of each and on the eight cells
/// around it, the two cells are the same one generation on.
pub proof fn lemma_same_hood(
    a: Set<(int, int)>,
    ax: int,
    ay: int,
    b: Set<(int, int)>,
    bx: int,
    by: int,
)
    requires
        same_hood(a, ax, ay, b, bx, by),
    ensures
        next_alive(a, ax, ay) == next_alive(b, bx, by),
{
    lemma_bit_at(a, ax - 1, ay - 1);
    lemma_bit_at(b, bx - 1, by - 1);
    lemma_bit_at(a, ax, ay - 1);
    lemma_bit_at(b, bx, by - 1);
    lemma_bit_at(a, ax + 1, ay - 1);
    lemma_bit_at(b, bx + 1, by - 1);
    lemma_bit_at(a, ax - 1, ay);
    lemma_bit_at(b, bx - 1, by);
    lemma_bit_at(a, ax + 1, ay);
    lemma_bit_at(b, bx + 1, by);
    lemma_bit_at(a, ax - 1, ay + 1);
    lemma_bit_at(b, bx - 1, by + 1);
    lemma_bit_at(a, ax, ay + 1);
    lemma_bit_at(b, bx, by + 1);
    lemma_bit_at(a, ax + 1, ay + 1);
    lemma_bit_at(b, bx + 1, by + 1);
    assert(bit_at(a, ax - 1, ay - 1) == bit_at(b, bx - 1, by - 1));
    assert(bit_at(a, ax, ay - 1) == bit_at(b, bx, by - 1));
    assert(bit_at(a, ax + 1, ay - 1) == bit_at(b, bx + 1, by - 1));
    assert(bit_at(a, ax - 1, ay) == bit_at(b, bx - 1, by));
    assert(bit_at(a, ax + 1, ay) == bit_at(b, bx + 1, by));
    assert(bit_at(a, ax - 1, ay + 1) == bit_at(b, bx - 1, by + 1));
    assert(bit_at(a, ax, ay + 1) == bit_at(b, bx, by + 1));
    assert(bit_at(a, ax + 1, ay + 1) == bit_at(b, bx + 1, by + 1));
}

/// An empty block stays empty: its north-west quadrant is its middle one
/// generation on.
pub proof fn lemma_empty_advances(root: &CC, r: &CC)
    requires
        root.wf(),
        root.population() == 0,
        *r == root.spec_nw(),
    ensures
        r.wf(),
        r.level() == if root.level() == 0 {
            0
        } else {
            root.level() - 1
        },
        r.population() == 0,
        r@ == life_step(root@).intersect(region(r.level() as int)),
{
    lemma_population_bounds(&root.spec_nw());
    lemma_population_bounds(&root.spec_ne());
    lemma_population_bounds(&root.spec_sw());
    lemma_population_bounds(&root.spec_se());
    assert forall|x: int, y: int| !root.alive_at(x, y) && !r.alive_at(x, y) by {
        lemma_empty_is_dead(root, x, y);
        lemma_empty_is_dead(r, x, y);
    }
    assert(root@ =~= Set::<(int, int)>::empty());
    lemma_empty_stays_empty();
    assert(r@ =~= life_step(root@).intersect(region(r.level() as int)));
}

/// The cells that a block `window` holds are the root's, seen from the
/// window's centre.
pub proof fn lemma_window_view(root: &CC, i: int, j: int, u: int, v: int)
    requires
        root.wf(),
        root.level() >= 3,
        0 <= i < 2,
        0 <= j < 2,
        covers(root.level() - 1, u, v),
    ensures
        window(*root, i, j)@.contains((u, v)) == root@.contains(
            (
                u + window_centre(exp2(root.level() - 3), j),
                v + window_centre(exp2(root.level() - 3), i),
            ),
        ),
{
    lemma_window(root, i, j, u, v);
    lemma_exp2_positive(root.level() - 3);
}

/// The four blocks `window`, each advanced by one generation, make up the
/// root's middle advanced by one generation.
pub proof fn lemma_recombine(root: &CC, r: &CC)
    requires
        root.wf(),
        root.level() >= 3,
        r.wf(),
        r.level() == root.level() - 1,
        r.spec_nw().level() == root.level() - 2,
        r.spec_nw()@ == life_step(window(*root, 0, 0)@).intersect(region(root.level() - 2)),
        r.spec_ne()@ == life_step(window(*root, 0, 1)@).intersect(region(root.level() - 2)),
        r.spec_sw()@ == life_step(window(*root, 1, 0)@).intersect(region(root.level() - 2)),
        r.spec_se()@ == life_step(window(*root, 1, 1)@).intersect(region(root.level() - 2)),
    ensures
        r@ == life_step(root@).intersect(region(root.level() - 1)),
{
    let l = root.level() as int;
    let q = exp2(l - 3);
    lemma_exp2_positive(l - 3);
    assert(quadrant_offset(l - 1) == q);
    assert forall|x: int, y: int| covers(l - 1, x, y) implies r.alive_at(x, y) == next_alive(
        root@,
        x,
        y,
    ) by {
        let i: int = if y < 0 {
            0
        } else {
            1
        };
        let j: int = if x < 0 {
            0
        } else {
            1
        };
        let u = x - window_centre(q, j);
        let v = y - window_centre(q, i);
        let part = quadrant(*r, i, j);
        let win = window(*root, i, j);
        assert(r.alive_at(x, y) == part.alive_at(u, v));
        assert(covers(l - 2, u, v));
        assert(part@.contains((u, v)) == part.alive_at(u, v));
        assert(part@ == life_step(win@).intersect(region(l - 2)));
        assert(part@.contains((u, v)) == next_alive(win@, u, v));
        lemma_window_view(root, i, j, u - 1, v - 1);
        lemma_window_view(root, i, j, u, v - 1);
        lemma_window_view(root, i, j, u + 1, v - 1);
        lemma_window_view(root, i, j, u - 1, v);
        lemma_window_view(root, i, j, u, v);
        lemma_window_view(root, i, j, u + 1, v);
        lemma_window_view(root, i, j, u - 1, v + 1);
        lemma_window_view(root, i, j, u, v + 1);
        lemma_window_view(root, i, j, u + 1, v + 1);
        lemma_same_hood(win@, u, v, root@, x, y);
    }
    assert(r@ =~= life_step(root@).intersect(region(l - 1)));
}

} // verus!
