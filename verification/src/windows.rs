//! The blocks into which a step cuts a tree: nine blocks two levels down, a
//! quarter of the side apart, and the four overlapping blocks one level down
//! that are made of them. Each shows the tree's cells around its own centre.

use crate::geometry::{covers, exp2, lemma_exp2_positive, quadrant_offset, MAX_LEVEL};
use crate::node::{quadrant, spec_node, CC};
use crate::node_lemmas::lemma_node_is_well_formed;
use std::rc::Rc;
use vstd::prelude::*;

verus! {

/// The block as large as each of four blocks that meet in a point, centred on
/// that point: it is made of the four quadrants that touch the point.
pub open spec fn centred(nw: CC, ne: CC, sw: CC, se: CC) -> CC {
    spec_node(
        Rc::new(nw.spec_se()),
        Rc::new(ne.spec_sw()),
        Rc::new(sw.spec_ne()),
        Rc::new(se.spec_nw()),
    )
}

/// Where four blocks of one level meet, the block centred on that point shows
/// what the block made of the four shows around its centre.
pub proof fn lemma_centred(nw: &CC, ne: &CC, sw: &CC, se: &CC, x: int, y: int)
    requires
        nw.wf(),
        ne.wf(),
        sw.wf(),
        se.wf(),
        1 <= nw.level() < MAX_LEVEL,
        ne.level() == nw.level(),
        sw.level() == nw.level(),
        se.level() == nw.level(),
        covers(nw.level() as int, x, y),
    ensures
        centred(*nw, *ne, *sw, *se).wf(),
        centred(*nw, *ne, *sw, *se).level() == nw.level(),
        centred(*nw, *ne, *sw, *se).alive_at(x, y) == spec_node(
            Rc::new(*nw),
            Rc::new(*ne),
            Rc::new(*sw),
            Rc::new(*se),
        ).alive_at(x, y),
{
    let k = nw.level() as int;
    let d = quadrant_offset(k);
    let big = exp2(k - 1);
    lemma_exp2_positive(k - 2);
    assert(quadrant_offset(k + 1) == big);
    assert(k == 1 || big == 2 * d);
    reveal_with_fuel(CC::wf, 2);
    reveal_with_fuel(CC::alive_at, 2);
    lemma_node_is_well_formed(&nw.spec_se(), &ne.spec_sw(), &sw.spec_ne(), &se.spec_nw());
    let small = centred(*nw, *ne, *sw, *se);
    let large = spec_node(Rc::new(*nw), Rc::new(*ne), Rc::new(*sw), Rc::new(*se));
    if x < 0 {
        if y < 0 {
            assert(small.alive_at(x, y) == nw.spec_se().alive_at(x + d, y + d));
            assert(large.alive_at(x, y) == nw.alive_at(x + big, y + big));
            assert(nw.alive_at(x + big, y + big) == nw.spec_se().alive_at(
                x + big - d,
                y + big - d,
            ));
        } else {
            assert(small.alive_at(x, y) == sw.spec_ne().alive_at(x + d, y - d));
            assert(large.alive_at(x, y) == sw.alive_at(x + big, y - big));
            assert(sw.alive_at(x + big, y - big) == sw.spec_ne().alive_at(
                x + big - d,
                y - big + d,
            ));
        }
    } else {
        if y < 0 {
            assert(small.alive_at(x, y) == ne.spec_sw().alive_at(x - d, y + d));
            assert(large.alive_at(x, y) == ne.alive_at(x - big, y + big));
            assert(ne.alive_at(x - big, y + big) == ne.spec_sw().alive_at(
                x - big + d,
                y + big - d,
            ));
        } else {
            assert(small.alive_at(x, y) == se.spec_nw().alive_at(x - d, y - d));
            assert(large.alive_at(x, y) == se.alive_at(x - big, y - big));
            assert(se.alive_at(x - big, y - big) == se.spec_nw().alive_at(
                x - big + d,
                y - big + d,
            ));
        }
    }
}

/// The block two levels below `root` in row `r` and column `c` of the four
/// rows and four columns into which `root` divides.
pub open spec fn tile(root: CC, r: int, c: int) -> CC {
    quadrant(quadrant(root, r / 2, c / 2), r % 2, c % 2)
}

/// One of the nine blocks, two levels below `root`, that lie a quarter of
/// `root`'s side apart: the one centred where the blocks `tile` of rows `i`,
/// `i + 1` and columns `j`, `j + 1` meet.
pub open spec fn inner(root: CC, i: int, j: int) -> CC {
    centred(tile(root, i, j), tile(root, i, j + 1), tile(root, i + 1, j), tile(root, i + 1, j + 1))
}

/// One of the four blocks, one level below `root`, that overlap around its
/// centre: the one made of the blocks `inner` of rows `i`, `i + 1` and columns
/// `j`, `j + 1`.
pub open spec fn window(root: CC, i: int, j: int) -> CC {
    spec_node(
        Rc::new(inner(root, i, j)),
        Rc::new(inner(root, i, j + 1)),
        Rc::new(inner(root, i + 1, j)),
        Rc::new(inner(root, i + 1, j + 1)),
    )
}

/// The centre of row or column `c` of `tile`, where `q` is an eighth of the
/// root's side.
pub open spec fn tile_centre(q: int, c: int) -> int {
    if c == 0 {
        -3 * q
    } else if c == 1 {
        -q
    } else if c == 2 {
        q
    } else {
        3 * q
    }
}

/// The centre of row or column `j` of `inner`, where `q` is an eighth of the
/// root's side.
pub open spec fn inner_centre(q: int, j: int) -> int {
    if j == 0 {
        -2 * q
    } else if j == 1 {
        0
    } else {
        2 * q
    }
}

/// The centre of row or column `j` of `window`, where `q` is an eighth of the
/// root's side.
pub open spec fn window_centre(q: int, j: int) -> int {
    if j == 0 {
        -q
    } else {
        q
    }
}

/// A block `tile` shows the root's cells around its own centre.
pub proof fn lemma_tile(root: &CC, r: int, c: int, s: int, t: int)
    requires
        root.wf(),
        root.level() >= 3,
        0 <= r < 4,
        0 <= c < 4,
        covers(root.level() - 2, s, t),
    ensures
        tile(*root, r, c).wf(),
        tile(*root, r, c).level() == root.level() - 2,
        tile(*root, r, c).alive_at(s, t) == root.alive_at(
            s + tile_centre(exp2(root.level() - 3), c),
            t + tile_centre(exp2(root.level() - 3), r),
        ),
{
    let l = root.level() as int;
    let q = exp2(l - 3);
    lemma_exp2_positive(l - 3);
    assert(quadrant_offset(l) == 2 * q);
    assert(quadrant_offset(l - 1) == q);
    reveal_with_fuel(CC::wf, 3);
    let x = s + tile_centre(q, c);
    let y = t + tile_centre(q, r);
    let half = quadrant(*root, r / 2, c / 2);
    let xh = if x < 0 {
        x + 2 * q
    } else {
        x - 2 * q
    };
    let yh = if y < 0 {
        y + 2 * q
    } else {
        y - 2 * q
    };
    assert((x < 0) == (c < 2));
    assert((y < 0) == (r < 2));
    assert(root.alive_at(x, y) == half.alive_at(xh, yh));
    assert((xh < 0) == (c % 2 == 0));
    assert((yh < 0) == (r % 2 == 0));
    assert(half.alive_at(xh, yh) == tile(*root, r, c).alive_at(s, t));
}

/// A block `inner` shows the root's cells around its own centre.
pub proof fn lemma_inner(root: &CC, i: int, j: int, s: int, t: int)
    requires
        root.wf(),
        root.level() >= 3,
        0 <= i < 3,
        0 <= j < 3,
        covers(root.level() - 2, s, t),
    ensures
        inner(*root, i, j).wf(),
        inner(*root, i, j).level() == root.level() - 2,
        inner(*root, i, j).alive_at(s, t) == root.alive_at(
            s + inner_centre(exp2(root.level() - 3), j),
            t + inner_centre(exp2(root.level() - 3), i),
        ),
{
    let l = root.level() as int;
    let q = exp2(l - 3);
    lemma_exp2_positive(l - 3);
    assert(quadrant_offset(l - 1) == q);
    let a = tile(*root, i, j);
    let b = tile(*root, i, j + 1);
    let c = tile(*root, i + 1, j);
    let d = tile(*root, i + 1, j + 1);
    let sq = if s < 0 {
        s + q
    } else {
        s - q
    };
    let tq = if t < 0 {
        t + q
    } else {
        t - q
    };
    lemma_tile(root, i, j, sq, tq);
    lemma_tile(root, i, j + 1, sq, tq);
    lemma_tile(root, i + 1, j, sq, tq);
    lemma_tile(root, i + 1, j + 1, sq, tq);
    lemma_centred(&a, &b, &c, &d, s, t);
    let large = spec_node(Rc::new(a), Rc::new(b), Rc::new(c), Rc::new(d));
    assert(large.alive_at(s, t) == if s < 0 {
        if t < 0 {
            a.alive_at(sq, tq)
        } else {
            c.alive_at(sq, tq)
        }
    } else {
        if t < 0 {
            b.alive_at(sq, tq)
        } else {
            d.alive_at(sq, tq)
        }
    });
}

/// A block `window` shows the root's cells around its own centre.
pub proof fn lemma_window(root: &CC, i: int, j: int, u: int, v: int)
    requires
        root.wf(),
        root.level() >= 3,
        0 <= i < 2,
        0 <= j < 2,
        covers(root.level() - 1, u, v),
    ensures
        window(*root, i, j).wf(),
        window(*root, i, j).level() == root.level() - 1,
        window(*root, i, j).alive_at(u, v) == root.alive_at(
            u + window_centre(exp2(root.level() - 3), j),
            v + window_centre(exp2(root.level() - 3), i),
        ),
{
    let l = root.level() as int;
    let q = exp2(l - 3);
    lemma_exp2_positive(l - 3);
    assert(quadrant_offset(l - 1) == q);
    let uq = if u < 0 {
        u + q
    } else {
        u - q
    };
    let vq = if v < 0 {
        v + q
    } else {
        v - q
    };
    lemma_inner(root, i, j, uq, vq);
    lemma_inner(root, i, j + 1, uq, vq);
    lemma_inner(root, i + 1, j, uq, vq);
    lemma_inner(root, i + 1, j + 1, uq, vq);
    lemma_window_wf(root, i, j);
    assert(window(*root, i, j).alive_at(u, v) == if u < 0 {
        if v < 0 {
            inner(*root, i, j).alive_at(uq, vq)
        } else {
            inner(*root, i + 1, j).alive_at(uq, vq)
        }
    } else {
        if v < 0 {
            inner(*root, i, j + 1).alive_at(uq, vq)
        } else {
            inner(*root, i + 1, j + 1).alive_at(uq, vq)
        }
    });
}

/// The blocks `window` are well formed, one level below the root.
pub proof fn lemma_window_wf(root: &CC, i: int, j: int)
    requires
        root.wf(),
        root.level() >= 3,
        0 <= i < 2,
        0 <= j < 2,
    ensures
        window(*root, i, j).wf(),
        window(*root, i, j).level() == root.level() - 1,
        inner(*root, i, j).wf(),
        inner(*root, i, j + 1).wf(),
        inner(*root, i + 1, j).wf(),
        inner(*root, i + 1, j + 1).wf(),
        inner(*root, i, j).level() == root.level() - 2,
        inner(*root, i, j + 1).level() == root.level() - 2,
        inner(*root, i + 1, j).level() == root.level() - 2,
        inner(*root, i + 1, j + 1).level() == root.level() - 2,
{
    let l = root.level() as int;
    lemma_exp2_positive(l - 3);
    lemma_inner(root, i, j, 0, 0);
    lemma_inner(root, i, j + 1, 0, 0);
    lemma_inner(root, i + 1, j, 0, 0);
    lemma_inner(root, i + 1, j + 1, 0, 0);
    lemma_node_is_well_formed(
        &inner(*root, i, j),
        &inner(*root, i, j + 1),
        &inner(*root, i + 1, j),
        &inner(*root, i + 1, j + 1),
    );
}

} // verus!
