//! What holds of every well formed block: bounds on its population, how
//! positions outside it are read, how its live cells divide among its
//! quadrants, and that its population counts them.

use crate::cell::Cell;
use crate::geometry::{
    clamp, covers, exp2, high, lemma_exp2_is_pow2, lemma_exp2_monotonic, lemma_exp2_positive, low,
    quadrant_offset, same_cell, MAX_LEVEL,
};
use crate::node::{holds_part, quadrant, spec_node, with_quadrant, CC};
use std::rc::Rc;
use vstd::prelude::*;

verus! {

/// A well formed block holds no more live cells than it has cells.
pub proof fn lemma_population_bounds(n: &CC)
    requires
        n.wf(),
    ensures
        0 <= n.level() <= MAX_LEVEL,
        0 <= n.population() <= exp2(2 * n.level()),
    decreases *n,
{
    match *n {
        CC::Leaf(_) => {},
        CC::Node(level, _, _, ref nw, ref ne, ref sw, ref se) => {
            lemma_population_bounds(&**nw);
            lemma_population_bounds(&**ne);
            lemma_population_bounds(&**sw);
            lemma_population_bounds(&**se);
            assert(exp2(2 * level) == 4 * exp2(2 * (level - 1))) by {
                assert(exp2(2 * level) == 2 * exp2(2 * level - 1));
                assert(exp2(2 * level - 1) == 2 * exp2(2 * level - 2));
            }
        },
    }
}

/// Four well formed blocks of one level below `MAX_LEVEL` make a well formed
/// block one level up: the sum of their populations fits.
pub proof fn lemma_node_is_well_formed(nw: &CC, ne: &CC, sw: &CC, se: &CC)
    requires
        nw.wf(),
        ne.wf(),
        sw.wf(),
        se.wf(),
        ne.level() == nw.level(),
        sw.level() == nw.level(),
        se.level() == nw.level(),
        nw.level() < MAX_LEVEL,
    ensures
        spec_node(Rc::new(*nw), Rc::new(*ne), Rc::new(*sw), Rc::new(*se)).wf(),
        spec_node(Rc::new(*nw), Rc::new(*ne), Rc::new(*sw), Rc::new(*se)).level() == nw.level()
            + 1,
        0 <= nw.population() <= 0x1000_0000_0000_0000,
        0 <= ne.population() <= 0x1000_0000_0000_0000,
        0 <= sw.population() <= 0x1000_0000_0000_0000,
        0 <= se.population() <= 0x1000_0000_0000_0000,
{
    lemma_population_bounds(nw);
    lemma_population_bounds(ne);
    lemma_population_bounds(sw);
    lemma_population_bounds(se);
    lemma_exp2_monotonic(2 * nw.level(), 60);
    assert(exp2(60) == 0x1000_0000_0000_0000) by {
        lemma_exp2_is_pow2(60);
        vstd::arithmetic::power2::lemma2_to64_rest();
    }
}

/// A block without population has no live cell, wherever one looks.
pub proof fn lemma_empty_is_dead(n: &CC, x: int, y: int)
    requires
        n.wf(),
        n.population() == 0,
    ensures
        !n.alive_at(x, y),
    decreases *n,
{
    match *n {
        CC::Leaf(_) => {},
        CC::Node(level, _, _, ref nw, ref ne, ref sw, ref se) => {
            lemma_population_bounds(&**nw);
            lemma_population_bounds(&**ne);
            lemma_population_bounds(&**sw);
            lemma_population_bounds(&**se);
            let d = quadrant_offset(level as int);
            lemma_empty_is_dead(&**nw, x + d, y + d);
            lemma_empty_is_dead(&**sw, x + d, y - d);
            lemma_empty_is_dead(&**ne, x - d, y + d);
            lemma_empty_is_dead(&**se, x - d, y - d);
        },
    }
}

/// A position outside a block is taken for the nearest cell of its edge.
pub proof fn lemma_alive_at_clamps(n: &CC, x: int, y: int)
    requires
        n.wf(),
    ensures
        n.alive_at(x, y) == n.alive_at(clamp(n.level() as int, x), clamp(n.level() as int, y)),
    decreases *n,
{
    match *n {
        CC::Leaf(_) => {},
        CC::Node(level, _, _, ref nw, ref ne, ref sw, ref se) => {
            let d = quadrant_offset(level as int);
            let cx = clamp(level as int, x);
            let cy = clamp(level as int, y);
            let xq = if x < 0 {
                x + d
            } else {
                x - d
            };
            let yq = if y < 0 {
                y + d
            } else {
                y - d
            };
            lemma_exp2_positive(level as int - 1);
            assert((x < 0) == (cx < 0));
            assert((y < 0) == (cy < 0));
            if level >= 2 {
                assert(clamp(level as int - 1, xq) == if x < 0 {
                    cx + d
                } else {
                    cx - d
                });
                assert(clamp(level as int - 1, yq) == if y < 0 {
                    cy + d
                } else {
                    cy - d
                });
            }
            let q: &CC = if x < 0 {
                if y < 0 {
                    &**nw
                } else {
                    &**sw
                }
            } else {
                if y < 0 {
                    &**ne
                } else {
                    &**se
                }
            };
            lemma_alive_at_clamps(q, xq, yq);
            if x < 0 {
                lemma_alive_at_clamps(q, cx + d, if y < 0 {
                    cy + d
                } else {
                    cy - d
                });
            } else {
                lemma_alive_at_clamps(q, cx - d, if y < 0 {
                    cy + d
                } else {
                    cy - d
                });
            }
        },
    }
}

/// Two positions in one quadrant of a block are taken for the same cell of
/// the block exactly when the quadrant takes them for the same cell; positions
/// in different quadrants never are.
pub proof fn lemma_same_cell_descends(level: int, x: int, y: int, x2: int, y2: int)
    requires
        1 <= level,
    ensures
        ((x < 0) != (x2 < 0) || (y < 0) != (y2 < 0)) ==> !same_cell(level, x, y, x2, y2),
        ((x < 0) == (x2 < 0) && (y < 0) == (y2 < 0)) ==> same_cell(level, x, y, x2, y2)
            == same_cell(
            level - 1,
            if x < 0 {
                x + quadrant_offset(level)
            } else {
                x - quadrant_offset(level)
            },
            if y < 0 {
                y + quadrant_offset(level)
            } else {
                y - quadrant_offset(level)
            },
            if x2 < 0 {
                x2 + quadrant_offset(level)
            } else {
                x2 - quadrant_offset(level)
            },
            if y2 < 0 {
                y2 + quadrant_offset(level)
            } else {
                y2 - quadrant_offset(level)
            },
        ),
{
    lemma_exp2_positive(level - 1);
    lemma_exp2_positive(level - 2);
}

/// Setting a cell in the quadrant it lies in sets it in the block: where
/// `q` is that quadrant of `n` with the cell set, and `r` is `n` with `q` in
/// the quadrant's place, `r` is `n` with the cell set.
pub proof fn lemma_set_in_quadrant(n: &CC, q: &CC, r: &CC, x: int, y: int)
    requires
        n.wf(),
        n.level() >= 1,
        q.wf(),
        ({
            let i: int = if y < 0 {
                0
            } else {
                1
            };
            let j: int = if x < 0 {
                0
            } else {
                1
            };
            let d = quadrant_offset(n.level() as int);
            let xq = if x < 0 {
                x + d
            } else {
                x - d
            };
            let yq = if y < 0 {
                y + d
            } else {
                y - d
            };
            let part = quadrant(*n, i, j);
            &&& *r == with_quadrant(*n, i, j, Rc::new(*q))
            &&& q.level() == n.level() - 1
            &&& forall|x2: int, y2: int|
                q.alive_at(x2, y2) == (part.alive_at(x2, y2) || same_cell(
                    n.level() - 1,
                    xq,
                    yq,
                    x2,
                    y2,
                ))
        }),
    ensures
        forall|x2: int, y2: int|
            r.alive_at(x2, y2) == (n.alive_at(x2, y2) || same_cell(
                n.level() as int,
                x,
                y,
                x2,
                y2,
            )),
{
    let l = n.level() as int;
    let d = quadrant_offset(l);
    assert forall|x2: int, y2: int|
        r.alive_at(x2, y2) == (n.alive_at(x2, y2) || same_cell(l, x, y, x2, y2)) by {
        lemma_same_cell_descends(l, x, y, x2, y2);
        let x2q = if x2 < 0 {
            x2 + d
        } else {
            x2 - d
        };
        let y2q = if y2 < 0 {
            y2 + d
        } else {
            y2 - d
        };
        if (x < 0) == (x2 < 0) && (y < 0) == (y2 < 0) {
            assert(r.alive_at(x2, y2) == q.alive_at(x2q, y2q));
        }
    }
}

/// A block set in the middle of dead cells shows, one level up, its own
/// cells where it lies and dead cells around it: `r` is made of four blocks,
/// each of which holds a quadrant of `n` in the corner that touches the centre
/// of `r` and the empty block `border` in its three other corners.
pub proof fn lemma_expanded(n: &CC, border: &CC, r: &CC)
    requires
        n.wf(),
        1 <= n.level() < MAX_LEVEL,
        border.wf(),
        border.level() == n.level() - 1,
        forall|x: int, y: int| !border.alive_at(x, y),
        ({
            let b = Rc::new(*border);
            let nw = Rc::new(n.spec_nw());
            let ne = Rc::new(n.spec_ne());
            let sw = Rc::new(n.spec_sw());
            let se = Rc::new(n.spec_se());
            *r == spec_node(
                Rc::new(spec_node(b, b, b, nw)),
                Rc::new(spec_node(b, b, ne, b)),
                Rc::new(spec_node(b, sw, b, b)),
                Rc::new(spec_node(se, b, b, b)),
            )
        }),
    ensures
        forall|x: int, y: int|
            r.alive_at(x, y) == (n.alive_at(x, y) && covers(n.level() as int, x, y)),
{
    let b = Rc::new(*border);
    let nw = Rc::new(n.spec_nw());
    let ne = Rc::new(n.spec_ne());
    let sw = Rc::new(n.spec_sw());
    let se = Rc::new(n.spec_se());
    let l = n.level() as int;
    let d = quadrant_offset(l);
    let big = exp2(l - 1);
    lemma_exp2_positive(l - 2);
    assert(quadrant_offset(l + 1) == big);
    assert(l == 1 || big == 2 * d);
    assert(r.spec_nw() == spec_node(b, b, b, nw));
    assert(r.spec_ne() == spec_node(b, b, ne, b));
    assert(r.spec_sw() == spec_node(b, sw, b, b));
    assert(r.spec_se() == spec_node(se, b, b, b));
    assert forall|x: int, y: int|
        r.alive_at(x, y) == (n.alive_at(x, y) && covers(l, x, y)) by {
        reveal_with_fuel(CC::wf, 2);
        // The position as the new quadrant sees it, and as the old quadrant
        // inside it would.
        let xq = if x < 0 {
            x + big
        } else {
            x - big
        };
        let yq = if y < 0 {
            y + big
        } else {
            y - big
        };
        let xi = if xq < 0 {
            xq + d
        } else {
            xq - d
        };
        let yi = if yq < 0 {
            yq + d
        } else {
            yq - d
        };
        assert(covers(l, x, y) == ((x < 0) != (xq < 0) && (y < 0) != (yq < 0)));
        assert(!border.alive_at(xi, yi));
        if x < 0 {
            if y < 0 {
                assert(r.alive_at(x, y) == r.spec_nw().alive_at(xq, yq));
                assert(n.alive_at(x, y) == nw.alive_at(x + d, y + d));
                assert(r.spec_nw().alive_at(xq, yq) == if xq >= 0 && yq >= 0 {
                    nw.alive_at(xi, yi)
                } else {
                    false
                });
            } else {
                assert(r.alive_at(x, y) == r.spec_sw().alive_at(xq, yq));
                assert(n.alive_at(x, y) == sw.alive_at(x + d, y - d));
                assert(r.spec_sw().alive_at(xq, yq) == if xq >= 0 && yq < 0 {
                    sw.alive_at(xi, yi)
                } else {
                    false
                });
            }
        } else {
            if y < 0 {
                assert(r.alive_at(x, y) == r.spec_ne().alive_at(xq, yq));
                assert(n.alive_at(x, y) == ne.alive_at(x - d, y + d));
                assert(r.spec_ne().alive_at(xq, yq) == if xq < 0 && yq >= 0 {
                    ne.alive_at(xi, yi)
                } else {
                    false
                });
            } else {
                assert(r.alive_at(x, y) == r.spec_se().alive_at(xq, yq));
                assert(n.alive_at(x, y) == se.alive_at(x - d, y - d));
                assert(r.spec_se().alive_at(xq, yq) == if xq < 0 && yq < 0 {
                    se.alive_at(xi, yi)
                } else {
                    false
                });
            }
        }
    }
}

/// The level of a well formed block lies between nothing and `MAX_LEVEL`,
/// so every cell of it has coordinates that an `i32` holds.
pub proof fn lemma_level_bounds(n: &CC)
    requires
        n.wf(),
    ensures
        0 <= n.level() <= MAX_LEVEL,
        -0x4000_0000 <= low(n.level() as int),
        high(n.level() as int) < 0x4000_0000,
{
    lemma_exp2_positive(n.level() - 1);
    if n.level() >= 1 {
        lemma_exp2_monotonic(n.level() - 1, 30);
    }
    assert(exp2(30) == 0x4000_0000) by {
        lemma_exp2_is_pow2(30);
        vstd::arithmetic::power2::lemma2_to64();
    }
}

/// A live cell of a block is a live cell of the quadrant it lies in, seen
/// from that quadrant's centre; and each live cell of a quadrant is one of the
/// block.
pub proof fn lemma_view_splits(n: &CC, x: int, y: int)
    requires
        n.wf(),
        n.level() >= 1,
    ensures
        ({
            let d = quadrant_offset(n.level() as int);
            let west = if n.level() == 1 {
                1
            } else {
                d
            };
            &&& n.spec_nw()@.contains((x + west, y + west)) == (n@.contains((x, y)) && x < 0 && y
                < 0)
            &&& n.spec_ne()@.contains((x - d, y + west)) == (n@.contains((x, y)) && x >= 0 && y
                < 0)
            &&& n.spec_sw()@.contains((x + west, y - d)) == (n@.contains((x, y)) && x < 0 && y
                >= 0)
            &&& n.spec_se()@.contains((x - d, y - d)) == (n@.contains((x, y)) && x >= 0 && y >= 0)
        }),
{
    let l = n.level() as int;
    lemma_exp2_positive(l - 2);
    reveal_with_fuel(CC::alive_at, 2);
    reveal_with_fuel(CC::wf, 2);
}

/// What holds of a part of a sequence holds of the same part of a sequence
/// that agrees with it there.
pub proof fn lemma_holds_part_kept(
    n: &CC,
    dx: int,
    dy: int,
    s: Seq<Cell>,
    t: Seq<Cell>,
    from: int,
    to: int,
)
    requires
        holds_part(n, dx, dy, s, from, to),
        to <= t.len(),
        forall|i: int| from <= i < to ==> t[i] == s[i],
    ensures
        holds_part(n, dx, dy, t, from, to),
{
    assert forall|x: int, y: int| n@.contains((x, y)) implies exists|i: int|
        from <= i < to && #[trigger] t[i]@ == (x + dx, y + dy) by {
        let i = choose|i: int| from <= i < to && #[trigger] s[i]@ == (x + dx, y + dy);
        assert(t[i] == s[i]);
    }
}

/// Four parts of a sequence that follow one another and hold the live cells
/// of the four quadrants of a block hold, together, the live cells of the
/// block.
pub proof fn lemma_parts_make_whole(
    n: &CC,
    dx: int,
    dy: int,
    s: Seq<Cell>,
    n0: int,
    n1: int,
    n2: int,
    n3: int,
    n4: int,
)
    requires
        n.wf(),
        n.level() >= 1,
        ({
            let d = quadrant_offset(n.level() as int);
            let west = if n.level() == 1 {
                1
            } else {
                d
            };
            &&& holds_part(&n.spec_nw(), dx - west, dy - west, s, n0, n1)
            &&& holds_part(&n.spec_ne(), dx + d, dy - west, s, n1, n2)
            &&& holds_part(&n.spec_sw(), dx - west, dy + d, s, n2, n3)
            &&& holds_part(&n.spec_se(), dx + d, dy + d, s, n3, n4)
        }),
    ensures
        holds_part(n, dx, dy, s, n0, n4),
{
    let d = quadrant_offset(n.level() as int);
    let west = if n.level() == 1 {
        1
    } else {
        d
    };
    assert forall|i: int| n0 <= i < n4 implies n@.contains(
        ((#[trigger] s[i]).x - dx, s[i].y - dy),
    ) by {
        lemma_view_splits(n, s[i].x - dx, s[i].y - dy);
    }
    assert forall|x: int, y: int| n@.contains((x, y)) implies exists|i: int|
        n0 <= i < n4 && #[trigger] s[i]@ == (x + dx, y + dy) by {
        lemma_view_splits(n, x, y);
        if x < 0 {
            if y < 0 {
                assert(n.spec_nw()@.contains((x + west, y + west)));
                let i = choose|i: int|
                    n0 <= i < n1 && #[trigger] s[i]@ == (
                        x + west + (dx - west),
                        y + west + (dy - west),
                    );
                assert(s[i]@ == (x + dx, y + dy));
            } else {
                assert(n.spec_sw()@.contains((x + west, y - d)));
                let i = choose|i: int|
                    n2 <= i < n3 && #[trigger] s[i]@ == (
                        x + west + (dx - west),
                        y - d + (dy + d),
                    );
                assert(s[i]@ == (x + dx, y + dy));
            }
        } else {
            if y < 0 {
                assert(n.spec_ne()@.contains((x - d, y + west)));
                let i = choose|i: int|
                    n1 <= i < n2 && #[trigger] s[i]@ == (
                        x - d + (dx + d),
                        y + west + (dy - west),
                    );
                assert(s[i]@ == (x + dx, y + dy));
            } else {
                assert(n.spec_se()@.contains((x - d, y - d)));
                let i = choose|i: int|
                    n3 <= i < n4 && #[trigger] s[i]@ == (
                        x - d + (dx + d),
                        y - d + (dy + d),
                    );
                assert(s[i]@ == (x + dx, y + dy));
            }
        }
    }
    assert forall|i: int, j: int| n0 <= i < j < n4 implies #[trigger] s[i]@
        != #[trigger] s[j]@ by {
        lemma_view_splits(n, s[i].x - dx, s[i].y - dy);
        lemma_view_splits(n, s[j].x - dx, s[j].y - dy);
    }
}

/// The cells of `cells`, each moved east by `dx` columns and south by `dy`
/// rows.
pub open spec fn moved(cells: Set<(int, int)>, dx: int, dy: int) -> Set<(int, int)> {
    cells.map(|p: (int, int)| (p.0 + dx, p.1 + dy))
}

/// Moving the cells of a finite set gives as many cells: those that lie
/// where a cell of the set lay before the move.
pub proof fn lemma_moved(cells: Set<(int, int)>, dx: int, dy: int)
    requires
        cells.finite(),
    ensures
        moved(cells, dx, dy).finite(),
        moved(cells, dx, dy).len() == cells.len(),
        forall|p: (int, int)|
            moved(cells, dx, dy).contains(p) == cells.contains((p.0 - dx, p.1 - dy)),
{
    let f = |p: (int, int)| (p.0 + dx, p.1 + dy);
    assert(vstd::relations::injective_on(f, cells)) by {
        assert forall|p: (int, int), q: (int, int)|
            cells.contains(p) && cells.contains(q) && #[trigger] f(p) == #[trigger] f(q) implies p
            == q by {
            assert(p.0 + dx == q.0 + dx && p.1 + dy == q.1 + dy);
        }
    }
    vstd::set_lib::lemma_map_size(cells, moved(cells, dx, dy), f);
    assert forall|p: (int, int)|
        moved(cells, dx, dy).contains(p) == cells.contains((p.0 - dx, p.1 - dy)) by {
        if cells.contains((p.0 - dx, p.1 - dy)) {
            assert(f((p.0 - dx, p.1 - dy)) == p);
        }
    }
}

/// The population of a well formed block is the number of its live cells.
pub proof fn lemma_population_counts(n: &CC)
    requires
        n.wf(),
    ensures
        n@.finite(),
        n@.len() == n.population(),
    decreases *n,
{
    match *n {
        CC::Leaf(alive) => {
            if alive {
                assert(n@ =~= set![(0int, 0int)]);
            } else {
                assert(n@ =~= Set::<(int, int)>::empty());
            }
        },
        CC::Node(level, _, _, ref nw, ref ne, ref sw, ref se) => {
            lemma_population_counts(&**nw);
            lemma_population_counts(&**ne);
            lemma_population_counts(&**sw);
            lemma_population_counts(&**se);
            let d = quadrant_offset(level as int);
            let west = if level == 1 {
                1
            } else {
                d
            };
            let a = moved(nw@, -west, -west);
            let b = moved(ne@, d, -west);
            let c = moved(sw@, -west, d);
            let e = moved(se@, d, d);
            lemma_moved(nw@, -west, -west);
            lemma_moved(ne@, d, -west);
            lemma_moved(sw@, -west, d);
            lemma_moved(se@, d, d);
            assert forall|p: (int, int)|
                (a.contains(p) == (n@.contains(p) && p.0 < 0 && p.1 < 0)) && (b.contains(p) == (
                n@.contains(p) && p.0 >= 0 && p.1 < 0)) && (c.contains(p) == (n@.contains(p) && p.0
                    < 0 && p.1 >= 0)) && (e.contains(p) == (n@.contains(p) && p.0 >= 0 && p.1
                    >= 0)) by {
                lemma_view_splits(n, p.0, p.1);
            }
            assert(a.disjoint(b));
            assert((a + b).disjoint(c));
            assert((a + b + c).disjoint(e));
            assert(n@ =~= a + b + c + e);
            vstd::set_lib::lemma_set_disjoint_lens(a, b);
            vstd::set_lib::lemma_set_disjoint_lens(a + b, c);
            vstd::set_lib::lemma_set_disjoint_lens(a + b + c, e);
        },
    }
}

} // verus!
