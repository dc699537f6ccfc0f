use hashlife::cell::Cell;
use hashlife::geometry::{power_of_two, quadrant_shift, MAX_LEVEL};
use hashlife::node::{empty_tree, leaf, node, CC};
use std::rc::Rc;

fn sorted(mut cells: Vec<Cell>) -> Vec<(i32, i32)> {
    let mut out: Vec<(i32, i32)> = cells.drain(..).map(|c| (c.x, c.y)).collect();
    out.sort();
    out
}

fn with_cells(level: i32, cells: &[(i32, i32)]) -> Rc<CC> {
    let mut tree = empty_tree(level);
    for &(x, y) in cells {
        tree = tree.set_bit(x, y);
    }
    tree
}

#[test]
fn leaf_is_a_single_cell() {
    let alive = leaf(true);
    assert_eq!(alive.level(), 0);
    assert_eq!(alive.population(), 1);
    assert_eq!(alive.get_bit(0, 0), 1);
    let dead = leaf(false);
    assert_eq!(dead.level(), 0);
    assert_eq!(dead.population(), 0);
    assert_eq!(dead.get_bit(0, 0), 0);
}

#[test]
fn leaf_is_its_own_quadrant() {
    let alive = leaf(true);
    assert_eq!(alive.nw().population(), 1);
    assert_eq!(alive.ne().population(), 1);
    assert_eq!(alive.sw().population(), 1);
    assert_eq!(alive.se().population(), 1);
    assert_eq!(alive.nw().level(), 0);
    let dead = leaf(false);
    assert_eq!(dead.nw().population(), 0);
    assert_eq!(dead.se().population(), 0);
}

#[test]
fn node_sums_its_quadrants() {
    let n = node(leaf(true), leaf(false), leaf(true), leaf(true));
    assert_eq!(n.level(), 1);
    assert_eq!(n.population(), 3);
    assert!(matches!(*n, CC::Node(1, true, 3, _, _, _, _)));
    let empty = node(leaf(false), leaf(false), leaf(false), leaf(false));
    assert_eq!(empty.population(), 0);
    assert!(matches!(*empty, CC::Node(1, false, 0, _, _, _, _)));
    let big = node(n.clone(), empty.clone(), n.clone(), n.clone());
    assert_eq!(big.level(), 2);
    assert_eq!(big.population(), 9);
}

#[test]
fn node_places_its_quadrants() {
    let n = node(leaf(true), leaf(false), leaf(false), leaf(false));
    assert_eq!(n.get_bit(-1, -1), 1);
    assert_eq!(n.get_bit(0, -1), 0);
    assert_eq!(n.get_bit(-1, 0), 0);
    assert_eq!(n.get_bit(0, 0), 0);
    let n = node(leaf(false), leaf(true), leaf(false), leaf(false));
    assert_eq!(n.get_bit(0, -1), 1);
    let n = node(leaf(false), leaf(false), leaf(true), leaf(false));
    assert_eq!(n.get_bit(-1, 0), 1);
    let n = node(leaf(false), leaf(false), leaf(false), leaf(true));
    assert_eq!(n.get_bit(0, 0), 1);
}

#[test]
fn quadrants_are_shared_not_copied() {
    let a = leaf(true);
    let n = node(a.clone(), leaf(false), leaf(false), leaf(false));
    assert!(Rc::ptr_eq(&n.nw(), &a));
    let with_bit = n.set_bit(0, 0);
    // The quadrant that was not touched is the very same one.
    assert!(Rc::ptr_eq(&with_bit.nw(), &a));
    assert!(Rc::ptr_eq(&with_bit.ne(), &n.ne()));
    assert!(!Rc::ptr_eq(&with_bit.se(), &n.se()));
}

#[test]
fn empty_tree_is_dead_at_each_level() {
    for level in 0..=12 {
        let tree = empty_tree(level);
        assert_eq!(tree.level(), level);
        assert_eq!(tree.population(), 0);
        assert_eq!(tree.get_bit(0, 0), 0);
        assert_eq!(tree.get_bit(-1, -1), 0);
        assert_eq!(tree.get_bit(100, -100), 0);
        assert!(tree.live_cells().is_empty());
    }
    let deepest = empty_tree(MAX_LEVEL);
    assert_eq!(deepest.level(), 31);
    assert_eq!(deepest.population(), 0);
}

#[test]
fn offsets_are_a_quarter_of_the_side() {
    assert_eq!(quadrant_shift(1), 0);
    assert_eq!(quadrant_shift(2), 1);
    assert_eq!(quadrant_shift(3), 2);
    assert_eq!(quadrant_shift(9), 128);
    assert_eq!(quadrant_shift(31), 1 << 29);
    assert_eq!(power_of_two(0), 1);
    assert_eq!(power_of_two(9), 512);
    assert_eq!(power_of_two(30), 1 << 30);
}

#[test]
fn set_bit_then_get_bit() {
    let level = 4;
    let tree = empty_tree(level);
    for y in -8..8 {
        for x in -8..8 {
            let set = tree.set_bit(x, y);
            assert_eq!(set.level(), level);
            assert_eq!(set.population(), 1);
            assert_eq!(set.get_bit(x, y), 1);
            for y2 in -8..8 {
                for x2 in -8..8 {
                    let expected = if (x2, y2) == (x, y) { 1 } else { 0 };
                    assert_eq!(set.get_bit(x2, y2), expected);
                }
            }
            // The tree it came from is as it was.
            assert_eq!(tree.get_bit(x, y), 0);
            assert_eq!(tree.population(), 0);
        }
    }
}

#[test]
fn set_bit_twice_counts_once() {
    let tree = empty_tree(5).set_bit(3, -7);
    assert_eq!(tree.population(), 1);
    let again = tree.set_bit(3, -7);
    assert_eq!(again.population(), 1);
    assert_eq!(again.get_bit(3, -7), 1);
    let more = again.set_bit(-16, 15);
    assert_eq!(more.population(), 2);
    assert_eq!(more.get_bit(-16, 15), 1);
    assert_eq!(more.get_bit(3, -7), 1);
}

#[test]
fn set_bit_on_a_leaf_gives_a_live_leaf() {
    let set = leaf(false).set_bit(17, -4);
    assert_eq!(set.level(), 0);
    assert_eq!(set.population(), 1);
    let set = leaf(true).set_bit(0, 0);
    assert_eq!(set.population(), 1);
}

#[test]
fn positions_outside_are_taken_for_the_edge() {
    // A tree of level 3 spans -4 ..= 3.
    let tree = empty_tree(3).set_bit(3, -4);
    assert_eq!(tree.get_bit(3, -4), 1);
    assert_eq!(tree.get_bit(4, -4), 1);
    assert_eq!(tree.get_bit(3, -5), 1);
    assert_eq!(tree.get_bit(1000, -1000), 1);
    assert_eq!(tree.get_bit(i32::MAX, i32::MIN), 1);
    assert_eq!(tree.get_bit(2, -4), 0);
    assert_eq!(tree.get_bit(3, -3), 0);
    // Setting a cell outside sets the nearest cell of the edge.
    let far = empty_tree(3).set_bit(-100, 2);
    assert_eq!(far.population(), 1);
    assert_eq!(far.get_bit(-4, 2), 1);
    assert_eq!(far.get_bit(-3, 2), 0);
    assert_eq!(sorted(far.live_cells()), vec![(-4, 2)]);
}

#[test]
fn get_bit_and_set_bit_at_the_deepest_level() {
    let tree = empty_tree(MAX_LEVEL);
    let set = tree.set_bit(-(1 << 30), (1 << 30) - 1);
    assert_eq!(set.population(), 1);
    assert_eq!(set.get_bit(-(1 << 30), (1 << 30) - 1), 1);
    assert_eq!(set.get_bit(i32::MIN, i32::MAX), 1);
    assert_eq!(set.get_bit(0, 0), 0);
    assert_eq!(sorted(set.live_cells()), vec![(-(1 << 30), (1 << 30) - 1)]);
}

#[test]
fn expand_universe_keeps_the_cells() {
    let cells = [(-4, -4), (3, 3), (0, 0), (-1, 2), (3, -4), (-4, 3), (1, -2)];
    let tree = with_cells(3, &cells);
    let mut grown = tree.clone();
    for step in 1..=5 {
        grown = grown.expand_universe();
        assert_eq!(grown.level(), 3 + step);
        assert_eq!(grown.population(), cells.len() as i64);
        for y in -4..4 {
            for x in -4..4 {
                assert_eq!(grown.get_bit(x, y), tree.get_bit(x, y));
            }
        }
        let mut expected: Vec<(i32, i32)> = cells.to_vec();
        expected.sort();
        assert_eq!(sorted(grown.live_cells()), expected);
    }
}

#[test]
fn expand_universe_adds_a_dead_border() {
    let mut tree = empty_tree(2);
    for y in -2..2 {
        for x in -2..2 {
            tree = tree.set_bit(x, y);
        }
    }
    assert_eq!(tree.population(), 16);
    let grown = tree.expand_universe();
    assert_eq!(grown.level(), 3);
    assert_eq!(grown.population(), 16);
    for y in -4..4 {
        for x in -4..4 {
            let inside = (-2..2).contains(&x) && (-2..2).contains(&y);
            assert_eq!(grown.get_bit(x, y), if inside { 1 } else { 0 });
        }
    }
    // A position that the small tree took for its edge is now a dead cell.
    assert_eq!(tree.get_bit(2, 0), 1);
    assert_eq!(grown.get_bit(2, 0), 0);
}

#[test]
fn expand_universe_of_a_leaf() {
    let grown = leaf(true).expand_universe();
    assert_eq!(grown.level(), 2);
    assert_eq!(grown.population(), 4);
    for y in -2..2 {
        for x in -2..2 {
            let middle = (-1..1).contains(&x) && (-1..1).contains(&y);
            assert_eq!(grown.get_bit(x, y), if middle { 1 } else { 0 });
        }
    }
    let grown = leaf(false).expand_universe();
    assert_eq!(grown.level(), 2);
    assert_eq!(grown.population(), 0);
}

#[test]
fn expand_universe_of_the_smallest_node() {
    let n = node(leaf(true), leaf(false), leaf(false), leaf(true));
    let grown = n.expand_universe();
    assert_eq!(grown.level(), 2);
    assert_eq!(grown.population(), 2);
    assert_eq!(sorted(grown.live_cells()), vec![(-1, -1), (0, 0)]);
    assert_eq!(grown.get_bit(-2, -2), 0);
    assert_eq!(grown.get_bit(1, 1), 0);
}

#[test]
fn live_cells_lists_each_cell_once() {
    let cells = [(0, 0), (-1, -1), (5, -3), (-8, 7), (7, 7), (-8, -8), (2, 2), (2, 3)];
    let tree = with_cells(4, &cells);
    let listed = tree.live_cells();
    assert_eq!(listed.len(), cells.len());
    assert_eq!(listed.len() as i64, tree.population());
    let mut expected: Vec<(i32, i32)> = cells.to_vec();
    expected.sort();
    assert_eq!(sorted(listed), expected);
}

#[test]
fn live_cells_of_a_leaf() {
    assert_eq!(sorted(leaf(true).live_cells()), vec![(0, 0)]);
    assert!(leaf(false).live_cells().is_empty());
}

#[test]
fn collect_cells_moves_and_appends() {
    let tree = with_cells(2, &[(-2, -2), (1, 1)]);
    let mut out = vec![Cell::new(9, 9)];
    tree.collect_cells(10, -20, &mut out);
    assert_eq!(out.len(), 3);
    assert_eq!(out[0], Cell::new(9, 9));
    assert_eq!(sorted(out.split_off(1)), vec![(8, -22), (11, -19)]);
}

#[test]
fn cell_holds_its_coordinates() {
    let c = Cell::new(-3, 12);
    assert_eq!(c.x, -3);
    assert_eq!(c.y, 12);
    assert_eq!(c, Cell { x: -3, y: 12 });
    assert_ne!(c, Cell { x: 12, y: -3 });
}
