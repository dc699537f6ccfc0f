use hashlife::grid::Grid;
use hashlife::table::{count_ones, neighbor_count, LookupTable, TABLE_SIZE};
use hashlife::world::World;
use std::rc::Rc;

fn empty_world() -> World {
    World::new(Grid::new(), Rc::new(LookupTable::new()))
}

fn conway(alive: bool, neighbours: u32) -> bool {
    neighbours == 3 || (neighbours == 2 && alive)
}

#[test]
fn neighborcount_test() {
    assert_eq!(count_ones((0x151) & (0x757)), 4);
    assert_eq!(count_ones((0x020) & (0x757)), 0);
    assert_eq!(count_ones((0x1) & (0x757)), 1);
}

#[test]
fn one_gen_test() {
    let world = empty_world();
    assert_eq!((*world.one_gen(0x700)).population(), 1);
    assert_eq!((*world.one_gen(0x777)).population(), 0);
    assert_eq!((*world.one_gen(0x151)).population(), 0);
    assert_eq!((*world.one_gen(0x101)).population(), 0);
    assert_eq!((*world.one_gen(0x121)).population(), 1);
}

#[test]
fn count_ones_counts_every_bit() {
    assert_eq!(count_ones(0), 0);
    assert_eq!(count_ones(1), 1);
    assert_eq!(count_ones(0x8000_0000), 1);
    assert_eq!(count_ones(0xffff_ffff), 32);
    assert_eq!(count_ones(0x757), 8);
    assert_eq!(count_ones(0x777), 9);
    assert_eq!(count_ones(0b1011_0110), 5);
}

#[test]
fn count_ones_agrees_with_the_standard_library() {
    let mut v: u32 = 1;
    for _ in 0..200 {
        v = v.wrapping_mul(1_664_525).wrapping_add(1_013_904_223);
        assert_eq!(count_ones(v), v.count_ones());
    }
}

#[test]
fn neighbor_count_leaves_the_centre_out() {
    assert_eq!(neighbor_count(0x777), 8);
    assert_eq!(neighbor_count(0x020), 0);
    assert_eq!(neighbor_count(0x151), 4);
    assert_eq!(neighbor_count(0x001), 1);
    assert_eq!(neighbor_count(0x757), 8);
    // Bits outside the ring do not count.
    assert_eq!(neighbor_count(0xffff_f8a8), 0);
}

#[test]
fn table_holds_an_entry_for_each_mask_and_no_other() {
    let table = LookupTable::new();
    for mask in 0..TABLE_SIZE {
        assert!(table.get(mask).is_some());
    }
    assert_eq!(table.get(TABLE_SIZE), None);
    assert_eq!(table.get(0x800), None);
    assert_eq!(table.get(u32::MAX), None);
}

#[test]
fn table_is_conways_rule() {
    let table = LookupTable::new();
    for mask in 0..TABLE_SIZE {
        let neighbours = (mask & 0x757).count_ones();
        let alive = (mask >> 5) & 1 == 1;
        assert_eq!(table.get(mask), Some(conway(alive, neighbours)));
    }
}

#[test]
fn table_entries_by_hand() {
    let table = LookupTable::new();
    // Nothing alive.
    assert_eq!(table.get(0x000), Some(false));
    // A lone cell dies.
    assert_eq!(table.get(0x020), Some(false));
    // Three neighbours in the north row: a birth.
    assert_eq!(table.get(0x700), Some(true));
    // Two neighbours and a live centre: survival.
    assert_eq!(table.get(0x121), Some(true));
    // Two neighbours and a dead centre: nothing.
    assert_eq!(table.get(0x101), Some(false));
    // Three neighbours and a live centre: survival.
    assert_eq!(table.get(0x720), Some(true));
    // Four neighbours: death by crowding.
    assert_eq!(table.get(0x171), Some(false));
    // All nine alive.
    assert_eq!(table.get(0x777), Some(false));
}

#[test]
fn one_gen_looks_at_the_window_bits_only() {
    let world = empty_world();
    for mask in [0x700u32, 0x121, 0x101, 0x777, 0x000, 0x720] {
        let plain = world.one_gen(mask).population();
        assert_eq!(world.one_gen(mask | 0x888).population(), plain);
        assert_eq!(world.one_gen(mask | 0xffff_f000).population(), plain);
    }
}

#[test]
fn one_gen_gives_a_single_cell() {
    let world = empty_world();
    let born = world.one_gen(0x700);
    assert_eq!(born.level(), 0);
    assert_eq!(born.population(), 1);
    assert_eq!(born.get_bit(0, 0), 1);
    let dead = world.one_gen(0x777);
    assert_eq!(dead.level(), 0);
    assert_eq!(dead.population(), 0);
    assert_eq!(dead.get_bit(0, 0), 0);
}
