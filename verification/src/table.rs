//! The rule as a table: the next state of the centre of every window of
//! three cells by three, by the window's bits.

use crate::geometry::{exp2, lemma_exp2_is_pow2};
use crate::life::{bit_at, conway, lemma_bit_at, live_neighbours, next_alive};
use std::collections::HashMap;
use vstd::prelude::*;

verus! {

broadcast use vstd::std_specs::hash::group_hash_axioms;

/// The bits of a mask that hold a window of three cells by three: the north
/// row in bits 10 to 8, the middle row in bits 6 to 4, the south row in bits
/// 2 to 0, each row from west (high) to east (low).
pub const WINDOW_BITS: u32 = 0x777;

/// The bits of a window that hold the eight cells around its centre.
pub const RING_BITS: u32 = 0x757;

/// The number of masks the lookup table answers: every mask up to
/// `WINDOW_BITS`.
pub const TABLE_SIZE: u32 = 0x778;

/// The number of ones in the binary representation of `v`.
#[verifier::opaque]
pub open spec fn popcount(v: nat) -> nat
    decreases v,
{
    if v == 0 {
        0
    } else {
        (v % 2) + popcount(v / 2)
    }
}

/// The number of live cells around the centre of the window in `mask`.
pub open spec fn ring_count(mask: u32) -> nat {
    popcount((mask & RING_BITS) as nat)
}

/// What the table holds for `mask`: the state of the window's centre one
/// generation on.
pub open spec fn next_state(mask: u32) -> bool {
    if mask == 0 {
        false
    } else {
        let ones = ring_count(mask);
        let center = (mask >> 5) & 1;
        ones == 3 || (ones == 2 && center == 1)
    }
}

/// The mask of the window around column `x`, row `y`: its nine cells are
/// nine bits, row by row from the north-west corner, which is bit 10.
pub open spec fn window_at(cells: Set<(int, int)>, x: int, y: int) -> int {
    1024 * bit_at(cells, x - 1, y - 1) + 512 * bit_at(cells, x, y - 1) + 256 * bit_at(
        cells,
        x + 1,
        y - 1,
    ) + 64 * bit_at(cells, x - 1, y) + 32 * bit_at(cells, x, y) + 16 * bit_at(cells, x + 1, y) + 4
        * bit_at(cells, x - 1, y + 1) + 2 * bit_at(cells, x, y + 1) + bit_at(cells, x + 1, y + 1)
}

/// The table of next states: one entry for each mask below `TABLE_SIZE`.
pub open spec fn conway_table() -> Map<u32, bool> {
    Map::new(|mask: u32| mask < TABLE_SIZE, |mask: u32| next_state(mask))
}

/// A number below two to the power `k` has at most `k` ones.
pub proof fn lemma_popcount_bound(v: nat, k: nat)
    requires
        v < exp2(k as int),
    ensures
        popcount(v) <= k,
    decreases k,
{
    reveal(popcount);
    if k == 0 {
    } else {
        lemma_popcount_bound(v / 2, (k - 1) as nat);
    }
}

/// Doubling a number and adding a bit adds that bit to its ones.
pub proof fn lemma_popcount_step(v: nat, bit: nat)
    requires
        bit <= 1,
    ensures
        popcount(2 * v + bit) == bit + popcount(v),
{
    reveal(popcount);
    assert((2 * v + bit) % 2 == bit);
    assert((2 * v + bit) / 2 == v);
}

/// Masking a window with the ring bits drops the centre, bit 5 is the centre,
/// and no bit lies outside the window bits.
proof fn lemma_window_bits(
    b0: u32,
    b1: u32,
    b2: u32,
    b3: u32,
    b4: u32,
    b5: u32,
    b6: u32,
    b7: u32,
    b8: u32,
    m: u32,
)
    by (bit_vector)
    requires
        b0 <= 1,
        b1 <= 1,
        b2 <= 1,
        b3 <= 1,
        b4 <= 1,
        b5 <= 1,
        b6 <= 1,
        b7 <= 1,
        b8 <= 1,
        m == 1024 * b0 + 512 * b1 + 256 * b2 + 64 * b3 + 32 * b4 + 16 * b5 + 4 * b6 + 2 * b7 + b8,
    ensures
        m & 0x757 == 1024 * b0 + 512 * b1 + 256 * b2 + 64 * b3 + 16 * b5 + 4 * b6 + 2 * b7 + b8,
        (m >> 5) & 1 == b4,
        m & 0x777 == m,
{
}

/// The ones of a ring are its live cells.
proof fn lemma_ring_popcount(
    b0: nat,
    b1: nat,
    b2: nat,
    b3: nat,
    b5: nat,
    b6: nat,
    b7: nat,
    b8: nat,
)
    requires
        b0 <= 1,
        b1 <= 1,
        b2 <= 1,
        b3 <= 1,
        b5 <= 1,
        b6 <= 1,
        b7 <= 1,
        b8 <= 1,
    ensures
        popcount(1024 * b0 + 512 * b1 + 256 * b2 + 64 * b3 + 16 * b5 + 4 * b6 + 2 * b7 + b8) == b0
            + b1 + b2 + b3 + b5 + b6 + b7 + b8,
{
    // The ring, built up bit by bit from the north-west corner.
    let v1 = 2 * b0 + b1;
    let v2 = 2 * v1 + b2;
    let v4 = 2 * (2 * v2) + b3;
    let v6 = 2 * (2 * v4) + b5;
    let v8 = 2 * (2 * v6) + b6;
    let v9 = 2 * v8 + b7;
    assert(popcount(0) == 0) by {
        reveal(popcount);
    }
    lemma_popcount_step(0, b0);
    lemma_popcount_step(b0, b1);
    lemma_popcount_step(v1, b2);
    lemma_popcount_step(v2, 0);
    lemma_popcount_step(2 * v2, b3);
    lemma_popcount_step(v4, 0);
    lemma_popcount_step(2 * v4, b5);
    lemma_popcount_step(v6, 0);
    lemma_popcount_step(2 * v6, b6);
    lemma_popcount_step(v8, b7);
    lemma_popcount_step(v9, b8);
    assert(1024 * b0 + 512 * b1 + 256 * b2 + 64 * b3 + 16 * b5 + 4 * b6 + 2 * b7 + b8 == 2 * v9
        + b8);
}

/// The table's entry for a mask is Conway's rule on the window in the mask:
/// on the state of its centre, which is bit 5, and on the number of live
/// cells around it.
pub proof fn lemma_next_state_is_conway(mask: u32)
    ensures
        next_state(mask) == conway((mask >> 5) & 1 == 1, ring_count(mask) as int),
{
    if mask == 0 {
        assert(0u32 & 0x757 == 0) by (bit_vector);
        assert(popcount(0) == 0) by {
            reveal(popcount);
        }
    }
}

/// Of a mask made of nine bits, the ring bits count the eight outer ones and
/// bit 5 is the one in the middle.
pub proof fn lemma_window_numbers(
    mask: u32,
    b0: int,
    b1: int,
    b2: int,
    b3: int,
    b4: int,
    b5: int,
    b6: int,
    b7: int,
    b8: int,
)
    requires
        0 <= b0 <= 1,
        0 <= b1 <= 1,
        0 <= b2 <= 1,
        0 <= b3 <= 1,
        0 <= b4 <= 1,
        0 <= b5 <= 1,
        0 <= b6 <= 1,
        0 <= b7 <= 1,
        0 <= b8 <= 1,
        mask == 1024 * b0 + 512 * b1 + 256 * b2 + 64 * b3 + 32 * b4 + 16 * b5 + 4 * b6 + 2 * b7
            + b8,
    ensures
        mask & WINDOW_BITS == mask,
        ring_count(mask) == b0 + b1 + b2 + b3 + b5 + b6 + b7 + b8,
        (mask >> 5) & 1 == b4,
        next_state(mask) == conway(b4 == 1, b0 + b1 + b2 + b3 + b5 + b6 + b7 + b8),
{
    lemma_window_bits(
        b0 as u32,
        b1 as u32,
        b2 as u32,
        b3 as u32,
        b4 as u32,
        b5 as u32,
        b6 as u32,
        b7 as u32,
        b8 as u32,
        mask,
    );
    lemma_ring_popcount(
        b0 as nat,
        b1 as nat,
        b2 as nat,
        b3 as nat,
        b5 as nat,
        b6 as nat,
        b7 as nat,
        b8 as nat,
    );
}

/// Of the mask of the window around a cell, the ring bits count the cell's
/// live neighbours and bit 5 is the cell; so the table's entry for the mask is
/// the cell one generation on.
pub proof fn lemma_window_next(cells: Set<(int, int)>, x: int, y: int)
    ensures
        0 <= window_at(cells, x, y) <= WINDOW_BITS,
        ring_count(window_at(cells, x, y) as u32) == live_neighbours(cells, x, y),
        ((window_at(cells, x, y) as u32) >> 5) & 1 == bit_at(cells, x, y),
        next_state(window_at(cells, x, y) as u32) == next_alive(cells, x, y),
{
    lemma_bit_at(cells, x - 1, y - 1);
    lemma_bit_at(cells, x, y - 1);
    lemma_bit_at(cells, x + 1, y - 1);
    lemma_bit_at(cells, x - 1, y);
    lemma_bit_at(cells, x, y);
    lemma_bit_at(cells, x + 1, y);
    lemma_bit_at(cells, x - 1, y + 1);
    lemma_bit_at(cells, x, y + 1);
    lemma_bit_at(cells, x + 1, y + 1);
    lemma_window_numbers(
        window_at(cells, x, y) as u32,
        bit_at(cells, x - 1, y - 1),
        bit_at(cells, x, y - 1),
        bit_at(cells, x + 1, y - 1),
        bit_at(cells, x - 1, y),
        bit_at(cells, x, y),
        bit_at(cells, x + 1, y),
        bit_at(cells, x - 1, y + 1),
        bit_at(cells, x, y + 1),
        bit_at(cells, x + 1, y + 1),
    );
}

/// The number of ones in the binary representation of `v`.
pub fn count_ones(v: u32) -> (n: u32)
    ensures
        n == popcount(v as nat),
        n <= 32,
{
    let mut rest = v;
    let mut n: u32 = 0;
    proof {
        reveal(popcount);
        lemma_exp2_is_pow2(32);
        vstd::arithmetic::power2::lemma2_to64();
        lemma_popcount_bound(v as nat, 32);
    }
    while rest != 0
        invariant
            n + popcount(rest as nat) == popcount(v as nat),
            popcount(v as nat) <= 32,
        decreases rest,
    {
        reveal(popcount);
        assert(rest & 1 == rest % 2 && rest >> 1 == rest / 2) by (bit_vector);
        n = n + (rest & 1);
        rest = rest >> 1;
    }
    n
}

/// The number of live cells around the centre of the window in `mask`.
pub fn neighbor_count(mask: u32) -> (n: u32)
    ensures
        n == ring_count(mask),
{
    count_ones(mask & RING_BITS)
}

/// The precomputed answers to "what becomes of the centre of this window":
/// one for each mask below `TABLE_SIZE`.
pub struct LookupTable {
    states: HashMap<u32, bool>,
}

impl View for LookupTable {
    type V = Map<u32, bool>;

    /// The table as a map from masks to next states.
    closed spec fn view(&self) -> Map<u32, bool> {
        self.states@
    }
}

impl LookupTable {
    /// A table is well formed when it is the table of Conway's rule.
    pub open spec fn wf(&self) -> bool {
        self@ == conway_table()
    }

    /// Builds the table: for each mask, Conway's rule on the window it holds.
    pub fn new() -> (table: LookupTable)
        ensures
            table.wf(),
    {
        let mut states: HashMap<u32, bool> = HashMap::new();
        for i in 0..TABLE_SIZE
            invariant
                forall|mask: u32| states@.contains_key(mask) <==> mask < i,
                forall|mask: u32| mask < i ==> states@[mask] == next_state(mask),
        {
            if i == 0 {
                states.insert(i, false);
            } else {
                let ones = neighbor_count(i);
                let center = (i >> 5) & 1;
                if ones == 3 || (ones == 2 && center == 1) {
                    states.insert(i, true);
                } else {
                    states.insert(i, false);
                }
            }
        }
        let table = LookupTable { states };
        assert(table@ =~= conway_table());
        table
    }

    /// The next state that the table holds for `mask`, if it holds one.
    pub fn get(&self, mask: u32) -> (state: Option<bool>)
        ensures
            state == if self@.contains_key(mask) {
                Some(self@[mask])
            } else {
                None
            },
    {
        match self.states.get(&mask) {
            Some(alive) => Some(*alive),
            None => None,
        }
    }
}

} // verus!
