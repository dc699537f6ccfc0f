//! The squares that the blocks of a tree span: their sides, their edges, and
//! how a coordinate passes from a block into one of its quadrants.

use vstd::prelude::*;

verus! {

/// The deepest tree the library builds. A node of this level spans every
/// coordinate an `i32` can hold, and its population still fits an `i64`.
pub const MAX_LEVEL: i32 = 31;

/// Two to the power `k`; one for every `k` below one.
pub open spec fn exp2(k: int) -> int
    decreases k,
{
    if k <= 0 {
        1
    } else {
        2 * exp2(k - 1)
    }
}

/// How far a coordinate moves when it passes from a node of `level` into one
/// of its quadrants: a quarter of the node's side, and nothing where the
/// quadrants are single cells.
pub open spec fn quadrant_offset(level: int) -> int {
    if level <= 1 {
        0
    } else {
        exp2(level - 2)
    }
}

/// The smallest coordinate inside a node of `level`.
pub open spec fn low(level: int) -> int {
    if level <= 0 {
        0
    } else {
        -exp2(level - 1)
    }
}

/// The largest coordinate inside a node of `level`.
pub open spec fn high(level: int) -> int {
    if level <= 0 {
        0
    } else {
        exp2(level - 1) - 1
    }
}

/// Whether column `x`, row `y` lies inside the square of a node of `level`,
/// whose origin is its centre.
pub open spec fn covers(level: int, x: int, y: int) -> bool {
    low(level) <= x <= high(level) && low(level) <= y <= high(level)
}

/// The coordinate inside a node of `level` that `x` is taken for: `x` itself
/// where it is inside, else the nearest edge.
pub open spec fn clamp(level: int, x: int) -> int {
    if x < low(level) {
        low(level)
    } else if x > high(level) {
        high(level)
    } else {
        x
    }
}

/// Whether two positions are taken for the same cell of a node of `level`.
pub open spec fn same_cell(level: int, x: int, y: int, x2: int, y2: int) -> bool {
    clamp(level, x) == clamp(level, x2) && clamp(level, y) == clamp(level, y2)
}

/// The positions inside a node of `level`.
pub open spec fn region(level: int) -> Set<(int, int)> {
    Set::new(|p: (int, int)| covers(level, p.0, p.1))
}

/// `exp2` is vstd's `pow2`.
pub proof fn lemma_exp2_is_pow2(k: nat)
    ensures
        exp2(k as int) == vstd::arithmetic::power2::pow2(k),
    decreases k,
{
    if k == 0 {
        vstd::arithmetic::power2::lemma2_to64();
    } else {
        lemma_exp2_is_pow2((k - 1) as nat);
        vstd::arithmetic::power2::lemma_pow2_unfold(k);
    }
}

/// `exp2` is positive.
pub proof fn lemma_exp2_positive(k: int)
    ensures
        1 <= exp2(k),
    decreases k,
{
    if k > 0 {
        lemma_exp2_positive(k - 1);
    }
}

/// `exp2` is positive and grows with its exponent.
pub proof fn lemma_exp2_monotonic(j: int, k: int)
    requires
        j <= k,
    ensures
        0 < exp2(j) <= exp2(k),
    decreases k,
{
    if k <= 0 {
    } else if j == k {
        lemma_exp2_monotonic(j - 1, k - 1);
    } else {
        lemma_exp2_monotonic(j, k - 1);
    }
}

/// What a block spans, a block of a higher level spans too.
pub proof fn lemma_covers_grows(low_level: int, level: int, x: int, y: int)
    requires
        low_level <= level,
    ensures
        covers(low_level, x, y) ==> covers(level, x, y),
{
    lemma_exp2_positive(level - 1);
    if low_level >= 1 {
        lemma_exp2_monotonic(low_level - 1, level - 1);
    }
}

/// Two to the power `k`, for an exponent that keeps it inside an `i32`.
pub fn power_of_two(k: i32) -> (p: i32)
    requires
        0 <= k <= 30,
    ensures
        p == exp2(k as int),
        0 < p <= 0x4000_0000,
{
    let shift: u32 = k as u32;
    let p: u32 = 1u32 << shift;
    proof {
        lemma_exp2_is_pow2(shift as nat);
        vstd::arithmetic::power2::lemma2_to64();
        if shift < 30 {
            vstd::arithmetic::power2::lemma_pow2_strictly_increases(shift as nat, 30);
        }
        vstd::bits::lemma_u32_shl_is_mul(1u32, shift);
        lemma_exp2_monotonic(0, k as int);
    }
    p as i32
}

/// The offset by which a node of `level` shifts a coordinate on the way into
/// a quadrant.
pub fn quadrant_shift(level: i32) -> (d: i32)
    requires
        1 <= level <= MAX_LEVEL,
    ensures
        d == quadrant_offset(level as int),
        0 <= d <= 0x2000_0000,
{
    if level == 1 {
        0
    } else {
        let d = power_of_two(level - 2);
        proof {
            lemma_exp2_monotonic(level as int - 2, 29);
            assert(exp2(29) == 0x2000_0000) by {
                lemma_exp2_is_pow2(29);
                vstd::arithmetic::power2::lemma2_to64();
            }
        }
        d
    }
}

} // verus!
