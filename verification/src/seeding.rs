//! How a seed fills a board, and the generations that follow from it.
//!
//! Each column draws its cells from a stream of its own, seeded from the
//! board's seed and the column's number.

use vstd::prelude::*;
use crate::lfsr::{lemma_zero_seed_is_one, stream_state};
use crate::torus::{dead_grid, evolve_n};

verus! {

/// The seed of the stream that fills column `x`: `x + seed + 1`, wrapping at
/// 2^32, so that every column draws from a stream of its own.
pub open spec fn column_seed(x: int, seed: u32) -> u32 {
    ((x + seed + 1) % 0x1_0000_0000) as u32
}

/// Whether seeding with `seed` makes cell (x, y) alive: bit 7 of the value
/// drawn for row `y` from the stream of column `x` decides.
pub open spec fn seeded_alive(seed: u32, x: int, y: int) -> bool {
    stream_state(column_seed(x, seed), (y + 1) as nat) & 0x80 != 0
}

/// The grid of `w` by `h` cells that seeding with `seed` gives.
pub open spec fn seeded_grid(w: int, h: int, seed: u32) -> Seq<Seq<bool>> {
    Seq::new(w as nat, |x: int| Seq::new(h as nat, |y: int| seeded_alive(seed, x, y)))
}

/// The grid after seeding with `seed` and `n` steps.
pub open spec fn generation(w: int, h: int, seed: u32, n: nat) -> Seq<Seq<bool>> {
    evolve_n(seeded_grid(w, h, seed), n)
}

/// The grid against which generation `n` marks its cells as changed: the
/// dead grid for the seeded generation, the generation before for the others.
pub open spec fn predecessor(w: int, h: int, seed: u32, n: nat) -> Seq<Seq<bool>> {
    if n == 0 {
        dead_grid(w, h)
    } else {
        generation(w, h, seed, (n - 1) as nat)
    }
}

/// Where `x + seed + 1` wraps to zero, column `x` is filled from the stream
/// of seed one, as that is the stream that a zero seed starts.
pub proof fn lemma_zero_column_seed(seed: u32, x: int, y: int)
    requires
        column_seed(x, seed) == 0,
    ensures
        seeded_alive(seed, x, y) == (stream_state(1, (y + 1) as nat) & 0x80 != 0),
{
    lemma_zero_seed_is_one((y + 1) as nat);
}

/// A board of one column is filled from seed zero as it is from the largest
/// seed: the one draws from the stream of seed one, the other from that of a
/// zero that is turned into one.
pub proof fn lemma_single_column_zero_seed(h: int)
    ensures
        seeded_grid(1, h, 0) == seeded_grid(1, h, 0xFFFF_FFFF),
{
    assert forall|y: int| seeded_alive(0, 0, y) == seeded_alive(0xFFFF_FFFF, 0, y) by {
        lemma_zero_seed_is_one((y + 1) as nat);
    }
    assert(seeded_grid(1, h, 0) =~~= seeded_grid(1, h, 0xFFFF_FFFF));
}

/// The seed of the stream that fills column `x`.
pub(crate) fn column_seed_of(x: usize, seed: u32) -> (s: u32)
    ensures
        s == column_seed(x as int, seed),
{
    let low: u32 = #[verifier::truncate]
    (x as u32);
    assert(low == (x as u64) % 0x1_0000_0000u64) by (bit_vector)
        requires
            low == x as u32,
    ;
    low.wrapping_add(seed).wrapping_add(1)
}

} // verus!
