//! How stored counts follow the cells while the cells change one at a time.
//!
//! A walk visits the cells column by column. Where a cell's liveness changes,
//! the walk adds one to, or takes one from, the count stored with each of the
//! cell's eight neighbours. At every moment the stored counts are the exact
//! counts of a grid that has the new liveness in the cells already visited
//! and the old liveness in the others.

use vstd::prelude::*;
use crate::cell::{lemma_encode_value, CellState};
use crate::torus::{
    dead_grid, hits, is_grid, lemma_count_range, lemma_flip, lemma_ring, live_neighbors, swing,
};

verus! {

/// A byte after `delta` has been added to it `times` times, wrapping at 256.
pub open spec fn shifted(byte: u8, delta: u8, times: int) -> u8 {
    ((byte + delta * times) % 256) as u8
}

/// The byte that a finished generation `now` holds for cell (x, y), where
/// `was` is the grid it is compared with: the exact live-neighbour count, the
/// liveness, and whether the liveness differs from that in `was`.
pub open spec fn settled(now: Seq<Seq<bool>>, was: Seq<Seq<bool>>, x: int, y: int) -> u8 {
    (CellState { count: live_neighbors(now, x, y) as u8, alive: now[x][y], changed: now[x][y] != was[x][y] }).encode()
}

/// The amount that is added to the neighbours of a cell that went from `was`
/// to `is`: one for a birth, minus one (as a byte) for a death.
pub(crate) open spec fn delta_for(was: bool, is: bool) -> u8 {
    if was == is {
        0
    } else if is {
        1
    } else {
        0xFF
    }
}

/// Whether a column-by-column walk that stands at (x, y) has passed (cx, cy).
pub(crate) open spec fn scanned(cx: int, cy: int, x: int, y: int) -> bool {
    cx < x || (cx == x && cy < y)
}

/// The grid that counts describe while changes are being propagated: the
/// cells that the walk has passed are as in `now`, the others as in `was`.
pub(crate) open spec fn blend(was: Seq<Seq<bool>>, now: Seq<Seq<bool>>, x: int, y: int) -> Seq<Seq<bool>> {
    Seq::new(
        was.len(),
        |cx: int| Seq::new(was[cx].len(), |cy: int| if scanned(cx, cy, x, y) { now[cx][cy] } else { was[cx][cy] }),
    )
}

/// The byte of cell (cx, cy) while the walk stands at (x, y): flags as in the
/// finished generation, count as in the blend.
pub(crate) open spec fn in_progress(was: Seq<Seq<bool>>, now: Seq<Seq<bool>>, x: int, y: int, cx: int, cy: int) -> u8 {
    (CellState {
        count: live_neighbors(blend(was, now, x, y), cx, cy) as u8,
        alive: now[cx][cy],
        changed: now[cx][cy] != was[cx][cy],
    }).encode()
}

/// Shifting a byte some times and then some more is shifting it as many
/// times as both together.
pub(crate) proof fn lemma_shifted_again(byte: u8, delta: u8, first: int, second: int)
    requires
        0 <= first,
        0 <= second,
    ensures
        shifted(shifted(byte, delta, first), delta, second) == shifted(byte, delta, first + second),
{
    let p = delta * first;
    let q = delta * second;
    assert(delta * (first + second) == p + q) by (nonlinear_arith)
        requires
            p == delta * first,
            q == delta * second,
    ;
    assert(0 <= p && 0 <= q) by (nonlinear_arith)
        requires
            p == delta * first,
            q == delta * second,
            0 <= first,
            0 <= second,
            0 <= delta,
    ;
    assert((((byte + p) % 256) + q) % 256 == (byte + p + q) % 256);
}

/// Shifting a byte by zero leaves it as it is.
pub(crate) proof fn lemma_shifted_by_nothing(byte: u8, times: int)
    ensures
        shifted(byte, 0, times) == byte,
{
    assert(0u8 * times == 0) by (nonlinear_arith);
}

/// Before the walk starts the blend is the old grid.
pub(crate) proof fn lemma_blend_start(was: Seq<Seq<bool>>, now: Seq<Seq<bool>>, w: int, h: int)
    requires
        is_grid(was, w, h),
        is_grid(now, w, h),
    ensures
        blend(was, now, 0, 0) == was,
{
    assert(blend(was, now, 0, 0) =~~= was);
}

/// Once the walk has passed every column the blend is the new grid.
pub(crate) proof fn lemma_blend_end(was: Seq<Seq<bool>>, now: Seq<Seq<bool>>, w: int, h: int)
    requires
        is_grid(was, w, h),
        is_grid(now, w, h),
    ensures
        blend(was, now, w, 0) == now,
{
    assert(blend(was, now, w, 0) =~~= now);
}

/// The end of one column is the start of the next.
pub(crate) proof fn lemma_blend_next_column(was: Seq<Seq<bool>>, now: Seq<Seq<bool>>, w: int, h: int, x: int)
    requires
        is_grid(was, w, h),
        is_grid(now, w, h),
        0 <= x < w,
    ensures
        blend(was, now, x, h) == blend(was, now, x + 1, 0),
{
    assert(blend(was, now, x, h) =~~= blend(was, now, x + 1, 0));
}

/// A packed byte whose count moves from `n` to `m` by `times` births or deaths
/// among the neighbours is the byte shifted `times` times by the delta of
/// such a change.
pub(crate) proof fn lemma_shift_count(n: int, m: int, times: int, alive: bool, changed: bool, was: bool, is: bool)
    requires
        0 <= n <= 8,
        0 <= m <= 8,
        0 <= times <= 8,
        m == n + swing(was, is, times),
    ensures
        shifted(
            (CellState { count: n as u8, alive, changed }).encode(),
            delta_for(was, is),
            times,
        ) == (CellState { count: m as u8, alive, changed }).encode(),
{
    let from = CellState { count: n as u8, alive, changed };
    let to = CellState { count: m as u8, alive, changed };
    lemma_encode_value(from);
    lemma_encode_value(to);
    let byte = from.encode();
    let delta = delta_for(was, is);
    if was == is {
        assert(delta * times == 0) by (nonlinear_arith)
            requires
                delta == 0,
        ;
    } else if is {
        assert(delta * times == times) by (nonlinear_arith)
            requires
                delta == 1,
        ;
    } else {
        assert(delta * times == 256 * times - times) by (nonlinear_arith)
            requires
                delta == 255,
        ;
        vstd::arithmetic::div_mod::lemma_mod_multiples_vanish(times, byte - times, 256);
    }
}

/// Adding the delta of cell (x, y) to a neighbour's byte once for each place
/// that the neighbour fills moves the byte from what it is when the walk
/// reaches (x, y) to what it is when the walk leaves it.
pub(crate) proof fn lemma_propagate(
    was: Seq<Seq<bool>>,
    now: Seq<Seq<bool>>,
    w: int,
    h: int,
    x: int,
    y: int,
    cx: int,
    cy: int,
)
    requires
        is_grid(was, w, h),
        is_grid(now, w, h),
        0 <= x < w,
        0 <= y < h,
        0 <= cx < w,
        0 <= cy < h,
    ensures
        shifted(
            in_progress(was, now, x, y, cx, cy),
            delta_for(was[x][y], now[x][y]),
            hits(x, y, cx, cy, w, h),
        ) == in_progress(was, now, x, y + 1, cx, cy),
{
    let g = blend(was, now, x, y);
    let g2 = blend(was, now, x, y + 1);
    lemma_flip(g, g2, w, h, x, y, cx, cy);
    lemma_count_range(g, cx, cy);
    lemma_count_range(g2, cx, cy);
    lemma_shift_count(
        live_neighbors(g, cx, cy),
        live_neighbors(g2, cx, cy),
        hits(x, y, cx, cy, w, h),
        now[cx][cy],
        now[cx][cy] != was[cx][cy],
        was[x][y],
        now[x][y],
    );
}

/// The settled byte of a cell of the dead grid is zero.
pub(crate) proof fn lemma_settled_dead(w: int, h: int, x: int, y: int)
    requires
        0 <= x < w,
        0 <= y < h,
    ensures
        settled(dead_grid(w, h), dead_grid(w, h), x, y) == 0,
{
    let g = dead_grid(w, h);
    reveal(live_neighbors);
    lemma_ring(x, w);
    lemma_ring(y, h);
    assert(live_neighbors(g, x, y) == 0);
    assert((0u8 & 0x1F) | 0u8 | 0u8 == 0) by (bit_vector);
}

/// Marking a seeded cell alive and changed and adding one to the byte of each
/// of its neighbours, or leaving everything as it is where the seed keeps the
/// cell dead, moves every byte from what it is when the walk reaches (x, y)
/// to what it is when the walk leaves it.
pub(crate) proof fn lemma_sow(now: Seq<Seq<bool>>, w: int, h: int, x: int, y: int, cx: int, cy: int)
    requires
        is_grid(now, w, h),
        0 <= x < w,
        0 <= y < h,
        0 <= cx < w,
        0 <= cy < h,
    ensures
        ({
            let was = dead_grid(w, h);
            let reached = settled(blend(was, now, x, y), was, cx, cy);
            let marked = if cx == x && cy == y && now[x][y] {
                reached | 0xC0
            } else {
                reached
            };
            shifted(marked, delta_for(false, now[x][y]), hits(x, y, cx, cy, w, h)) == settled(
                blend(was, now, x, y + 1),
                was,
                cx,
                cy,
            )
        }),
{
    let was = dead_grid(w, h);
    let g = blend(was, now, x, y);
    let g2 = blend(was, now, x, y + 1);
    lemma_flip(g, g2, w, h, x, y, cx, cy);
    lemma_count_range(g, cx, cy);
    lemma_count_range(g2, cx, cy);
    let n = live_neighbors(g, cx, cy);
    if cx == x && cy == y && now[x][y] {
        let count = n as u8;
        assert(((count & 0x1F) | 0u8 | 0u8) | 0xC0 == (count & 0x1F) | 0x80u8 | 0x40u8) by (bit_vector);
    }
    lemma_shift_count(
        n,
        live_neighbors(g2, cx, cy),
        hits(x, y, cx, cy, w, h),
        g2[cx][cy],
        g2[cx][cy],
        false,
        now[x][y],
    );
}

} // verus!
