//! The board as mathematics: a torus of dead and live cells, the eight
//! neighbours of each cell, and the rule that turns one generation into the
//! next.
//!
//! A grid is a `Seq<Seq<bool>>` of columns: `g[x][y]` says whether the cell in
//! column `x` and row `y` is alive.

use vstd::prelude::*;

verus! {

/// Whether `g` has `w` columns of `h` cells each.
pub open spec fn is_grid(g: Seq<Seq<bool>>, w: int, h: int) -> bool {
    &&& g.len() == w
    &&& forall|x: int| 0 <= x < w ==> (#[trigger] g[x]).len() == h
}

/// The index that follows `i` on a ring of `n` places.
pub open spec fn after(i: int, n: int) -> int {
    (i + 1) % n
}

/// The index that precedes `i` on a ring of `n` places.
pub open spec fn before(i: int, n: int) -> int {
    (i + n - 1) % n
}

/// One if the cell (x, y) of `g` is alive, zero if it is dead.
pub open spec fn lit(g: Seq<Seq<bool>>, x: int, y: int) -> int {
    if g[x][y] {
        1
    } else {
        0
    }
}

/// The number of live cells among the eight neighbours of (x, y). The grid
/// wraps at its edges, so on a board fewer than three cells wide or high one
/// cell fills several of the eight places and is counted once for each.
#[verifier::opaque]
pub open spec fn live_neighbors(g: Seq<Seq<bool>>, x: int, y: int) -> int {
    let w = g.len() as int;
    let h = g[x].len() as int;
    let right = after(x, w);
    let left = before(x, w);
    let down = after(y, h);
    let up = before(y, h);
    lit(g, x, down) + lit(g, x, up) + lit(g, right, y) + lit(g, left, y) + lit(g, right, down) + lit(
        g,
        right,
        up,
    ) + lit(g, left, down) + lit(g, left, up)
}

/// One if (ax, ay) and (bx, by) are the same cell, zero if not.
pub open spec fn same_cell(ax: int, ay: int, bx: int, by: int) -> int {
    if ax == bx && ay == by {
        1
    } else {
        0
    }
}

/// How many of the eight neighbour places of (sx, sy) the cell (cx, cy) fills
/// on a torus of `w` by `h` cells.
pub open spec fn hits(sx: int, sy: int, cx: int, cy: int, w: int, h: int) -> int {
    let right = after(sx, w);
    let left = before(sx, w);
    let down = after(sy, h);
    let up = before(sy, h);
    same_cell(sx, down, cx, cy) + same_cell(sx, up, cx, cy) + same_cell(right, sy, cx, cy) + same_cell(
        left,
        sy,
        cx,
        cy,
    ) + same_cell(right, down, cx, cy) + same_cell(right, up, cx, cy) + same_cell(left, down, cx, cy)
        + same_cell(left, up, cx, cy)
}

/// The rule of life: a cell is alive in the next generation if it has exactly
/// three live neighbours, or is alive and has exactly two.
pub open spec fn lives_on(alive: bool, neighbors: int) -> bool {
    neighbors == 3 || (alive && neighbors == 2)
}

/// The generation that follows `g`.
pub open spec fn evolve(g: Seq<Seq<bool>>) -> Seq<Seq<bool>> {
    Seq::new(g.len(), |x: int| Seq::new(g[x].len(), |y: int| lives_on(g[x][y], live_neighbors(g, x, y))))
}

/// The grid of `w` by `h` cells with no live cell.
pub open spec fn dead_grid(w: int, h: int) -> Seq<Seq<bool>> {
    Seq::new(w as nat, |x: int| Seq::new(h as nat, |y: int| false))
}

/// On a ring, the index after the last is the first and the index before the
/// first is the last; elsewhere the neighbours are one step away.
pub proof fn lemma_ring(i: int, n: int)
    requires
        0 <= i < n,
    ensures
        after(i, n) == if i + 1 == n { 0 } else { i + 1 },
        before(i, n) == if i == 0 { n - 1 } else { i - 1 },
{
    assert((i + 1) % n == if i + 1 == n { 0 } else { i + 1 }) by (nonlinear_arith)
        requires
            0 <= i < n,
    ;
    assert((i + n - 1) % n == if i == 0 { n - 1 } else { i - 1 }) by (nonlinear_arith)
        requires
            0 <= i < n,
    ;
}

/// The index that follows `i` on a ring of `n` places.
pub fn after_index(i: usize, n: usize) -> (j: usize)
    requires
        i < n,
    ensures
        j == after(i as int, n as int),
        j < n,
{
    proof {
        lemma_ring(i as int, n as int);
    }
    (i + 1) % n
}

/// The index that precedes `i` on a ring of `n` places.
pub fn before_index(i: usize, n: usize) -> (j: usize)
    requires
        i < n,
    ensures
        j == before(i as int, n as int),
        j < n,
{
    proof {
        lemma_ring(i as int, n as int);
    }
    if i == 0 {
        n - 1
    } else {
        i - 1
    }
}

/// A cell has eight neighbours, so between none and eight of them are alive.
pub proof fn lemma_count_range(g: Seq<Seq<bool>>, x: int, y: int)
    ensures
        0 <= live_neighbors(g, x, y) <= 8,
{
    reveal(live_neighbors);
}

/// The change that a cell's turning from `was` to `is` makes to a tally to
/// which the cell contributes `weight` while alive.
pub open spec fn swing(was: bool, is: bool, weight: int) -> int {
    if was == is {
        0
    } else if is {
        weight
    } else {
        -weight
    }
}

/// When two grids differ in at most the cell (sx, sy), the live-neighbour
/// count of any cell (cx, cy) differs by as many as (cx, cy) fills neighbour
/// places of (sx, sy): up where (sx, sy) came alive, down where it died.
pub proof fn lemma_flip(g: Seq<Seq<bool>>, g2: Seq<Seq<bool>>, w: int, h: int, sx: int, sy: int, cx: int, cy: int)
    requires
        is_grid(g, w, h),
        is_grid(g2, w, h),
        0 <= sx < w,
        0 <= sy < h,
        0 <= cx < w,
        0 <= cy < h,
        forall|x: int, y: int| 0 <= x < w && 0 <= y < h && !(x == sx && y == sy) ==> g2[x][y] == g[x][y],
    ensures
        live_neighbors(g2, cx, cy) == live_neighbors(g, cx, cy) + swing(
            g[sx][sy],
            g2[sx][sy],
            hits(sx, sy, cx, cy, w, h),
        ),
        0 <= hits(sx, sy, cx, cy, w, h) <= 8,
{
    reveal(live_neighbors);
    lemma_ring(sx, w);
    lemma_ring(sy, h);
    lemma_ring(cx, w);
    lemma_ring(cy, h);
}

/// The grid after `n` generations from `g`.
pub open spec fn evolve_n(g: Seq<Seq<bool>>, n: nat) -> Seq<Seq<bool>>
    decreases n,
{
    if n == 0 {
        g
    } else {
        evolve(evolve_n(g, (n - 1) as nat))
    }
}

/// Every generation of a grid has the shape of the grid.
pub proof fn lemma_evolve_keeps_shape(g: Seq<Seq<bool>>, w: int, h: int, n: nat)
    requires
        is_grid(g, w, h),
    ensures
        is_grid(evolve_n(g, n), w, h),
    decreases n,
{
    if n > 0 {
        lemma_evolve_keeps_shape(g, w, h, (n - 1) as nat);
    }
}

/// The board wraps around: the cells (0, 0) and (w - 1, h - 1) are
/// neighbours, so each counts the other when it is alive.
pub proof fn lemma_corners_touch(g: Seq<Seq<bool>>, w: int, h: int)
    requires
        is_grid(g, w, h),
        w > 0,
        h > 0,
    ensures
        hits(0, 0, w - 1, h - 1, w, h) >= 1,
        hits(w - 1, h - 1, 0, 0, w, h) >= 1,
        g[w - 1][h - 1] ==> live_neighbors(g, 0, 0) >= 1,
        g[0][0] ==> live_neighbors(g, w - 1, h - 1) >= 1,
{
    reveal(live_neighbors);
    lemma_ring(0, w);
    lemma_ring(0, h);
    lemma_ring(w - 1, w);
    lemma_ring(h - 1, h);
}

/// The grid of `w` by `h` cells whose only live cells are the block of two by
/// two cells that starts at (bx, by).
pub open spec fn block_grid(w: int, h: int, bx: int, by: int) -> Seq<Seq<bool>> {
    Seq::new(
        w as nat,
        |x: int|
            Seq::new(h as nat, |y: int| (x == bx || x == after(bx, w)) && (y == by || y == after(by, h))),
    )
}

/// A block on a board of at least three by three cells is the same in the
/// next generation: each of its cells has three live neighbours, and no dead
/// cell has exactly three.
pub proof fn lemma_block_is_still(w: int, h: int, bx: int, by: int)
    requires
        w >= 3,
        h >= 3,
        0 <= bx < w,
        0 <= by < h,
    ensures
        evolve(block_grid(w, h, bx, by)) == block_grid(w, h, bx, by),
{
    let g = block_grid(w, h, bx, by);
    lemma_ring(bx, w);
    lemma_ring(by, h);
    assert forall|x: int, y: int| 0 <= x < w && 0 <= y < h implies lives_on(
        #[trigger] g[x][y],
        live_neighbors(g, x, y),
    ) == g[x][y] by {
        reveal(live_neighbors);
        lemma_ring(x, w);
        lemma_ring(y, h);
    }
    assert(evolve(g) =~~= g);
}

/// A block on a board of at least three by three cells stays as it is through
/// any number of generations.
pub proof fn lemma_block_stays(w: int, h: int, bx: int, by: int, n: nat)
    requires
        w >= 3,
        h >= 3,
        0 <= bx < w,
        0 <= by < h,
    ensures
        evolve_n(block_grid(w, h, bx, by), n) == block_grid(w, h, bx, by),
    decreases n,
{
    if n > 0 {
        lemma_block_stays(w, h, bx, by, (n - 1) as nat);
        lemma_block_is_still(w, h, bx, by);
    }
}

} // verus!
