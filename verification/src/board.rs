//! The board: two buffers of packed cell bytes, one of which holds the current
//! generation, and the operations that seed it and advance it.

use vstd::prelude::*;
use crate::cell::{alive_of, count_of, lemma_pack_round_trip, CellState, ALIVE_BIT, CHANGED_BIT, COUNT_MASK};
use crate::lfsr::{stream_state, LFSR};
use crate::propagation::{
    blend, in_progress, lemma_blend_end, lemma_blend_next_column, lemma_blend_start, lemma_propagate,
    lemma_settled_dead, lemma_shifted_again, lemma_shifted_by_nothing, lemma_sow, scanned, settled, shifted,
};
use crate::seeding::{column_seed, column_seed_of, generation, predecessor, seeded_grid};
use crate::torus::{
    after_index, before_index, dead_grid, evolve, hits, is_grid, lemma_corners_touch, lemma_count_range,
    lemma_evolve_keeps_shape, lemma_ring, lit, live_neighbors, lives_on, same_cell,
};

verus! {

/// A board of `W` columns and `H` rows whose edges wrap around.
///
/// `counts[b][x][y]` is the packed byte of cell (x, y) in buffer `b`, and
/// `buf` selects the buffer that holds the current generation. The other
/// buffer is scratch space for the next one.
#[derive(Debug)]
pub struct Conway<const W: usize, const H: usize> {
    pub counts: [[[u8; H]; W]; 2],
    pub buf: usize,
}

impl<const W: usize, const H: usize> View for Conway<W, H> {
    type V = Seq<Seq<bool>>;

    /// The current generation: which cells are alive.
    open spec fn view(&self) -> Seq<Seq<bool>> {
        Seq::new(W as nat, |x: int| Seq::new(H as nat, |y: int| alive_of(self.cell(self.buf as int, x, y))))
    }
}

impl<const W: usize, const H: usize> Conway<W, H> {
    /// The byte of cell (x, y) in buffer `b`.
    pub open spec fn cell(&self, b: int, x: int, y: int) -> u8 {
        self.counts[b][x][y]
    }

    /// The current buffer is a finished generation: every cell's stored count
    /// is the number of live cells among its eight neighbours.
    pub open spec fn wf(&self) -> bool {
        &&& self.buf < 2
        &&& forall|x: int, y: int|
            0 <= x < W && 0 <= y < H ==> count_of(#[trigger] self.cell(self.buf as int, x, y))
                == live_neighbors(self@, x, y)
    }

    /// Whether the board is in the state that seeding with `seed` and then
    /// `n` steps lead to: the current buffer holds generation `n`, the other
    /// one the generation before, or zeros where there is none.
    pub open spec fn at_generation(&self, seed: u32, n: nat) -> bool {
        &&& self.buf == n % 2
        &&& forall|x: int, y: int|
            0 <= x < W && 0 <= y < H ==> #[trigger] self.cell(self.buf as int, x, y) == settled(
                generation(W as int, H as int, seed, n),
                predecessor(W as int, H as int, seed, n),
                x,
                y,
            )
        &&& forall|x: int, y: int|
            0 <= x < W && 0 <= y < H ==> #[trigger] self.cell(1 - self.buf, x, y) == if n == 0 {
                0
            } else {
                settled(
                    generation(W as int, H as int, seed, (n - 1) as nat),
                    predecessor(W as int, H as int, seed, (n - 1) as nat),
                    x,
                    y,
                )
            }
    }

    /// A board on which every cell is dead.
    pub fn new() -> (board: Conway<W, H>)
        ensures
            board.wf(),
            board.buf == 0,
            board@ == dead_grid(W as int, H as int),
            forall|b: int, x: int, y: int|
                0 <= b < 2 && 0 <= x < W && 0 <= y < H ==> #[trigger] board.cell(b, x, y) == 0,
    {
        let board = Conway { counts: [[[0u8; H]; W]; 2], buf: 0 };
        proof {
            lemma_blank_is_consistent(board);
        }
        board
    }

    /// Resets every byte of both buffers and makes buffer 0 the current one.
    fn clear(&mut self)
        ensures
            final(self).wf(),
            final(self).buf == 0,
            final(self)@ == dead_grid(W as int, H as int),
            forall|b: int, x: int, y: int|
                0 <= b < 2 && 0 <= x < W && 0 <= y < H ==> #[trigger] final(self).cell(b, x, y) == 0,
    {
        for x in 0..W
            invariant
                forall|b: int, cx: int, cy: int|
                    0 <= b < 2 && 0 <= cx < x && 0 <= cy < H ==> #[trigger] self.cell(b, cx, cy) == 0,
        {
            for y in 0..H
                invariant
                    x < W,
                    forall|b: int, cx: int, cy: int|
                        0 <= b < 2 && 0 <= cx < x && 0 <= cy < H ==> #[trigger] self.cell(b, cx, cy) == 0,
                    forall|b: int, cy: int| 0 <= b < 2 && 0 <= cy < y ==> #[trigger] self.cell(b, x as int, cy) == 0,
            {
                self.store(0, x, y, 0);
                self.store(1, x, y, 0);
            }
        }
        let ghost filled = *self;
        self.buf = 0;
        proof {
            assert forall|b: int, x: int, y: int| 0 <= b < 2 && 0 <= x < W && 0 <= y < H implies #[trigger] self.cell(
                b,
                x,
                y,
            ) == 0 by {
                assert(self.cell(b, x, y) == filled.cell(b, x, y));
            }
            lemma_blank_is_consistent(*self);
        }
    }

    /// Whether cell (x, y) of the current generation is alive.
    pub fn is_alive(&self, x: usize, y: usize) -> (alive: bool)
        requires
            self.buf < 2,
            x < W,
            y < H,
        ensures
            alive == self@[x as int][y as int],
    {
        self.load(self.buf, x, y) & ALIVE_BIT != 0
    }

    /// One if cell (x, y) of the current generation is alive, zero if not.
    fn lit_at(&self, x: usize, y: usize) -> (n: u8)
        requires
            self.buf < 2,
            x < W,
            y < H,
        ensures
            n == lit(self@, x as int, y as int),
    {
        if self.is_alive(x, y) {
            1
        } else {
            0
        }
    }

    /// Counts the live cells among the eight neighbours of (x, y) in the
    /// current generation.
    fn live_around(&self, x: usize, y: usize) -> (n: u8)
        requires
            self.buf < 2,
            x < W,
            y < H,
        ensures
            n == live_neighbors(self@, x as int, y as int),
    {
        proof {
            reveal(live_neighbors);
        }
        let right: usize = after_index(x, W);
        let left: usize = before_index(x, W);
        let down: usize = after_index(y, H);
        let up: usize = before_index(y, H);
        self.lit_at(x, down) + self.lit_at(x, up) + self.lit_at(right, y) + self.lit_at(left, y) + self.lit_at(
            right,
            down,
        ) + self.lit_at(right, up) + self.lit_at(left, down) + self.lit_at(left, up)
    }

    /// Whether the board is a finished generation. Recounts the live
    /// neighbours of every cell of the current buffer and compares the result
    /// with the count that the cell stores.
    pub fn is_consistent(&self) -> (ok: bool)
        ensures
            ok == self.wf(),
    {
        if self.buf >= 2 {
            return false;
        }
        for x in 0..W
            invariant
                self.buf < 2,
                forall|cx: int, cy: int|
                    0 <= cx < x && 0 <= cy < H ==> count_of(#[trigger] self.cell(self.buf as int, cx, cy))
                        == live_neighbors(self@, cx, cy),
        {
            for y in 0..H
                invariant
                    x < W,
                    self.buf < 2,
                    forall|cx: int, cy: int|
                        0 <= cx < W && 0 <= cy < H && scanned(cx, cy, x as int, y as int) ==> count_of(
                            #[trigger] self.cell(self.buf as int, cx, cy),
                        ) == live_neighbors(self@, cx, cy),
            {
                let stored: u8 = self.load(self.buf, x, y) & COUNT_MASK;
                if stored != self.live_around(x, y) {
                    return false;
                }
            }
        }
        true
    }

    /// Reads one byte.
    fn load(&self, buf: usize, x: usize, y: usize) -> (byte: u8)
        requires
            buf < 2,
            x < W,
            y < H,
        ensures
            byte == self.cell(buf as int, x as int, y as int),
    {
        self.counts[buf][x][y]
    }

    /// Writes one byte and leaves every other byte as it was.
    fn store(&mut self, buf: usize, x: usize, y: usize, byte: u8)
        requires
            buf < 2,
            x < W,
            y < H,
        ensures
            final(self).buf == old(self).buf,
            forall|b: int, cx: int, cy: int|
                0 <= b < 2 && 0 <= cx < W && 0 <= cy < H ==> #[trigger] final(self).cell(b, cx, cy) == if b
                    == buf && cx == x && cy == y {
                    byte
                } else {
                    old(self).cell(b, cx, cy)
                },
    {
        self.counts[buf][x][y] = byte;
    }

    /// Adds `delta` to one byte, wrapping at 256.
    fn bump(&mut self, delta: u8, buf: usize, x: usize, y: usize)
        requires
            buf < 2,
            x < W,
            y < H,
        ensures
            final(self).buf == old(self).buf,
            forall|b: int, cx: int, cy: int|
                0 <= b < 2 && 0 <= cx < W && 0 <= cy < H ==> #[trigger] final(self).cell(b, cx, cy) == if b
                    == buf {
                    shifted(old(self).cell(b, cx, cy), delta, same_cell(x as int, y as int, cx, cy))
                } else {
                    old(self).cell(b, cx, cy)
                },
    {
        let byte: u8 = self.load(buf, x, y);
        self.store(buf, x, y, byte.wrapping_add(delta));
    }

    /// Fills the board from `seed`: every byte is reset, then each cell that
    /// the seed makes alive is marked alive and changed and counted in its
    /// eight neighbours. Buffer 0 then holds the first generation.
    pub fn randomize(&mut self, seed: u32)
        ensures
            final(self).wf(),
            final(self).buf == 0,
            final(self)@ == seeded_grid(W as int, H as int, seed),
            forall|x: int, y: int|
                0 <= x < W && 0 <= y < H ==> #[trigger] final(self).cell(0, x, y) == settled(
                    seeded_grid(W as int, H as int, seed),
                    dead_grid(W as int, H as int),
                    x,
                    y,
                ),
            forall|x: int, y: int| 0 <= x < W && 0 <= y < H ==> #[trigger] final(self).cell(1, x, y) == 0,
            final(self).at_generation(seed, 0),
    {
        self.clear();
        let ghost was = dead_grid(W as int, H as int);
        let ghost now = seeded_grid(W as int, H as int, seed);
        proof {
            lemma_blend_start(was, now, W as int, H as int);
            assert forall|cx: int, cy: int| 0 <= cx < W && 0 <= cy < H implies #[trigger] self.cell(0, cx, cy)
                == settled(blend(was, now, 0, 0), was, cx, cy) by {
                lemma_settled_dead(W as int, H as int, cx, cy);
            }
        }
        for x in 0..W
            invariant
                was == dead_grid(W as int, H as int),
                now == seeded_grid(W as int, H as int, seed),
                self.buf == 0,
                forall|cx: int, cy: int| 0 <= cx < W && 0 <= cy < H ==> #[trigger] self.cell(1, cx, cy) == 0,
                forall|cx: int, cy: int|
                    0 <= cx < W && 0 <= cy < H ==> #[trigger] self.cell(0, cx, cy) == settled(
                        blend(was, now, x as int, 0),
                        was,
                        cx,
                        cy,
                    ),
        {
            let mut stream = LFSR::new(column_seed_of(x, seed));
            for y in 0..H
                invariant
                    x < W,
                    was == dead_grid(W as int, H as int),
                    now == seeded_grid(W as int, H as int, seed),
                    stream@ == stream_state(column_seed(x as int, seed), y as nat),
                    self.buf == 0,
                    forall|cx: int, cy: int| 0 <= cx < W && 0 <= cy < H ==> #[trigger] self.cell(1, cx, cy) == 0,
                    forall|cx: int, cy: int|
                        0 <= cx < W && 0 <= cy < H ==> #[trigger] self.cell(0, cx, cy) == settled(
                            blend(was, now, x as int, y as int),
                            was,
                            cx,
                            cy,
                        ),
            {
                let ghost reached = *self;
                let drawn: u32 = stream.next().unwrap();
                if drawn & 0x80 != 0 {
                    let byte: u8 = self.load(0, x, y);
                    self.store(0, x, y, byte | (ALIVE_BIT | CHANGED_BIT));
                    self.delta(1, 0, x, y);
                }
                proof {
                    assert(now[x as int][y as int] == (drawn & 0x80 != 0));
                    assert(is_grid(now, W as int, H as int));
                    assert(0x80u8 | 0x40u8 == 0xC0u8) by (bit_vector);
                    assert forall|cx: int, cy: int| 0 <= cx < W && 0 <= cy < H implies #[trigger] self.cell(
                        0,
                        cx,
                        cy,
                    ) == settled(blend(was, now, x as int, y + 1), was, cx, cy) by {
                        lemma_sow(now, W as int, H as int, x as int, y as int, cx, cy);
                        lemma_shifted_by_nothing(
                            reached.cell(0, cx, cy),
                            hits(x as int, y as int, cx, cy, W as int, H as int),
                        );
                    }
                }
            }
            proof {
                lemma_blend_next_column(was, now, W as int, H as int, x as int);
            }
        }
        let ghost done = *self;
        self.buf = 0;
        proof {
            lemma_blend_end(was, now, W as int, H as int);
            assert forall|x: int, y: int| 0 <= x < W && 0 <= y < H implies #[trigger] self.cell(0, x, y)
                == settled(now, was, x, y) by {
                assert(self.cell(0, x, y) == done.cell(0, x, y));
            }
            assert forall|x: int, y: int| 0 <= x < W && 0 <= y < H implies #[trigger] self.cell(1, x, y) == 0 by {
                assert(self.cell(1, x, y) == done.cell(1, x, y));
            }
            lemma_settled_board(*self, now, was);
        }
    }

    /// Advances the board by one generation.
    ///
    /// The rule of life is applied to every cell of the current buffer and the
    /// outcome written to the other buffer; then, for each cell whose liveness
    /// changed, the counts of its eight neighbours are adjusted; then the other
    /// buffer becomes the current one.
    pub fn step(&mut self)
        requires
            old(self).wf(),
        ensures
            final(self).wf(),
            final(self).buf == 1 - old(self).buf,
            final(self)@ == evolve(old(self)@),
            forall|x: int, y: int|
                0 <= x < W && 0 <= y < H ==> #[trigger] final(self).cell(final(self).buf as int, x, y) == settled(
                    evolve(old(self)@),
                    old(self)@,
                    x,
                    y,
                ),
            forall|x: int, y: int|
                0 <= x < W && 0 <= y < H ==> #[trigger] final(self).cell(old(self).buf as int, x, y) == old(
                    self,
                ).cell(old(self).buf as int, x, y),
            forall|seed: u32, n: nat| #[trigger]
                old(self).at_generation(seed, n) ==> final(self).at_generation(seed, (n + 1) as nat),
    {
        let (nb, tb): (usize, usize) = match self.buf {
            0 => (1, 0),
            _ => (0, 1),
        };
        let ghost start = *self;
        let ghost was = self@;
        let ghost now = evolve(was);

        for x in 0..W
            invariant
                start.wf(),
                was == start@,
                now == evolve(was),
                tb == start.buf,
                nb == 1 - tb,
                self.buf == tb,
                forall|cx: int, cy: int|
                    0 <= cx < W && 0 <= cy < H ==> #[trigger] self.cell(tb as int, cx, cy) == start.cell(
                        tb as int,
                        cx,
                        cy,
                    ),
                forall|cx: int, cy: int|
                    0 <= cx < W && 0 <= cy < H && scanned(cx, cy, x as int, 0) ==> #[trigger] self.cell(
                        nb as int,
                        cx,
                        cy,
                    ) == in_progress(was, now, 0, 0, cx, cy),
        {
            for y in 0..H
                invariant
                    x < W,
                    start.wf(),
                    was == start@,
                    now == evolve(was),
                    tb == start.buf,
                    nb == 1 - tb,
                    self.buf == tb,
                    forall|cx: int, cy: int|
                        0 <= cx < W && 0 <= cy < H ==> #[trigger] self.cell(tb as int, cx, cy) == start.cell(
                            tb as int,
                            cx,
                            cy,
                        ),
                    forall|cx: int, cy: int|
                        0 <= cx < W && 0 <= cy < H && scanned(cx, cy, x as int, y as int) ==> #[trigger] self.cell(
                            nb as int,
                            cx,
                            cy,
                        ) == in_progress(was, now, 0, 0, cx, cy),
            {
                let cell = CellState::unpack(self.load(tb, x, y));
                proof {
                    lemma_rule(start, x as int, y as int);
                }
                let alive: bool = if cell.alive {
                    cell.count == 2 || cell.count == 3
                } else {
                    cell.count == 3
                };
                let next = CellState { count: cell.count, alive, changed: alive != cell.alive };
                self.store(nb, x, y, next.pack());
            }
        }

        for x in 0..W
            invariant
                is_grid(was, W as int, H as int),
                is_grid(now, W as int, H as int),
                tb == start.buf,
                nb == 1 - tb,
                tb < 2,
                self.buf == tb,
                forall|cx: int, cy: int|
                    0 <= cx < W && 0 <= cy < H ==> #[trigger] self.cell(tb as int, cx, cy) == start.cell(
                        tb as int,
                        cx,
                        cy,
                    ),
                forall|cx: int, cy: int|
                    0 <= cx < W && 0 <= cy < H ==> #[trigger] self.cell(nb as int, cx, cy) == in_progress(
                        was,
                        now,
                        x as int,
                        0,
                        cx,
                        cy,
                    ),
        {
            for y in 0..H
                invariant
                    x < W,
                    is_grid(was, W as int, H as int),
                    is_grid(now, W as int, H as int),
                    tb == start.buf,
                    nb == 1 - tb,
                    tb < 2,
                    self.buf == tb,
                    forall|cx: int, cy: int|
                        0 <= cx < W && 0 <= cy < H ==> #[trigger] self.cell(tb as int, cx, cy) == start.cell(
                            tb as int,
                            cx,
                            cy,
                        ),
                    forall|cx: int, cy: int|
                        0 <= cx < W && 0 <= cy < H ==> #[trigger] self.cell(nb as int, cx, cy) == in_progress(
                            was,
                            now,
                            x as int,
                            y as int,
                            cx,
                            cy,
                        ),
            {
                let ghost reached = *self;
                let cell = CellState::unpack(self.load(nb, x, y));
                proof {
                    lemma_count_range(blend(was, now, x as int, y as int), x as int, y as int);
                    lemma_pack_round_trip(
                        CellState {
                            count: live_neighbors(blend(was, now, x as int, y as int), x as int, y as int) as u8,
                            alive: now[x as int][y as int],
                            changed: now[x as int][y as int] != was[x as int][y as int],
                        },
                    );
                }
                if cell.changed {
                    if cell.alive {
                        self.delta(1, nb, x, y);
                    } else {
                        self.delta(0xFF, nb, x, y);
                    }
                }
                proof {
                    assert forall|cx: int, cy: int| 0 <= cx < W && 0 <= cy < H implies #[trigger] self.cell(
                        nb as int,
                        cx,
                        cy,
                    ) == in_progress(was, now, x as int, y + 1, cx, cy) by {
                        lemma_propagate(was, now, W as int, H as int, x as int, y as int, cx, cy);
                        lemma_shifted_by_nothing(
                            reached.cell(nb as int, cx, cy),
                            hits(x as int, y as int, cx, cy, W as int, H as int),
                        );
                    }
                }
            }
            proof {
                lemma_blend_next_column(was, now, W as int, H as int, x as int);
            }
        }

        let ghost done = *self;
        self.buf = nb;
        proof {
            lemma_blend_end(was, now, W as int, H as int);
            assert forall|x: int, y: int| 0 <= x < W && 0 <= y < H implies #[trigger] self.cell(
                nb as int,
                x,
                y,
            ) == settled(now, was, x, y) by {
                assert(self.cell(nb as int, x, y) == done.cell(nb as int, x, y));
            }
            assert forall|x: int, y: int| 0 <= x < W && 0 <= y < H implies #[trigger] self.cell(
                tb as int,
                x,
                y,
            ) == start.cell(tb as int, x, y) by {
                assert(self.cell(tb as int, x, y) == done.cell(tb as int, x, y));
            }
            lemma_settled_board(*self, now, was);
            assert forall|seed: u32, n: nat| #[trigger] start.at_generation(seed, n) implies self.at_generation(
                seed,
                (n + 1) as nat,
            ) by {
                lemma_step_advances(start, *self, seed, n);
            }
        }
    }

    /// Adds `delta`, wrapping at 256, to the byte of each of the eight
    /// neighbours of (x, y) in buffer `buf`. A cell that fills several of the
    /// eight places receives `delta` once for each.
    pub fn delta(&mut self, delta: u8, buf: usize, x: usize, y: usize)
        requires
            buf < 2,
            x < W,
            y < H,
        ensures
            final(self).buf == old(self).buf,
            forall|b: int, cx: int, cy: int|
                0 <= b < 2 && 0 <= cx < W && 0 <= cy < H ==> #[trigger] final(self).cell(b, cx, cy) == if b
                    == buf {
                    shifted(old(self).cell(b, cx, cy), delta, hits(x as int, y as int, cx, cy, W as int, H as int))
                } else {
                    old(self).cell(b, cx, cy)
                },
    {
        let right: usize = after_index(x, W);
        let left: usize = before_index(x, W);
        let down: usize = after_index(y, H);
        let up: usize = before_index(y, H);
        self.bump(delta, buf, x, down);
        self.bump(delta, buf, x, up);
        self.bump(delta, buf, right, y);
        self.bump(delta, buf, left, y);
        self.bump(delta, buf, right, down);
        self.bump(delta, buf, right, up);
        self.bump(delta, buf, left, down);
        self.bump(delta, buf, left, up);
        assert forall|cx: int, cy: int| 0 <= cx < W && 0 <= cy < H implies #[trigger] self.cell(
            buf as int,
            cx,
            cy,
        ) == shifted(
            old(self).cell(buf as int, cx, cy),
            delta,
            hits(x as int, y as int, cx, cy, W as int, H as int),
        ) by {
            let byte = old(self).cell(buf as int, cx, cy);
            let t0 = same_cell(x as int, down as int, cx, cy);
            let t1 = t0 + same_cell(x as int, up as int, cx, cy);
            let t2 = t1 + same_cell(right as int, y as int, cx, cy);
            let t3 = t2 + same_cell(left as int, y as int, cx, cy);
            let t4 = t3 + same_cell(right as int, down as int, cx, cy);
            let t5 = t4 + same_cell(right as int, up as int, cx, cy);
            let t6 = t5 + same_cell(left as int, down as int, cx, cy);
            lemma_shifted_again(byte, delta, t0, t1 - t0);
            lemma_shifted_again(byte, delta, t1, t2 - t1);
            lemma_shifted_again(byte, delta, t2, t3 - t2);
            lemma_shifted_again(byte, delta, t3, t4 - t3);
            lemma_shifted_again(byte, delta, t4, t5 - t4);
            lemma_shifted_again(byte, delta, t5, t6 - t5);
            lemma_shifted_again(byte, delta, t6, same_cell(left as int, up as int, cx, cy));
        }
    }
}

/// A board whose bytes are all zero is a finished generation with no live cell.
proof fn lemma_blank_is_consistent<const W: usize, const H: usize>(board: Conway<W, H>)
    requires
        board.buf < 2,
        forall|b: int, x: int, y: int|
            0 <= b < 2 && 0 <= x < W && 0 <= y < H ==> #[trigger] board.cell(b, x, y) == 0,
    ensures
        board.wf(),
        board@ == dead_grid(W as int, H as int),
{
    reveal(live_neighbors);
    assert(0u8 & 0x1F == 0 && 0u8 & 0x80 == 0) by (bit_vector);
    assert(board@ =~~= dead_grid(W as int, H as int));
    assert forall|x: int, y: int| 0 <= x < W && 0 <= y < H implies count_of(
        #[trigger] board.cell(board.buf as int, x, y),
    ) == live_neighbors(board@, x, y) by {
        lemma_ring(x, W as int);
        lemma_ring(y, H as int);
    }
}

/// What a finished generation says of one cell and of what the rule makes of
/// it: the stored count is in range, and the byte that the first pass of a
/// step writes is the byte in progress before any change is propagated.
proof fn lemma_rule<const W: usize, const H: usize>(start: Conway<W, H>, x: int, y: int)
    requires
        start.wf(),
        0 <= x < W,
        0 <= y < H,
    ensures
        ({
            let byte = start.cell(start.buf as int, x, y);
            let was = start@;
            let now = evolve(was);
            &&& count_of(byte) <= 8
            &&& was[x][y] == alive_of(byte)
            &&& now[x][y] == lives_on(alive_of(byte), count_of(byte) as int)
            &&& in_progress(was, now, 0, 0, x, y) == (CellState {
                count: count_of(byte),
                alive: now[x][y],
                changed: now[x][y] != alive_of(byte),
            }).encode()
        }),
{
    let was = start@;
    let now = evolve(was);
    lemma_blend_start(was, now, W as int, H as int);
    lemma_count_range(was, x, y);
}

/// A board whose current buffer holds the settled bytes of a grid shows that
/// grid and is a finished generation.
proof fn lemma_settled_board<const W: usize, const H: usize>(
    board: Conway<W, H>,
    now: Seq<Seq<bool>>,
    was: Seq<Seq<bool>>,
)
    requires
        board.buf < 2,
        is_grid(now, W as int, H as int),
        forall|x: int, y: int|
            0 <= x < W && 0 <= y < H ==> #[trigger] board.cell(board.buf as int, x, y) == settled(now, was, x, y),
    ensures
        board@ == now,
        board.wf(),
{
    assert forall|x: int, y: int| 0 <= x < W && 0 <= y < H implies alive_of(
        #[trigger] board.cell(board.buf as int, x, y),
    ) == now[x][y] && count_of(board.cell(board.buf as int, x, y)) == live_neighbors(now, x, y) by {
        lemma_count_range(now, x, y);
        lemma_pack_round_trip(
            CellState { count: live_neighbors(now, x, y) as u8, alive: now[x][y], changed: now[x][y] != was[x][y] },
        );
    }
    assert(board@ =~~= now);
}

/// A board at generation `n` shows the grid of generation `n` and is a
/// finished generation.
pub proof fn lemma_generation_shown<const W: usize, const H: usize>(board: Conway<W, H>, seed: u32, n: nat)
    requires
        board.at_generation(seed, n),
    ensures
        board@ == generation(W as int, H as int, seed, n),
        board.wf(),
{
    lemma_evolve_keeps_shape(seeded_grid(W as int, H as int, seed), W as int, H as int, n);
    lemma_settled_board(
        board,
        generation(W as int, H as int, seed, n),
        predecessor(W as int, H as int, seed, n),
    );
}

/// On a finished generation the counts stored for the cells (0, 0) and
/// (W - 1, H - 1) each include the other cell when it is alive: the board
/// wraps around.
pub proof fn lemma_corners_counted<const W: usize, const H: usize>(board: Conway<W, H>)
    requires
        board.wf(),
        W > 0,
        H > 0,
    ensures
        board@[W - 1][H - 1] ==> count_of(board.cell(board.buf as int, 0, 0)) >= 1,
        board@[0][0] ==> count_of(board.cell(board.buf as int, W - 1, H - 1)) >= 1,
{
    lemma_corners_touch(board@, W as int, H as int);
}

/// A step takes a board at generation `n` to generation `n + 1`.
proof fn lemma_step_advances<const W: usize, const H: usize>(
    before: Conway<W, H>,
    after: Conway<W, H>,
    seed: u32,
    n: nat,
)
    requires
        before.at_generation(seed, n),
        after.buf == 1 - before.buf,
        forall|x: int, y: int|
            0 <= x < W && 0 <= y < H ==> #[trigger] after.cell(after.buf as int, x, y) == settled(
                evolve(before@),
                before@,
                x,
                y,
            ),
        forall|x: int, y: int|
            0 <= x < W && 0 <= y < H ==> #[trigger] after.cell(before.buf as int, x, y) == before.cell(
                before.buf as int,
                x,
                y,
            ),
    ensures
        after.at_generation(seed, (n + 1) as nat),
{
    lemma_generation_shown(before, seed, n);
}

/// The state of a board is a function of its size, the seed and the number
/// of steps: two boards that were seeded alike and stepped equally often are
/// equal, byte for byte.
pub proof fn lemma_history_decides<const W: usize, const H: usize>(
    a: Conway<W, H>,
    b: Conway<W, H>,
    seed: u32,
    n: nat,
)
    requires
        a.at_generation(seed, n),
        b.at_generation(seed, n),
    ensures
        a.buf == b.buf,
        forall|i: int, x: int, y: int|
            0 <= i < 2 && 0 <= x < W && 0 <= y < H ==> #[trigger] a.cell(i, x, y) == b.cell(i, x, y),
        a@ == b@,
        a == b,
{
    lemma_generation_shown(a, seed, n);
    lemma_generation_shown(b, seed, n);
    assert forall|i: int, x: int, y: int| 0 <= i < 2 && 0 <= x < W && 0 <= y < H implies #[trigger] a.cell(i, x, y)
        == b.cell(i, x, y) by {
        if i == a.buf {
        } else {
            assert(i == 1 - a.buf);
        }
    }
    assert forall|i: int| 0 <= i < 2 implies a.counts[i] == b.counts[i] by {
        assert forall|x: int| 0 <= x < W implies a.counts[i][x] == b.counts[i][x] by {
            assert forall|y: int| 0 <= y < H implies a.counts[i][x][y] == b.counts[i][x][y] by {
                assert(a.cell(i, x, y) == b.cell(i, x, y));
            }
            assert(a.counts[i][x] =~= b.counts[i][x]);
        }
        assert(a.counts[i] =~= b.counts[i]);
    }
    assert(a.counts =~= b.counts);
}

} // verus!
