use conway::Conway;
use conway::cell::CellState;

/// Marks a dead cell of buffer 0 alive and counts it in its neighbours.
fn place<const W: usize, const H: usize>(game: &mut Conway<W, H>, x: usize, y: usize) {
    assert_eq!(game.counts[0][x][y] & 0x80, 0);
    game.counts[0][x][y] |= 0x80;
    game.delta(1, 0, x, y);
}

fn board_with<const W: usize, const H: usize>(alive: &[(usize, usize)]) -> Conway<W, H> {
    let mut game: Conway<W, H> = Conway::new();
    for &(x, y) in alive {
        place(&mut game, x, y);
    }
    game
}

fn rows<const W: usize, const H: usize>(game: &Conway<W, H>) -> Vec<String> {
    let mut out = Vec::new();
    for x in 0..W {
        let mut row = String::new();
        for y in 0..H {
            row.push(if game.is_alive(x, y) { '1' } else { '0' });
        }
        out.push(row);
    }
    out
}

fn stored_counts<const W: usize, const H: usize>(game: &Conway<W, H>) -> Vec<String> {
    let mut out = Vec::new();
    for x in 0..W {
        let mut row = String::new();
        for y in 0..H {
            row.push_str(&format!("{}", CellState::unpack(game.counts[game.buf][x][y]).count));
        }
        out.push(row);
    }
    out
}

fn alive_set<const W: usize, const H: usize>(game: &Conway<W, H>) -> Vec<(usize, usize)> {
    let mut out = Vec::new();
    for x in 0..W {
        for y in 0..H {
            if game.is_alive(x, y) {
                out.push((x, y));
            }
        }
    }
    out
}

/// Counts the live neighbours of (x, y) from the liveness bits alone.
fn recount<const W: usize, const H: usize>(game: &Conway<W, H>, x: usize, y: usize) -> u8 {
    let mut n = 0;
    for dx in [W - 1, 0, 1] {
        for dy in [H - 1, 0, 1] {
            if (dx, dy) != (0, 0) && game.counts[game.buf][(x + dx) % W][(y + dy) % H] & 0x80 != 0 {
                n += 1;
            }
        }
    }
    n
}

fn assert_counts_exact<const W: usize, const H: usize>(game: &Conway<W, H>) {
    for x in 0..W {
        for y in 0..H {
            let cell = CellState::unpack(game.counts[game.buf][x][y]);
            assert_eq!(cell.count, recount(game, x, y), "cell ({}, {})", x, y);
            assert_eq!(game.counts[game.buf][x][y] & 0x20, 0);
        }
    }
    assert!(game.is_consistent());
}

/// The next generation, worked out from the liveness bits alone.
fn next_rows<const W: usize, const H: usize>(game: &Conway<W, H>) -> Vec<String> {
    let mut out = Vec::new();
    for x in 0..W {
        let mut row = String::new();
        for y in 0..H {
            let n = recount(game, x, y);
            let alive = n == 3 || (game.is_alive(x, y) && n == 2);
            row.push(if alive { '1' } else { '0' });
        }
        out.push(row);
    }
    out
}

#[test]
fn new_board_is_dead_and_zeroed() {
    let game: Conway<7, 5> = Conway::new();
    assert_eq!(game.buf, 0);
    for b in 0..2 {
        for x in 0..7 {
            for y in 0..5 {
                assert_eq!(game.counts[b][x][y], 0);
            }
        }
    }
    assert!(alive_set(&game).is_empty());
    assert!(game.is_consistent());
}

#[test]
fn dead_board_stays_dead() {
    let mut game: Conway<4, 6> = Conway::new();
    for i in 0..5 {
        game.step();
        assert_eq!(game.buf, (i + 1) % 2);
        assert!(alive_set(&game).is_empty());
        assert_counts_exact(&game);
    }
}

#[test]
fn seeding_with_zero_gives_the_expected_board() {
    let mut game: Conway<6, 5> = Conway::new();
    game.randomize(0);
    assert_eq!(game.buf, 0);
    assert_eq!(rows(&game), ["00101", "00100", "00001", "10000", "10101", "10100"]);
    assert_eq!(stored_counts(&game), ["24241", "22142", "22121", "33134", "35133", "35254"]);
    game.step();
    assert_eq!(rows(&game), ["00100", "00000", "00000", "11010", "10011", "10100"]);
    game.step();
    assert_eq!(rows(&game), ["01000", "00000", "00000", "11110", "00010", "10100"]);
}

#[test]
fn seeding_with_seven_and_eight_gives_the_expected_boards() {
    let mut game: Conway<6, 5> = Conway::new();
    game.randomize(7);
    assert_eq!(rows(&game), ["00001", "00100", "00101", "00000", "10001", "10100"]);
    assert_eq!(stored_counts(&game), ["23231", "22142", "12130", "32133", "23122", "33034"]);
    game.step();
    assert_eq!(rows(&game), ["01010", "00000", "00010", "10011", "11001", "11010"]);
    game.randomize(8);
    assert_eq!(game.buf, 0);
    assert_eq!(rows(&game), ["00100", "00101", "00000", "10001", "10100", "10101"]);
    assert_eq!(stored_counts(&game), ["34253", "12130", "32133", "23122", "45145", "25242"]);
    game.step();
    game.step();
    assert_eq!(rows(&game), ["10100", "01100", "01110", "01010", "00010", "10001"]);
}

#[test]
fn seeded_cells_are_marked_alive_and_changed() {
    let mut game: Conway<6, 5> = Conway::new();
    game.randomize(0);
    for x in 0..6 {
        for y in 0..5 {
            let cell = CellState::unpack(game.counts[0][x][y]);
            assert_eq!(cell.changed, cell.alive);
            assert_eq!(game.counts[1][x][y], 0);
        }
    }
    assert_eq!(game.counts[0][0][2], 0xc2);
    assert_eq!(game.counts[0][0][0], 0x02);
    assert_eq!(game.counts[0][4][1], 0x05);
}

#[test]
fn seeding_follows_the_column_streams() {
    let mut game: Conway<9, 11> = Conway::new();
    for seed in [0u32, 1, 8, 7789432, 0xffff_fff0] {
        game.randomize(seed);
        for x in 0..9u32 {
            let mut state = x.wrapping_add(seed).wrapping_add(1);
            if state == 0 {
                state = 1;
            }
            for y in 0..11 {
                state ^= state << 13;
                state ^= state >> 17;
                state ^= state << 5;
                assert_eq!(game.is_alive(x as usize, y), state & 0x80 != 0);
            }
        }
        assert_counts_exact(&game);
    }
}

#[test]
fn a_column_seed_that_wraps_to_zero_draws_from_seed_one() {
    let mut wrapped: Conway<1, 8> = Conway::new();
    wrapped.randomize(u32::MAX);
    let mut plain: Conway<1, 8> = Conway::new();
    plain.randomize(0);
    assert_eq!(rows(&wrapped), ["00101101"]);
    assert_eq!(rows(&plain), ["00101101"]);
    assert_eq!(wrapped.counts, plain.counts);
    let mut two: Conway<2, 8> = Conway::new();
    two.randomize(u32::MAX - 1);
    assert_eq!(rows(&two), ["01011111", "00101101"]);
}

#[test]
fn randomize_resets_a_used_board() {
    let mut used: Conway<6, 5> = Conway::new();
    used.randomize(3);
    used.step();
    used.step();
    used.step();
    assert_eq!(used.buf, 1);
    used.randomize(0);
    let mut fresh: Conway<6, 5> = Conway::new();
    fresh.randomize(0);
    assert_eq!(used.buf, 0);
    assert_eq!(used.counts, fresh.counts);
}

#[test]
fn counts_are_exact_in_every_generation() {
    let mut game: Conway<13, 9> = Conway::new();
    for seed in [0u32, 5, 99, 0xdead_beef] {
        game.randomize(seed);
        assert_counts_exact(&game);
        for _ in 0..40 {
            game.step();
            assert_counts_exact(&game);
        }
    }
}

#[test]
fn each_step_applies_the_rule_to_every_cell() {
    let mut game: Conway<10, 12> = Conway::new();
    game.randomize(1234);
    for _ in 0..30 {
        let expected = next_rows(&game);
        let before = rows(&game);
        game.step();
        assert_eq!(rows(&game), expected);
        for x in 0..10 {
            for y in 0..12 {
                let cell = CellState::unpack(game.counts[game.buf][x][y]);
                let was = before[x].as_bytes()[y] == b'1';
                assert_eq!(cell.changed, cell.alive != was);
            }
        }
    }
}

#[test]
fn step_flips_the_buffer_and_keeps_the_generation_before() {
    let mut game: Conway<6, 5> = Conway::new();
    game.randomize(8);
    let first = game.counts[0];
    game.step();
    assert_eq!(game.buf, 1);
    assert_eq!(game.counts[0], first);
    let second = game.counts[1];
    game.step();
    assert_eq!(game.buf, 0);
    assert_eq!(game.counts[1], second);
}

#[test]
fn same_seed_and_steps_give_the_same_state() {
    let mut a: Conway<17, 8> = Conway::new();
    let mut b: Conway<17, 8> = Conway::new();
    b.randomize(77);
    b.step();
    a.randomize(31337);
    b.randomize(31337);
    for _ in 0..25 {
        assert_eq!(a.counts, b.counts);
        assert_eq!(a.buf, b.buf);
        a.step();
        b.step();
    }
    assert_eq!(a.counts, b.counts);
    assert_eq!(a.buf, b.buf);
}

#[test]
fn different_seeds_give_different_boards() {
    let mut a: Conway<16, 16> = Conway::new();
    let mut b: Conway<16, 16> = Conway::new();
    a.randomize(1);
    b.randomize(2);
    assert_ne!(rows(&a), rows(&b));
}

#[test]
fn opposite_corners_are_neighbours() {
    let game: Conway<5, 7> = board_with(&[(4, 6)]);
    assert_eq!(CellState::unpack(game.counts[0][0][0]).count, 1);
    assert_eq!(recount(&game, 0, 0), 1);
    let game: Conway<5, 7> = board_with(&[(0, 0)]);
    assert_eq!(CellState::unpack(game.counts[0][4][6]).count, 1);
    assert_eq!(recount(&game, 4, 6), 1);
    assert!(game.is_consistent());
}

#[test]
fn edges_wrap_in_both_directions() {
    let game: Conway<5, 7> = board_with(&[(0, 3), (2, 0)]);
    assert_eq!(stored_counts(&game), ["0010100", "1111101", "0100001", "1100001", "0011100"]);
    assert_counts_exact(&game);
}

#[test]
fn block_is_a_still_life() {
    let block = [(2, 2), (2, 3), (3, 2), (3, 3)];
    let mut game: Conway<8, 8> = board_with(&block);
    for _ in 0..50 {
        assert_eq!(alive_set(&game), block);
        for &(x, y) in &block {
            assert_eq!(CellState::unpack(game.counts[game.buf][x][y]).count, 3);
        }
        assert_counts_exact(&game);
        game.step();
    }
    assert_eq!(alive_set(&game), block);
}

#[test]
fn block_across_the_edges_is_a_still_life() {
    let block = [(0, 0), (0, 5), (6, 0), (6, 5)];
    let mut game: Conway<7, 6> = board_with(&block);
    for _ in 0..20 {
        game.step();
        assert_eq!(alive_set(&game), block);
    }
}

#[test]
fn block_is_still_on_the_smallest_board_that_holds_it() {
    let block = [(1, 1), (1, 2), (2, 1), (2, 2)];
    let mut game: Conway<3, 3> = board_with(&block);
    for _ in 0..10 {
        game.step();
        assert_eq!(alive_set(&game), block);
        assert_counts_exact(&game);
    }
}

#[test]
fn three_in_a_line_turn_by_a_quarter() {
    let mut game: Conway<5, 5> = board_with(&[(1, 0), (1, 1), (1, 2)]);
    assert_eq!(CellState::unpack(game.counts[0][0][1]).count, 3);
    assert_eq!(CellState::unpack(game.counts[0][2][1]).count, 3);
    assert_eq!(CellState::unpack(game.counts[0][1][0]).count, 1);
    assert_eq!(CellState::unpack(game.counts[0][1][2]).count, 1);
    game.step();
    assert_eq!(alive_set(&game), [(0, 1), (1, 1), (2, 1)]);
    assert_eq!(rows(&game), ["01000", "01000", "01000", "00000", "00000"]);
    assert_eq!(game.counts[1][0][1], CellState { count: 1, alive: true, changed: true }.pack());
    assert_eq!(game.counts[1][2][1], CellState { count: 1, alive: true, changed: true }.pack());
    assert_eq!(game.counts[1][1][1], CellState { count: 2, alive: true, changed: false }.pack());
    assert_eq!(game.counts[1][1][0], CellState { count: 3, alive: false, changed: true }.pack());
    assert_eq!(game.counts[1][1][2], CellState { count: 3, alive: false, changed: true }.pack());
    assert_eq!(game.counts[1][4][4], CellState { count: 0, alive: false, changed: false }.pack());
    assert_counts_exact(&game);
    game.step();
    assert_eq!(alive_set(&game), [(1, 0), (1, 1), (1, 2)]);
}

#[test]
fn a_cell_alone_on_a_board_of_one_is_its_own_eight_neighbours() {
    let mut game: Conway<1, 1> = board_with(&[(0, 0)]);
    assert_eq!(game.counts[0][0][0], 0x88);
    assert!(game.is_consistent());
    game.step();
    assert_eq!(game.counts[1][0][0], CellState { count: 0, alive: false, changed: true }.pack());
    assert!(game.is_consistent());
    game.step();
    assert_eq!(game.counts[0][0][0], 0);
}

#[test]
fn narrow_boards_count_a_neighbour_once_for_each_place() {
    let mut game: Conway<2, 5> = board_with(&[(0, 1), (0, 2), (1, 2)]);
    assert_counts_exact(&game);
    assert_eq!(stored_counts(&game), ["13330", "25430"]);
    for _ in 0..6 {
        let expected = next_rows(&game);
        game.step();
        assert_eq!(rows(&game), expected);
        assert_counts_exact(&game);
    }
}

#[test]
fn boards_without_cells_do_nothing() {
    let mut game: Conway<0, 4> = Conway::new();
    game.randomize(5);
    game.step();
    assert_eq!(game.buf, 1);
    assert!(game.is_consistent());
    let mut game: Conway<4, 0> = Conway::new();
    game.randomize(5);
    game.step();
    assert_eq!(game.buf, 1);
    assert!(game.is_consistent());
}

#[test]
fn delta_adds_to_the_eight_neighbours_only() {
    let mut game: Conway<5, 5> = Conway::new();
    game.delta(1, 1, 2, 2);
    for x in 0..5 {
        for y in 0..5 {
            assert_eq!(game.counts[0][x][y], 0);
            let near = (1..=3).contains(&x) && (1..=3).contains(&y) && (x, y) != (2, 2);
            assert_eq!(game.counts[1][x][y], if near { 1 } else { 0 });
        }
    }
    assert_eq!(game.buf, 0);
}

#[test]
fn delta_wraps_at_the_edges_and_at_256() {
    let mut game: Conway<4, 4> = Conway::new();
    game.delta(3, 0, 0, 0);
    assert_eq!(game.counts[0][3][3], 3);
    assert_eq!(game.counts[0][1][1], 3);
    assert_eq!(game.counts[0][0][3], 3);
    assert_eq!(game.counts[0][3][0], 3);
    assert_eq!(game.counts[0][0][0], 0);
    assert_eq!(game.counts[0][2][2], 0);
    game.delta(0xff, 0, 0, 0);
    assert_eq!(game.counts[0][3][3], 2);
    game.delta(0xfe, 0, 0, 0);
    for x in 0..4 {
        for y in 0..4 {
            assert_eq!(game.counts[0][x][y], 0);
        }
    }
    game.delta(0xff, 0, 1, 1);
    assert_eq!(game.counts[0][0][0], 0xff);
    assert_eq!(game.counts[0][1][1], 0);
}

#[test]
fn delta_on_a_narrow_board_adds_once_for_each_place() {
    let mut game: Conway<1, 3> = Conway::new();
    game.delta(1, 0, 0, 0);
    assert_eq!(game.counts[0][0], [2, 3, 3]);
    let mut game: Conway<2, 2> = Conway::new();
    game.delta(5, 0, 1, 0);
    assert_eq!(game.counts[0], [[10, 20], [0, 10]]);
}

#[test]
fn corrupted_counts_are_found() {
    let mut game: Conway<6, 5> = Conway::new();
    game.randomize(0);
    assert!(game.is_consistent());
    game.counts[0][3][3] += 1;
    assert!(!game.is_consistent());
    game.counts[0][3][3] -= 1;
    assert!(game.is_consistent());
    game.counts[0][5][4] ^= 0x80;
    assert!(!game.is_consistent());
    game.counts[0][5][4] ^= 0x80;
    game.counts[1][0][0] = 0x1f;
    assert!(game.is_consistent());
    game.buf = 2;
    assert!(!game.is_consistent());
}

#[test]
fn liveness_is_read_from_the_current_buffer() {
    let mut game: Conway<5, 5> = board_with(&[(1, 0), (1, 1), (1, 2)]);
    assert!(game.is_alive(1, 0));
    assert!(!game.is_alive(0, 1));
    game.step();
    assert!(!game.is_alive(1, 0));
    assert!(game.is_alive(0, 1));
}
