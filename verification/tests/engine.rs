use blockfall::field::{ConfigError, Field};
use blockfall::game::GameState;

fn make_game(first: usize, next: usize) -> GameState {
    GameState::new(12, 18, first, next).unwrap()
}

fn count_filled(g: &GameState) -> u32 {
    let mut n = 0;
    for y in 0..17usize {
        for x in 1..11usize {
            if g.field.get(x, y) != 0 {
                n += 1;
            }
        }
    }
    n
}

fn clear_interior(g: &mut GameState) {
    for y in 0..17usize {
        for x in 1..11usize {
            g.field.set_cell(x, y, 0);
        }
    }
    g.lines_to_clear = Vec::new();
}

#[test]
fn new_game_initial_state() {
    let g = make_game(0, 1);
    assert_eq!(g.score, 0);
    assert_eq!(g.piece_count, 0);
    assert_eq!(g.speed, 20);
    assert_eq!(g.speed_counter, 0);
    assert_eq!(g.current_piece, 0);
    assert_eq!(g.next_piece, 1);
    assert_eq!(g.current_rotation, 0);
    assert_eq!(g.current_x, 4);
    assert_eq!(g.current_y, 0);
    assert!(!g.game_over);
    assert!(!g.paused);
    assert!(g.lines_to_clear.is_empty());
    // Borders carry the sentinel, the interior starts empty.
    for y in 0..18usize {
        assert_eq!(g.field.get(0, y), 9);
        assert_eq!(g.field.get(11, y), 9);
    }
    for x in 0..12usize {
        assert_eq!(g.field.get(x, 17), 9);
    }
    for y in 0..17usize {
        for x in 1..11usize {
            assert_eq!(g.field.get(x, y), 0);
        }
    }
}

#[test]
fn new_rejects_too_small() {
    assert!(matches!(GameState::new(4, 18, 0, 0), Err(ConfigError::TooSmall)));
    assert!(matches!(GameState::new(12, 4, 0, 0), Err(ConfigError::TooSmall)));
    assert!(matches!(Field::new(5, 18), Err(ConfigError::TooSmall)));
}

#[test]
fn new_rejects_too_large() {
    assert!(matches!(GameState::new(65, 18, 0, 0), Err(ConfigError::TooLarge)));
    assert!(matches!(GameState::new(12, 100, 0, 0), Err(ConfigError::TooLarge)));
    assert!(matches!(Field::new(12, 65), Err(ConfigError::TooLarge)));
}

#[test]
fn rotation_formula_exact_values() {
    // r = 0: py * 4 + px
    assert_eq!(GameState::rotate(2, 0, 0), 2);
    assert_eq!(GameState::rotate(3, 3, 0), 15);
    // r = 1: 12 + py - 4 * px
    assert_eq!(GameState::rotate(3, 2, 1), 2);
    assert_eq!(GameState::rotate(2, 1, 1), 5);
    // r = 2: 15 - 4 * py - px
    assert_eq!(GameState::rotate(1, 3, 2), 2);
    // r = 3: 3 - py + 4 * px
    assert_eq!(GameState::rotate(0, 1, 3), 2);
    // r is taken modulo 4
    assert_eq!(GameState::rotate(2, 0, 4), 2);
}

#[test]
fn fits_is_pure_and_deterministic() {
    let mut g = make_game(0, 1);
    g.field.set_cell(5, 10, 3);
    let before: Vec<u8> = (0..18usize)
        .flat_map(|y| (0..12usize).map(move |x| (x, y)))
        .map(|(x, y)| g.field.get(x, y))
        .collect();
    let a = g.does_piece_fit(0, 0, 3, 8);
    let b = g.does_piece_fit(0, 0, 3, 8);
    assert_eq!(a, b);
    let c = g.does_piece_fit(2, 1, -1, 0);
    let d = g.does_piece_fit(2, 1, -1, 0);
    assert_eq!(c, d);
    let after: Vec<u8> = (0..18usize)
        .flat_map(|y| (0..12usize).map(move |x| (x, y)))
        .map(|(x, y)| g.field.get(x, y))
        .collect();
    assert_eq!(before, after);
}

#[test]
fn piece_drops_to_floor() {
    // A horizontal I piece dropped at column 1 on an empty board rests on
    // the last interior row, and no lower placement fits.
    let mut g = make_game(0, 1);
    g.rotate_piece();
    assert_eq!(g.current_rotation, 1);
    g.move_left();
    g.move_left();
    g.move_left();
    assert_eq!(g.current_x, 1);
    assert_eq!(g.ghost_drop_y(), 14);
    let f = Field::new(12, 18).unwrap();
    assert!(blockfall::field::piece_fits_field(&f, 0, 1, 1, 14));
    assert!(!blockfall::field::piece_fits_field(&f, 0, 1, 1, 15));
    g.hard_drop();
    // The piece occupies row 16 (the mask fills its third row), id 1.
    for x in 1..5usize {
        assert_eq!(g.field.get(x, 16), 1);
    }
    assert_eq!(g.score, 25);
    assert_eq!(g.piece_count, 1);
    assert!(g.next_piece < 7);
}

#[test]
fn completing_a_row_marks_then_clears_it() {
    let mut g = make_game(0, 3);
    // Fill the bottom interior row except column 5.
    for x in 1..11usize {
        if x != 5 {
            g.field.set_cell(x, 16, 2);
        }
    }
    let filled_before = count_filled(&g);
    // Vertical I at column 5: spawn x 4, shift left once so the mask column
    // (px = 2) lands on field column 5.
    g.move_left();
    assert_eq!(g.current_x, 3);
    g.hard_drop();
    // The row is marked, not yet removed; exactly one row is pending.
    assert_eq!(g.lines_to_clear, vec![16usize]);
    assert_eq!(g.score, 25);
    for x in 1..11usize {
        assert_eq!(g.field.get(x, 16), 8);
    }
    assert_eq!(g.lines_cleared, 1);
    assert_eq!(g.singles, 1);
    assert_eq!(g.lines_history.last(), Some(&1u8));
    // While the clear is pending, movement commands are deferred.
    let x_before = g.current_x;
    g.move_left();
    assert_eq!(g.current_x, x_before);
    // The next tick compacts: bonus 2^1 * 100, list empty, ten cells gone.
    let filled_at_mark = count_filled(&g);
    g.tick();
    assert_eq!(g.score, 25 + 200);
    assert!(g.lines_to_clear.is_empty());
    assert_eq!(count_filled(&g), filled_at_mark - 10);
    // The stack above the cleared row moved down one row.
    assert_ne!(g.field.get(5, 16), 0);
    assert_ne!(g.field.get(5, 15), 0);
    assert_ne!(g.field.get(5, 14), 0);
    assert_eq!(g.field.get(1, 16), 0);
    // Conservation check against the pre-lock grid: the piece added 4
    // cells and the clear removed a full row of 10.
    assert_eq!(count_filled(&g), filled_before + 4 - 10);
}

#[test]
fn speed_increases_every_ten_pieces() {
    let mut g = make_game(0, 0);
    for _ in 0..9 {
        g.hard_drop();
        assert!(g.next_piece < 7);
        clear_interior(&mut g);
    }
    assert_eq!(g.speed, 20);
    g.hard_drop();
    assert_eq!(g.piece_count, 10);
    assert_eq!(g.speed, 19);
    assert_eq!(g.score, 250);
}

#[test]
fn paused_and_over_states_reject_commands() {
    let mut g = make_game(0, 1);
    g.paused = true;
    let x = g.current_x;
    let y = g.current_y;
    g.move_left();
    g.move_right();
    g.move_down();
    g.hard_drop();
    g.rotate_piece();
    g.tick();
    assert_eq!(g.current_x, x);
    assert_eq!(g.current_y, y);
    assert_eq!(g.piece_count, 0);
    g.paused = false;
    g.move_left();
    assert_eq!(g.current_x, x - 1);
}

#[test]
fn moving_into_the_wall_is_refused() {
    let mut g = make_game(0, 1);
    // Vertical I occupies mask column 2, so the leftmost legal origin is -1.
    for _ in 0..8 {
        g.move_left();
    }
    assert_eq!(g.current_x, -1);
    for _ in 0..12 {
        g.move_right();
    }
    assert_eq!(g.current_x, 8);
}

#[test]
fn game_ends_when_spawn_collides() {
    let mut g = make_game(0, 0);
    // Block the spawn column from row 2 downward; the vertical I locks at
    // the top and the respawn collides immediately.
    for y in 2..17usize {
        g.field.set_cell(6, y, 4);
    }
    g.hard_drop();
    assert!(g.game_over);
    // Once over, every command is a no-op.
    let score = g.score;
    g.hard_drop();
    g.tick();
    g.move_left();
    assert_eq!(g.score, score);
    assert_eq!(g.piece_count, 1);
}

#[test]
fn gravity_tick_respects_speed_counter() {
    let mut g = make_game(0, 1);
    for i in 1..20u32 {
        g.tick();
        assert_eq!(g.speed_counter, i);
        assert_eq!(g.current_y, 0);
    }
    g.tick();
    assert_eq!(g.speed_counter, 0);
    assert_eq!(g.current_y, 1);
}

#[test]
fn soft_drop_descends_or_locks() {
    let mut g = make_game(0, 1);
    g.move_down();
    assert_eq!(g.current_y, 1);
    for _ in 0..12 {
        g.move_down();
    }
    // The vertical bar reaches from row 13 to the last interior row 16.
    assert_eq!(g.current_y, 13);
    assert_eq!(g.piece_count, 0);
    g.move_down();
    // Blocked by the floor: the piece locked and a new one spawned.
    assert_eq!(g.piece_count, 1);
    assert_eq!(g.current_y, 0);
}

#[test]
fn automated_step_aligns_and_drops() {
    let mut g = make_game(0, 1);
    g.set_ai_target(0, 2);
    g.ai_step();
    // One step slides two columns, reaches the target and hard-drops.
    assert_eq!(g.piece_count, 1);
    assert_eq!(g.score, 25);
    let mut far = make_game(0, 1);
    far.set_ai_target(0, 8);
    far.ai_step();
    // Two columns per step, not yet aligned: no drop, and gravity stays
    // suppressed while aligning.
    assert_eq!(far.current_x, 6);
    assert_eq!(far.piece_count, 0);
    assert_eq!(far.current_y, 0);
    far.ai_step();
    assert_eq!(far.piece_count, 1);
}

#[test]
fn borders_survive_any_command_sequence() {
    let mut g = make_game(0, 2);
    g.rotate_piece();
    g.move_left();
    g.hard_drop();
    for _ in 0..25 {
        g.tick();
    }
    g.move_right();
    g.move_down();
    for y in 0..18usize {
        assert_eq!(g.field.get(0, y), 9);
        assert_eq!(g.field.get(11, y), 9);
    }
    for x in 0..12usize {
        assert_eq!(g.field.get(x, 17), 9);
    }
    // Interior cells stay in the gameplay range.
    for y in 0..17usize {
        for x in 1..11usize {
            assert!(g.field.get(x, y) <= 8);
        }
    }
}

#[test]
fn ghost_drop_is_read_only() {
    let g = make_game(0, 1);
    let a = g.ghost_drop_y();
    let b = g.ghost_drop_y();
    assert_eq!(a, b);
    assert_eq!(g.current_y, 0);
    // The ghost row equals where a hard drop would rest the piece.
    let mut h = make_game(0, 1);
    let ghost = h.ghost_drop_y();
    h.hard_drop();
    assert_eq!(h.field.get(6, (ghost + 3) as usize), 1);
}

#[test]
fn board_stats_match_hand_computed_profile() {
    let mut g = make_game(0, 1);
    g.field.set_cell(1, 15, 3);
    g.field.set_cell(2, 16, 4);
    let st = g.board_stats();
    assert_eq!(st.max_height, 2);
    assert_eq!(st.holes, 1);
    assert_eq!(st.bumpiness, 2);
}
