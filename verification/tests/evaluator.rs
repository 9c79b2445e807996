use blockfall::ai::{
    best_placement_score, bumpiness, column_heights, compute_best_move, count_covered_holes,
    count_holes, score_field, simulate_lock, Weights,
};
use blockfall::field::Field;
use blockfall::game::GameState;

fn field_with_hole() -> Field {
    // Column 1 holds a block over an empty cell (one hole of burial depth
    // one); column 2 holds a single block on the floor.
    let mut f = Field::new(12, 18).unwrap();
    f.set_cell(1, 15, 3);
    f.set_cell(2, 16, 4);
    f
}

#[test]
fn heights_holes_and_bumpiness_match_hand_computed_values() {
    let f = field_with_hole();
    let hs = column_heights(&f);
    let mut expected = vec![0i32; 10];
    expected[0] = 2;
    expected[1] = 1;
    assert_eq!(hs, expected);
    assert_eq!(count_holes(&f, &hs), 1);
    assert_eq!(count_covered_holes(&f, &hs), 1);
    assert_eq!(bumpiness(&hs), 2);
}

#[test]
fn score_is_the_exact_weighted_sum() {
    // aggregate height 3, holes 1, covered 1, bumpiness 2, no lines, no
    // danger: -(3 * 510066) - 750000 - 350000 - (2 * 356630), scaled by
    // one million.
    let f = field_with_hole();
    let w = Weights::standard();
    assert_eq!(score_field(&f, 0, &w), -3343458);
}

#[test]
fn scoring_twice_gives_identical_results() {
    let f = field_with_hole();
    let w = Weights::standard();
    let a = score_field(&f, 0, &w);
    let b = score_field(&f, 0, &w);
    assert_eq!(a, b);
    let g = GameState::new(12, 18, 0, 1).unwrap();
    assert_eq!(compute_best_move(&g), compute_best_move(&g));
}

#[test]
fn basic_preset_changes_the_score() {
    let f = field_with_hole();
    let w = Weights::basic();
    // Same features, the basic four-feature weights: -(3 * 510066)
    // - 356630 - 0 - (2 * 184483).
    assert_eq!(score_field(&f, 0, &w), -2255794);
}

#[test]
fn simulation_locks_and_clears_in_one_step() {
    let mut f = Field::new(12, 18).unwrap();
    for x in 1..11usize {
        if x != 5 {
            f.set_cell(x, 16, 2);
        }
    }
    // Vertical I with its mask column on field column 5, resting on the
    // floor: completes the bottom row, which is removed at once.
    let (locked, lines) = simulate_lock(&f, 0, 0, 3, 13);
    assert_eq!(lines, 1);
    // What was above the cleared row moved down one row; the pre-filled
    // cells of the completed row are gone.
    assert_eq!(locked.get(5, 16), 1);
    assert_eq!(locked.get(5, 15), 1);
    assert_eq!(locked.get(5, 14), 1);
    assert_eq!(locked.get(5, 13), 0);
    assert_eq!(locked.get(1, 16), 0);
    // The input field is untouched: the simulation works on a copy.
    assert_eq!(f.get(5, 16), 0);
    assert_eq!(f.get(1, 16), 2);
}

#[test]
fn best_placement_of_a_bar_hugs_the_wall() {
    // On an empty board the best resting place of the I piece is flat
    // against a wall: aggregate height 4 and bumpiness 1, nothing else.
    let f = Field::new(12, 18).unwrap();
    let w = Weights::standard();
    assert_eq!(best_placement_score(&f, 0, &w), -(4 * 510066 + 356630));
}

#[test]
fn chosen_move_is_legal() {
    let g = GameState::new(12, 18, 0, 1).unwrap();
    let (rot, x) = compute_best_move(&g);
    assert!(g.does_piece_fit(g.current_piece, rot, x, 0));
}

#[test]
fn blocked_piece_falls_back_to_current_placement() {
    // With the top rows packed solid no placement of any rotation fits at
    // the spawn row: the search must return the current rotation and
    // column unchanged rather than panic.
    let mut g = GameState::new(12, 18, 0, 1).unwrap();
    for y in 0..5usize {
        for x in 1..11usize {
            g.field.set_cell(x, y, 2);
        }
    }
    assert_eq!(compute_best_move(&g), (g.current_rotation, g.current_x));
}
