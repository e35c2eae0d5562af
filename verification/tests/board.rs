use tetris::tetrimino::{shapes_for, PieceKind, Tetrimino, TetriminoGenerator, TetriminoI};
use tetris::tetris::{is_time_over, Tetris};

fn full_row(kind: u8) -> Vec<u8> {
    vec![kind; 10]
}

#[test]
fn new_board_is_empty_at_level_one() {
    let t = Tetris::new();
    assert_eq!(t.game_map.len(), 16);
    for row in &t.game_map {
        assert_eq!(row, &vec![0u8; 10]);
    }
    assert_eq!(t.current_level, 1);
    assert_eq!(t.score, 0);
    assert_eq!(t.num_lines, 0);
    assert!(t.current_piece.is_none());
    assert!(t.prev_kind.is_none());
}

#[test]
fn update_score_adds() {
    let mut t = Tetris::new();
    t.update_score(7);
    t.update_score(3);
    assert_eq!(t.score, 10);
}

#[test]
fn increase_line_advances_level_past_threshold() {
    let mut t = Tetris::new();
    t.num_lines = 20;
    t.increase_line();
    assert_eq!(t.num_lines, 21);
    assert_eq!(t.current_level, 2);
    // short of the next threshold (40) nothing advances
    t.increase_line();
    assert_eq!(t.num_lines, 22);
    assert_eq!(t.current_level, 2);
}

#[test]
fn increase_line_stops_advancing_past_level_ten() {
    let mut t = Tetris::new();
    t.current_level = 11;
    t.num_lines = 500;
    t.increase_line();
    assert_eq!(t.num_lines, 501);
    assert_eq!(t.current_level, 11);
}

#[test]
fn check_lines_removes_a_full_row_and_restores_height() {
    let mut t = Tetris::new();
    t.game_map[15] = full_row(2);
    t.game_map[14][0] = 3;
    t.check_lines();
    assert_eq!(t.game_map.len(), 16);
    // the stack above the cleared row shifted down one row
    assert_eq!(t.game_map[15][0], 3);
    assert_eq!(&t.game_map[15][1..], &[0u8; 9]);
    assert_eq!(t.game_map[14], vec![0u8; 10]);
    assert_eq!(t.score, 1);
    assert_eq!(t.num_lines, 1);
}

#[test]
fn check_lines_cascades_in_one_pass() {
    let mut t = Tetris::new();
    t.game_map[13] = full_row(5);
    t.game_map[14][2] = 1;
    t.game_map[15] = full_row(6);
    t.check_lines();
    assert_eq!(t.game_map.len(), 16);
    assert_eq!(t.num_lines, 2);
    assert_eq!(t.score, 2);
    // the one surviving stack row is now the bottom row
    assert_eq!(t.game_map[15][2], 1);
    assert_eq!(t.game_map[14], vec![0u8; 10]);
}

#[test]
fn perfect_clear_awards_the_flat_bonus() {
    let mut t = Tetris::new();
    for r in 0..16 {
        t.game_map[r] = full_row(4);
    }
    t.check_lines();
    assert_eq!(t.game_map.len(), 16);
    for row in &t.game_map {
        assert_eq!(row, &vec![0u8; 10]);
    }
    // 16 rows at level 1, plus the 1000-point perfect-clear bonus
    assert_eq!(t.score, 1016);
    assert_eq!(t.num_lines, 16);
}

#[test]
fn counters_never_decrease_across_check_lines() {
    let mut t = Tetris::new();
    let mut last_lines = t.num_lines;
    let mut last_level = t.current_level;
    for round in 0..30 {
        if round % 2 == 0 {
            t.game_map[15] = full_row(7);
        }
        t.check_lines();
        assert!(t.num_lines >= last_lines);
        assert!(t.current_level >= last_level);
        last_lines = t.num_lines;
        last_level = t.current_level;
    }
    assert_eq!(t.num_lines, 15);
}

#[test]
fn dropped_i_piece_rests_on_the_bottom_row() {
    let mut t = Tetris::new();
    let mut piece = TetriminoI::new();
    assert_eq!((piece.x, piece.y, piece.current_state), (4, 0, 0));
    assert!(piece.test_current_position(&t.game_map));
    let x = piece.x;
    let mut y = piece.y;
    while piece.change_position(&t.game_map, x, y + 1) {
        y += 1;
    }
    assert_eq!(piece.y, 15);
    t.current_piece = Some(piece);
    t.make_permanent();
    assert!(t.current_piece.is_none());
    assert_eq!(t.game_map.len(), 16);
    assert_eq!(t.game_map[15], vec![0, 0, 0, 0, 1, 1, 1, 1, 0, 0]);
    // the per-lock bonus at level 1
    assert_eq!(t.score, 1);
    assert_eq!(t.num_lines, 0);
}

#[test]
fn locking_the_tenth_cell_clears_the_bottom_row() {
    let mut t = Tetris::new();
    for c in 1..10 {
        t.game_map[15][c] = 2;
    }
    // vertical bar whose filled column lands on column 0, rows 12..15
    let mut piece = TetriminoI::new();
    piece.current_state = 1;
    piece.x = -1;
    piece.y = 12;
    assert!(piece.test_current_position(&t.game_map));
    t.current_piece = Some(piece);
    t.make_permanent();
    assert_eq!(t.game_map.len(), 16);
    assert_eq!(t.num_lines, 1);
    // one point for the lock, one for the cleared row, at level 1
    assert_eq!(t.score, 2);
    // the bar's three surviving cells shifted down one row
    assert_eq!(t.game_map[15][0], 1);
    assert_eq!(t.game_map[14][0], 1);
    assert_eq!(t.game_map[13][0], 1);
    assert_eq!(t.game_map[12][0], 0);
    assert_eq!(&t.game_map[15][1..], &[0u8; 9]);
}

#[test]
fn lock_skips_cells_outside_the_grid() {
    let mut t = Tetris::new();
    // horizontal bar partially past the right edge cannot be tested legal,
    // but locking must not write outside the grid: place it via the field
    let piece = Tetrimino { states: shapes_for(PieceKind::I), x: 8, y: 15, current_state: 0 };
    t.current_piece = Some(piece);
    t.make_permanent();
    assert_eq!(t.game_map.len(), 16);
    assert_eq!(t.game_map[15], vec![0, 0, 0, 0, 0, 0, 0, 0, 1, 1]);
    assert_eq!(t.score, 1);
}

#[test]
fn spawning_tracks_the_previous_kind() {
    let mut t = Tetris::new();
    for _ in 0..50 {
        let piece = t.create_new_tetrimino();
        assert_eq!(piece.y, 0);
        assert_eq!(piece.current_state, 0);
        assert!(piece.x == 4 || piece.x == 5);
        assert!(t.prev_kind.is_some());
        assert!(piece.test_current_position(&t.game_map));
        assert!(!piece.states.is_empty());
    }
    // the board itself was not touched by spawning
    assert_eq!(t.score, 0);
    assert_eq!(t.game_map[15], vec![0u8; 10]);
}

#[test]
fn fall_interval_follows_the_level_table() {
    let mut t = Tetris::new();
    assert!(!is_time_over(&t, 1000));
    assert!(is_time_over(&t, 1001));
    t.current_level = 2;
    assert!(!is_time_over(&t, 850));
    assert!(is_time_over(&t, 851));
    t.current_level = 10;
    assert!(is_time_over(&t, 191));
    assert!(!is_time_over(&t, 190));
    // levels past 10 reuse the last entry
    t.current_level = 12;
    assert!(is_time_over(&t, 191));
    assert!(!is_time_over(&t, 190));
}

#[test]
fn game_over_is_a_failed_spawn_test() {
    let mut t = Tetris::new();
    // a stack reaching the top blocks the spawn cells
    for c in 0..10 {
        t.game_map[0][c] = 2;
    }
    let piece = t.create_new_tetrimino();
    assert!(!piece.test_current_position(&t.game_map));
}
