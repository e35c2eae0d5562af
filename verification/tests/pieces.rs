use tetris::tetrimino::{
    kind_of_index, pick_kind, shapes_for, PieceKind, Tetrimino, TetriminoGenerator, TetriminoI,
    TetriminoO, TetriminoT,
};

fn empty_map() -> Vec<Vec<u8>> {
    let mut map = Vec::new();
    for _ in 0..16 {
        map.push(vec![0u8; 10]);
    }
    map
}

#[test]
fn i_piece_shape_data() {
    let t = TetriminoI::new();
    assert_eq!(t.x, 4);
    assert_eq!(t.y, 0);
    assert_eq!(t.current_state, 0);
    assert_eq!(t.states.len(), 2);
    assert_eq!(t.states[0][0], vec![1, 1, 1, 1]);
    assert_eq!(t.states[0][1], vec![0, 0, 0, 0]);
    assert_eq!(t.states[1][0], vec![0, 1, 0, 0]);
    assert_eq!(t.states[1][3], vec![0, 1, 0, 0]);
}

#[test]
fn o_piece_spawns_at_5_with_one_state() {
    let t = TetriminoO::new();
    assert_eq!(t.x, 5);
    assert_eq!(t.states.len(), 1);
    assert_eq!(t.states[0][0], vec![4, 4, 0, 0]);
    assert_eq!(t.states[0][1], vec![4, 4, 0, 0]);
}

#[test]
fn shapes_for_matches_generators() {
    let t = TetriminoT::new();
    let s = shapes_for(PieceKind::T);
    assert_eq!(t.states, s);
    assert_eq!(s.len(), 4);
    assert_eq!(s[0][0], vec![7, 7, 7, 0]);
}

#[test]
fn test_position_accepts_empty_in_bounds_cells() {
    let map = empty_map();
    let t = TetriminoI::new();
    assert!(t.test_position(&map, 0, 4, 0));
    assert!(t.test_current_position(&map));
    // horizontal bar occupies columns x..x+3: column 6 is the last legal origin
    assert!(t.test_position(&map, 0, 6, 0));
    assert!(!t.test_position(&map, 0, 7, 0));
    // negative origin puts a filled cell out of bounds
    assert!(!t.test_position(&map, 0, -1, 0));
    // vertical bar: its filled column is at offset 1, so x = -1 is legal
    assert!(t.test_position(&map, 1, -1, 0));
    assert!(!t.test_position(&map, 1, -2, 0));
    // bottom bound: vertical bar is 4 tall, rows 12..15 fit, 13..16 do not
    assert!(t.test_position(&map, 1, 4, 12));
    assert!(!t.test_position(&map, 1, 4, 13));
}

#[test]
fn test_position_rejects_overlap() {
    let mut map = empty_map();
    map[0][5] = 3;
    let t = TetriminoI::new();
    // horizontal bar over columns 4..7 of row 0 hits the occupied cell
    assert!(!t.test_position(&map, 0, 4, 0));
    // one row lower it is free
    assert!(t.test_position(&map, 0, 4, 1));
}

#[test]
fn test_current_position_is_idempotent() {
    let mut map = empty_map();
    map[0][5] = 3;
    let t = TetriminoI::new();
    let first = t.test_current_position(&map);
    let second = t.test_current_position(&map);
    assert_eq!(first, second);
    assert!(!first);
}

#[test]
fn change_position_commits_only_legal_moves() {
    let map = empty_map();
    let mut t = TetriminoI::new();
    assert!(t.change_position(&map, 4, 1));
    assert_eq!((t.x, t.y), (4, 1));
    assert!(!t.change_position(&map, 7, 1));
    assert_eq!((t.x, t.y), (4, 1));
}

#[test]
fn rotate_on_open_board_uses_offset_zero() {
    let map = empty_map();
    let mut t = TetriminoI::new();
    t.rotate(&map);
    assert_eq!(t.current_state, 1);
    assert_eq!(t.x, 4);
    assert_eq!(t.y, 0);
}

#[test]
fn rotate_kicks_off_the_wall() {
    let map = empty_map();
    // vertical bar hugging the right wall: filled column is x + 1 = 9
    let mut t = TetriminoI::new();
    t.current_state = 1;
    t.x = 8;
    assert!(t.test_current_position(&map));
    t.rotate(&map);
    // horizontal at offsets 0, -1, +1 sticks out; -2 is the first legal one
    assert_eq!(t.current_state, 0);
    assert_eq!(t.x, 6);
}

#[test]
fn rotate_with_no_legal_offset_is_a_no_op() {
    let mut map = empty_map();
    map[0][2] = 3;
    // vertical bar at the left wall (filled column 0); every horizontal
    // offset either leaves the grid or hits the obstacle at column 2
    let mut t = TetriminoI::new();
    t.current_state = 1;
    t.x = -1;
    assert!(t.test_current_position(&map));
    t.rotate(&map);
    assert_eq!(t.current_state, 1);
    assert_eq!(t.x, -1);
    assert_eq!(t.y, 0);
}

#[test]
fn rotate_far_outside_the_grid_changes_nothing() {
    let map = empty_map();
    let mut t = TetriminoI::new();
    t.x = isize::MAX;
    t.rotate(&map);
    assert_eq!(t.current_state, 0);
    assert_eq!(t.x, isize::MAX);
    t.x = isize::MIN;
    t.rotate(&map);
    assert_eq!(t.current_state, 0);
    assert_eq!(t.x, isize::MIN);
}

#[test]
fn rotating_o_kind_is_a_no_op() {
    let map = empty_map();
    let mut t = TetriminoO::new();
    t.rotate(&map);
    assert_eq!(t.current_state, 0);
    assert_eq!(t.x, 5);
    assert_eq!(t.y, 0);
    // also away from the spawn point
    assert!(t.change_position(&map, 3, 7));
    t.rotate(&map);
    assert_eq!((t.x, t.y, t.current_state), (3, 7, 0));
}

#[test]
fn kind_of_index_covers_the_seven_kinds() {
    assert_eq!(kind_of_index(0), PieceKind::I);
    assert_eq!(kind_of_index(1), PieceKind::J);
    assert_eq!(kind_of_index(2), PieceKind::L);
    assert_eq!(kind_of_index(3), PieceKind::O);
    assert_eq!(kind_of_index(4), PieceKind::S);
    assert_eq!(kind_of_index(5), PieceKind::Z);
    assert_eq!(kind_of_index(6), PieceKind::T);
}

#[test]
fn pick_kind_redraws_once_on_repeat() {
    // first draw collides with the previous kind: the second stands
    assert_eq!(pick_kind(3, 5, Some(PieceKind::O)), PieceKind::Z);
    // even if the second draw repeats again
    assert_eq!(pick_kind(3, 3, Some(PieceKind::O)), PieceKind::O);
    // no collision: the first stands
    assert_eq!(pick_kind(3, 5, Some(PieceKind::I)), PieceKind::O);
    assert_eq!(pick_kind(3, 5, None), PieceKind::O);
}

#[test]
fn test_position_is_pure_across_repeated_queries() {
    // test_position takes the map by shared reference: the same query twice
    // on the same data gives the same answer (pure function)
    let mut map = empty_map();
    map[8][4] = 2;
    let t = TetriminoI::new();
    for _ in 0..3 {
        assert!(!t.test_position(&map, 0, 4, 8));
        assert!(t.test_position(&map, 0, 4, 9));
    }
}
