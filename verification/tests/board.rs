use mine_sweeper::{Board, BoardError, FieldType, Position, Visibility};

fn pos(row: usize, col: usize) -> Position {
    Position { row, col }
}

/// Counts the bomb fields of a board by scanning every position.
fn count_bombs(board: &Board) -> usize {
    let mut bombs = 0;
    for r in 0..board.height {
        for c in 0..board.width {
            if let Some(FieldType::BombField) = board.get_field_type(pos(r, c)) {
                bombs += 1;
            }
        }
    }
    bombs
}

/// Collects the (content, state) pair of every field, row-major.
fn snapshot(board: &Board) -> Vec<(FieldType, Visibility)> {
    let mut cells = Vec::new();
    for r in 0..board.height {
        for c in 0..board.width {
            cells.push((
                board.get_field_type(pos(r, c)).unwrap(),
                board.get_field_vis(pos(r, c)).unwrap(),
            ));
        }
    }
    cells
}

#[test]
fn create_new_valid_board() {
    let board = Board::new(8, 8, 10).unwrap();
    let mut bomb_count = 0;
    for r in 0..board.height {
        for c in 0..board.width {
            if let Some(FieldType::BombField) = board.get_field_type(pos(r, c)) {
                bomb_count += 1;
            }
        }
    }
    assert_eq!(bomb_count, 10);
}

#[test]
fn new_boards_have_exact_bomb_counts() {
    for (w, h, b) in [(1, 1, 0), (1, 1, 1), (5, 4, 20), (4, 5, 0), (9, 9, 10), (2, 3, 6)] {
        let board = Board::new(w, h, b).unwrap();
        assert_eq!(board.width, w);
        assert_eq!(board.height, h);
        assert_eq!(count_bombs(&board), b);
        assert_eq!(board.fields_cleared(), 0);
        for r in 0..h {
            for c in 0..w {
                assert_eq!(board.get_field_vis(pos(r, c)), Some(Visibility::Hidden));
            }
        }
    }
}

#[test]
fn new_rejects_too_many_bombs() {
    assert_eq!(
        Board::new(3, 3, 10).unwrap_err(),
        BoardError::InvalidConfiguration
    );
    assert_eq!(
        Board::new(0, 5, 1).unwrap_err(),
        BoardError::InvalidConfiguration
    );
}

#[test]
fn new_with_bombs_places_bombs_exactly() {
    let board = Board::new_with_bombs(3, 3, &vec![pos(0, 0), pos(1, 1)]).unwrap();
    assert_eq!(count_bombs(&board), 2);
    assert_eq!(board.get_field_type(pos(0, 0)), Some(FieldType::BombField));
    assert_eq!(board.get_field_type(pos(1, 1)), Some(FieldType::BombField));
}

#[test]
fn new_with_bombs_rejects_bad_layouts() {
    // a duplicate position
    assert_eq!(
        Board::new_with_bombs(3, 3, &vec![pos(0, 0), pos(0, 0)]).unwrap_err(),
        BoardError::InvalidConfiguration
    );
    // a position outside the grid
    assert_eq!(
        Board::new_with_bombs(3, 3, &vec![pos(3, 0)]).unwrap_err(),
        BoardError::InvalidConfiguration
    );
}

#[test]
fn adjacency_counts_on_known_layout() {
    let board = Board::new_with_bombs(3, 3, &vec![pos(0, 0), pos(1, 1)]).unwrap();
    let expected = [
        (pos(0, 1), 2),
        (pos(0, 2), 1),
        (pos(1, 0), 2),
        (pos(1, 2), 1),
        (pos(2, 0), 1),
        (pos(2, 1), 1),
        (pos(2, 2), 1),
    ];
    for (p, n) in expected {
        assert_eq!(board.get_field_type(p), Some(FieldType::SafeField(n)));
    }
}

#[test]
fn adjacency_counts_on_random_board() {
    let board = Board::new(6, 6, 8).unwrap();
    for r in 0..6usize {
        for c in 0..6usize {
            if let Some(FieldType::SafeField(n)) = board.get_field_type(pos(r, c)) {
                let mut around: i64 = 0;
                for dr in 0..3usize {
                    for dc in 0..3usize {
                        if dr == 1 && dc == 1 {
                            continue;
                        }
                        if r + dr >= 1 && c + dc >= 1 {
                            let (nr, nc) = (r + dr - 1, c + dc - 1);
                            if let Some(FieldType::BombField) =
                                board.get_field_type(pos(nr, nc))
                            {
                                around += 1;
                            }
                        }
                    }
                }
                assert_eq!(n, around);
            }
        }
    }
}

#[test]
fn reveal_is_idempotent() {
    let mut board = Board::new_with_bombs(2, 2, &vec![pos(0, 0)]).unwrap();
    assert_eq!(board.show_field(pos(1, 1)), Ok(FieldType::SafeField(1)));
    assert_eq!(board.fields_cleared(), 1);
    let before = snapshot(&board);
    assert_eq!(board.show_field(pos(1, 1)), Ok(FieldType::SafeField(1)));
    assert_eq!(board.fields_cleared(), 1);
    assert_eq!(snapshot(&board), before);
}

#[test]
fn flood_fill_reveals_zero_region_and_boundary() {
    let mut board = Board::new_with_bombs(4, 4, &vec![pos(3, 3)]).unwrap();
    assert_eq!(board.show_field(pos(0, 0)), Ok(FieldType::SafeField(0)));
    for r in 0..4 {
        for c in 0..4 {
            let expected = if r == 3 && c == 3 {
                Visibility::Hidden
            } else {
                Visibility::Visible
            };
            assert_eq!(board.get_field_vis(pos(r, c)), Some(expected));
        }
    }
    assert_eq!(board.fields_cleared(), 15);
    assert!(board.is_win());
}

#[test]
fn flood_fill_stops_at_flagged_fields() {
    let mut board = Board::new_with_bombs(4, 4, &vec![pos(3, 3)]).unwrap();
    board.set_flag(pos(0, 1), true).unwrap();
    assert_eq!(board.show_field(pos(0, 0)), Ok(FieldType::SafeField(0)));
    assert_eq!(board.get_field_vis(pos(0, 1)), Some(Visibility::Flagged));
    // the cascade flows around the flagged field
    assert_eq!(board.get_field_vis(pos(0, 2)), Some(Visibility::Visible));
    assert_eq!(board.fields_cleared(), 14);
}

#[test]
fn win_detection_counts_safe_fields() {
    let mut board = Board::new_with_bombs(3, 3, &vec![pos(0, 0)]).unwrap();
    assert!(!board.is_win());
    for r in 0..3 {
        for c in 0..3 {
            if r == 0 && c == 0 {
                continue;
            }
            board.show_field(pos(r, c)).unwrap();
        }
    }
    assert_eq!(board.fields_cleared(), 8);
    assert!(board.is_win());
}

#[test]
fn win_is_immediate_when_every_field_is_a_bomb() {
    let board = Board::new(1, 1, 1).unwrap();
    assert!(board.is_win());
}

#[test]
fn revealing_a_bomb_leaves_other_fields_alone() {
    let mut board = Board::new_with_bombs(2, 2, &vec![pos(0, 0)]).unwrap();
    let before = snapshot(&board);
    assert_eq!(board.show_field(pos(0, 0)), Ok(FieldType::BombField));
    assert_eq!(board.fields_cleared(), 1);
    let after = snapshot(&board);
    for i in 0..before.len() {
        if i == 0 {
            assert_eq!(after[i], (FieldType::BombField, Visibility::Visible));
        } else {
            assert_eq!(after[i], before[i]);
        }
    }
}

#[test]
fn flag_toggling_returns_to_hidden() {
    let mut board = Board::new_with_bombs(2, 2, &vec![pos(0, 0)]).unwrap();
    assert_eq!(board.set_flag(pos(0, 1), true), Ok(()));
    assert_eq!(board.get_field_flagged(pos(0, 1)), Some(true));
    assert_eq!(board.set_flag(pos(0, 1), false), Ok(()));
    assert_eq!(board.get_field_flagged(pos(0, 1)), Some(false));
    assert_eq!(board.get_field_vis(pos(0, 1)), Some(Visibility::Hidden));
    assert_eq!(board.fields_cleared(), 0);
}

#[test]
fn flagging_a_revealed_field_is_a_no_op() {
    let mut board = Board::new_with_bombs(2, 2, &vec![pos(0, 0)]).unwrap();
    board.show_field(pos(1, 1)).unwrap();
    assert_eq!(board.set_flag(pos(1, 1), true), Ok(()));
    assert_eq!(board.get_field_vis(pos(1, 1)), Some(Visibility::Visible));
    assert_eq!(board.fields_cleared(), 1);
}

#[test]
fn revealing_a_flagged_field_is_rejected() {
    let mut board = Board::new_with_bombs(2, 2, &vec![pos(0, 0)]).unwrap();
    board.set_flag(pos(1, 1), true).unwrap();
    assert_eq!(board.show_field(pos(1, 1)), Err(BoardError::FieldFlagged));
    assert_eq!(board.get_field_vis(pos(1, 1)), Some(Visibility::Flagged));
    assert_eq!(board.fields_cleared(), 0);
}

#[test]
fn out_of_bounds_positions_are_rejected() {
    let mut board = Board::new_with_bombs(2, 2, &vec![pos(0, 0)]).unwrap();
    assert_eq!(board.show_field(pos(2, 0)), Err(BoardError::OutOfBounds));
    assert_eq!(board.set_flag(pos(0, 2), true), Err(BoardError::OutOfBounds));
    assert_eq!(board.get_field(pos(9, 9)), None);
    assert_eq!(board.get_field_type(pos(2, 2)), None);
    assert_eq!(board.get_field_vis(pos(0, 5)), None);
    assert_eq!(board.get_field_flagged(pos(5, 0)), None);
}

#[test]
fn reveal_all_shows_every_field() {
    let mut board = Board::new_with_bombs(2, 2, &vec![pos(1, 1)]).unwrap();
    board.all_fields_visible();
    for r in 0..2 {
        for c in 0..2 {
            assert_eq!(board.get_field_vis(pos(r, c)), Some(Visibility::Visible));
        }
    }
    assert_eq!(board.fields_cleared(), 4);
    assert!(!board.is_win());
}

#[test]
fn cascade_covers_a_bombless_board() {
    let mut board = Board::new_with_bombs(3, 2, &vec![]).unwrap();
    assert_eq!(board.show_field(pos(0, 0)), Ok(FieldType::SafeField(0)));
    assert_eq!(board.fields_cleared(), 6);
    assert!(board.is_win());
}
