use sweeper::field::{ConfigError, Field};
use sweeper::sweeper::{Action, Difficulty, GameStatus, Position, Sweeper, UnsafePosition};
use sweeper::sweeper::CursorDirection;
use sweeper::tile::{Tile, TileKind};

/// Builds a fully classified board with bombs exactly at `bombs`, then
/// applies `flags` and `revealed` marks. The bomb count must match the
/// board's target so the session invariant holds.
fn craft_field(
    rows: usize,
    cols: usize,
    bombs: &[(usize, usize)],
    flags: &[(usize, usize)],
    revealed: &[(usize, usize)],
) -> Field {
    let mut field = Field::create(rows, cols, bombs.len()).unwrap();
    for r in 0..rows {
        for c in 0..cols {
            let tile = if bombs.contains(&(r, c)) {
                Tile::new_bomb(Position(r, c))
            } else {
                let mut n = 0u8;
                for &(br, bc) in bombs.iter() {
                    let dr = (r as i64 - br as i64).abs();
                    let dc = (c as i64 - bc as i64).abs();
                    if dr <= 1 && dc <= 1 && (dr, dc) != (0, 0) {
                        n += 1;
                    }
                }
                if n == 0 {
                    Tile::new_empty(Position(r, c))
                } else {
                    Tile::new_safe(Position(r, c), n)
                }
            };
            field.tile_matrix[r][c] = tile;
        }
    }
    for &(r, c) in flags.iter() {
        field.tile_matrix[r][c] = field.tile_matrix[r][c].flag();
    }
    for &(r, c) in revealed.iter() {
        field.tile_matrix[r][c] = field.tile_matrix[r][c].uncover();
    }
    field
}

fn in_progress_session(field: Field) -> Sweeper {
    let mut s = Sweeper::new(Difficulty::Custom, Some((field.rows, field.cols, field.bombs)))
        .unwrap();
    s.field = field;
    s.status = GameStatus::InProgress;
    s
}

fn snapshot(field: &Field) -> Vec<Vec<Tile>> {
    field.tile_matrix.clone()
}

#[test]
fn test_reveal_recursively() {
    let mut sweeper = Sweeper::new(Difficulty::Easy, None).unwrap();
    let sweeper_cursor = Position(3, 3);
    sweeper.reveal_recursively(&sweeper_cursor);
    assert!(sweeper.field.tile_matrix[3][3].revealed);
}

#[test]
fn new_presets_and_custom() {
    let easy = Sweeper::new(Difficulty::Easy, None).unwrap();
    assert_eq!((easy.field.rows, easy.field.cols, easy.field.bombs), (9, 9, 10));
    assert_eq!(easy.status, GameStatus::AwaitingFirstReveal);
    let medium = Sweeper::new(Difficulty::Medium, None).unwrap();
    assert_eq!((medium.field.rows, medium.field.cols, medium.field.bombs), (16, 16, 40));
    let hard = Sweeper::new(Difficulty::Hard, None).unwrap();
    assert_eq!((hard.field.rows, hard.field.cols, hard.field.bombs), (16, 30, 99));
    let nightmare = Sweeper::new(Difficulty::Nightmare, None).unwrap();
    assert_eq!((nightmare.field.rows, nightmare.field.cols, nightmare.field.bombs), (25, 55, 481));
    assert_eq!(
        Sweeper::new(Difficulty::Custom, None).unwrap_err(),
        ConfigError::MissingCustomParameters
    );
    let custom = Sweeper::new(Difficulty::Custom, Some((5, 7, 4))).unwrap();
    assert_eq!((custom.field.rows, custom.field.cols, custom.field.bombs), (5, 7, 4));
    assert_eq!(
        Sweeper::new(Difficulty::Custom, Some((0, 7, 4))).unwrap_err(),
        ConfigError::ZeroDimensions
    );
    assert_eq!(
        Sweeper::new(Difficulty::Custom, Some((3, 3, 5))).unwrap_err(),
        ConfigError::TooManyBombs
    );
}

#[test]
fn first_reveal_nine_by_nine_example() {
    let mut s = Sweeper::new(Difficulty::Easy, None).unwrap();
    s.reveal_recursively(&Position(4, 4));
    let mut bombs = 0;
    for r in 0..9 {
        for c in 0..9 {
            if s.field.tile_matrix[r][c].kind == TileKind::Bomb {
                bombs += 1;
                assert!(!(3 <= r && r <= 5 && 3 <= c && c <= 5));
            }
        }
    }
    assert_eq!(bombs, 10);
    let target = s.field.tile_matrix[4][4];
    assert!(target.revealed);
    assert_ne!(target.kind, TileKind::Bomb);
    assert_ne!(s.status, GameStatus::Lost);
}

#[test]
fn zero_bomb_board_wins_on_first_reveal() {
    let mut s = Sweeper::new(Difficulty::Custom, Some((5, 5, 0))).unwrap();
    s.reveal_recursively(&Position(2, 2));
    assert_eq!(s.status, GameStatus::Won);
    let mut revealed = 0;
    for row in s.field.tile_matrix.iter() {
        for t in row.iter() {
            if t.revealed {
                revealed += 1;
            }
        }
    }
    assert_eq!(revealed, 25);
}

#[test]
fn chord_reveals_all_unflagged_neighbours() {
    // A Safe(3) tile at (2, 2) with its three bombs flagged: chording
    // reveals the five remaining neighbours in one call.
    let bombs = [(1, 1), (1, 2), (1, 3)];
    let field = craft_field(5, 5, &bombs, &bombs, &[(2, 2)]);
    assert_eq!(field.tile_matrix[2][2].kind, TileKind::Safe(3));
    let mut s = in_progress_session(field);
    s.reveal_recursively(&Position(2, 2));
    for &(r, c) in [(2, 1), (2, 3), (3, 1), (3, 2), (3, 3)].iter() {
        assert!(s.field.tile_matrix[r][c].revealed, "neighbour {:?} not revealed", (r, c));
    }
    for &(r, c) in bombs.iter() {
        assert!(s.field.tile_matrix[r][c].flagged);
        assert!(!s.field.tile_matrix[r][c].revealed);
    }
    assert_eq!(s.status, GameStatus::InProgress);
}

#[test]
fn chord_with_wrong_flag_count_changes_nothing() {
    let bombs = [(1, 1), (1, 2), (1, 3)];
    let field = craft_field(5, 5, &bombs, &[(1, 1), (1, 2)], &[(2, 2)]);
    let mut s = in_progress_session(field);
    let before = snapshot(&s.field);
    s.reveal_recursively(&Position(2, 2));
    assert_eq!(snapshot(&s.field), before);
    assert_eq!(s.status, GameStatus::InProgress);
}

#[test]
fn chord_on_misflagged_tile_can_lose() {
    // Two flags sit on safe tiles next to a Safe(2); the chord then
    // reveals the two real bombs and loses the game.
    let bombs = [(0, 0), (0, 2)];
    let field = craft_field(4, 4, &bombs, &[(2, 0), (2, 2)], &[(1, 1)]);
    assert_eq!(field.tile_matrix[1][1].kind, TileKind::Safe(2));
    let mut s = in_progress_session(field);
    s.reveal_recursively(&Position(1, 1));
    assert_eq!(s.status, GameStatus::Lost);
}

#[test]
fn revealing_bomb_loses_and_bares_board() {
    let bombs = [(0, 0)];
    let field = craft_field(4, 4, &bombs, &[], &[]);
    let mut s = in_progress_session(field);
    s.reveal_recursively(&Position(0, 0));
    assert_eq!(s.status, GameStatus::Lost);
    for row in s.field.tile_matrix.iter() {
        for t in row.iter() {
            assert!(t.revealed);
            assert!(!t.flagged);
        }
    }
}

#[test]
fn flood_fill_reveals_empty_region_and_stops_at_numbers() {
    // One bomb in a corner: every tile two or more steps away is Empty,
    // and a reveal far from the bomb floods everything but the bomb.
    let bombs = [(0, 0)];
    let field = craft_field(4, 4, &bombs, &[], &[]);
    let mut s = in_progress_session(field);
    s.reveal_recursively(&Position(3, 3));
    assert_eq!(s.status, GameStatus::Won);
    assert!(!s.field.tile_matrix[0][0].revealed);
    for r in 0..4 {
        for c in 0..4 {
            if (r, c) != (0, 0) {
                assert!(s.field.tile_matrix[r][c].revealed);
            }
        }
    }
}

#[test]
fn reveal_on_revealed_tile_is_a_no_op() {
    let bombs = [(0, 0), (0, 1)];
    let field = craft_field(4, 4, &bombs, &[], &[(3, 3)]);
    let mut s = in_progress_session(field);
    let before = snapshot(&s.field);
    // (3, 3) is Empty and already revealed: nothing may change.
    s.reveal_recursively(&Position(3, 3));
    assert_eq!(snapshot(&s.field), before);
    assert_eq!(s.status, GameStatus::InProgress);
}

#[test]
fn reveal_on_flagged_tile_is_a_no_op() {
    let bombs = [(0, 0)];
    let field = craft_field(4, 4, &bombs, &[(2, 2)], &[]);
    let mut s = in_progress_session(field);
    let before = snapshot(&s.field);
    s.reveal_recursively(&Position(2, 2));
    assert_eq!(snapshot(&s.field), before);
}

#[test]
fn toggle_flag_twice_restores_tile() {
    let mut s = Sweeper::new(Difficulty::Easy, None).unwrap();
    let p = Position(1, 1);
    let before = snapshot(&s.field);
    s.apply_action(Action::ToggleFlag(p));
    assert!(s.field.tile_matrix[1][1].flagged);
    s.apply_action(Action::ToggleFlag(p));
    assert_eq!(snapshot(&s.field), before);
}

#[test]
fn terminal_states_accept_only_restart() {
    let bombs = [(0, 0)];
    let field = craft_field(4, 4, &bombs, &[], &[]);
    let mut s = in_progress_session(field);
    s.reveal_recursively(&Position(0, 0));
    assert_eq!(s.status, GameStatus::Lost);
    let before = snapshot(&s.field);
    s.apply_action(Action::Reveal(Position(1, 1)));
    assert_eq!(snapshot(&s.field), before);
    assert_eq!(s.status, GameStatus::Lost);
    s.apply_action(Action::ToggleFlag(Position(1, 1)));
    assert_eq!(snapshot(&s.field), before);
    s.apply_action(Action::Quit);
    assert_eq!(snapshot(&s.field), before);
    s.apply_action(Action::Restart);
    assert_eq!(s.status, GameStatus::AwaitingFirstReveal);
    for row in s.field.tile_matrix.iter() {
        for t in row.iter() {
            assert_eq!(t.kind, TileKind::Empty);
            assert!(!t.revealed && !t.flagged);
        }
    }
}

#[test]
fn out_of_range_positions_are_ignored() {
    let bombs = [(0, 0)];
    let field = craft_field(4, 4, &bombs, &[], &[]);
    let mut s = in_progress_session(field);
    let before = snapshot(&s.field);
    s.reveal_recursively(&Position(9, 9));
    assert_eq!(snapshot(&s.field), before);
    assert_eq!(s.status, GameStatus::InProgress);
}

#[test]
fn select_marks_cursor_tile() {
    let mut s = Sweeper::new(Difficulty::Easy, None).unwrap();
    s.select(&Position(2, 3));
    for r in 0..9 {
        for c in 0..9 {
            assert_eq!(s.field.tile_matrix[r][c].selected, (r, c) == (2, 3));
        }
    }
    s.select(&Position(4, 4));
    assert!(!s.field.tile_matrix[2][3].selected);
    assert!(s.field.tile_matrix[4][4].selected);
}

#[test]
fn move_cursor_clamps_to_board() {
    let s = Sweeper::new(Difficulty::Easy, None).unwrap();
    assert_eq!(s.move_cursor(UnsafePosition(0, 0), CursorDirection::Up), Position(0, 0));
    assert_eq!(s.move_cursor(UnsafePosition(0, 0), CursorDirection::Left), Position(0, 0));
    assert_eq!(s.move_cursor(UnsafePosition(8, 8), CursorDirection::Down), Position(8, 8));
    assert_eq!(s.move_cursor(UnsafePosition(8, 8), CursorDirection::Right), Position(8, 8));
    assert_eq!(s.move_cursor(UnsafePosition(4, 4), CursorDirection::Up), Position(3, 4));
    assert_eq!(s.move_cursor(UnsafePosition(4, 4), CursorDirection::Down), Position(5, 4));
    assert_eq!(s.move_cursor(UnsafePosition(4, 4), CursorDirection::Left), Position(4, 3));
    assert_eq!(s.move_cursor(UnsafePosition(4, 4), CursorDirection::Right), Position(4, 5));
}

#[test]
fn revealing_numbered_tile_without_chord_changes_one_tile() {
    // (1, 1) is Safe(1) with no flags around: revealing it must touch
    // exactly that tile and nothing else.
    let bombs = [(0, 0)];
    let field = craft_field(4, 4, &bombs, &[], &[]);
    let mut s = in_progress_session(field);
    let before = snapshot(&s.field);
    s.reveal_recursively(&Position(1, 1));
    assert_eq!(s.status, GameStatus::InProgress);
    for r in 0..4 {
        for c in 0..4 {
            if (r, c) == (1, 1) {
                assert!(s.field.tile_matrix[r][c].revealed);
                assert_eq!(s.field.tile_matrix[r][c].kind, before[r][c].kind);
                assert_eq!(s.field.tile_matrix[r][c].flagged, before[r][c].flagged);
            } else {
                assert_eq!(s.field.tile_matrix[r][c], before[r][c]);
            }
        }
    }
}

#[test]
fn winning_by_revealing_last_safe_tile() {
    let bombs = [(0, 0)];
    let mut revealed: Vec<(usize, usize)> = Vec::new();
    for r in 0..4 {
        for c in 0..4 {
            if (r, c) != (0, 0) && (r, c) != (1, 1) {
                revealed.push((r, c));
            }
        }
    }
    let field = craft_field(4, 4, &bombs, &[], &revealed);
    let mut s = in_progress_session(field);
    s.reveal_recursively(&Position(1, 1));
    assert_eq!(s.status, GameStatus::Won);
    assert!(!s.field.tile_matrix[0][0].revealed);
}

#[test]
fn flags_set_before_first_reveal_are_discarded_by_generation() {
    let mut s = Sweeper::new(Difficulty::Easy, None).unwrap();
    s.apply_action(Action::ToggleFlag(Position(0, 0)));
    assert!(s.field.tile_matrix[0][0].flagged);
    s.apply_action(Action::Reveal(Position(4, 4)));
    assert!(!s.field.tile_matrix[0][0].flagged);
    assert_ne!(s.status, GameStatus::Lost);
    assert_ne!(s.status, GameStatus::AwaitingFirstReveal);
}
