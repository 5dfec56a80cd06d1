use sweeper::field::{ConfigError, Field};
use sweeper::sweeper::{Position, UnsafePosition};
use sweeper::tile::{Tile, TileKind};

fn count_bombs(field: &Field) -> usize {
    let mut n = 0;
    for row in field.tile_matrix.iter() {
        for tile in row.iter() {
            if tile.kind == TileKind::Bomb {
                n += 1;
            }
        }
    }
    n
}

fn true_adjacent_bombs(field: &Field, r: usize, c: usize) -> u8 {
    let mut n = 0u8;
    for dr in -1i64..=1 {
        for dc in -1i64..=1 {
            if dr == 0 && dc == 0 {
                continue;
            }
            let rr = r as i64 + dr;
            let cc = c as i64 + dc;
            if rr >= 0 && cc >= 0 && (rr as usize) < field.rows && (cc as usize) < field.cols {
                if field.tile_matrix[rr as usize][cc as usize].kind == TileKind::Bomb {
                    n += 1;
                }
            }
        }
    }
    n
}

#[test]
fn create_rejects_zero_dimensions() {
    assert_eq!(Field::create(0, 5, 1).unwrap_err(), ConfigError::ZeroDimensions);
    assert_eq!(Field::create(5, 0, 1).unwrap_err(), ConfigError::ZeroDimensions);
}

#[test]
fn create_rejects_oversized_grid() {
    assert_eq!(Field::create(usize::MAX, 2, 1).unwrap_err(), ConfigError::GridTooLarge);
}

#[test]
fn create_rejects_too_many_bombs() {
    // A 9-by-9 board must keep a 3-by-3 safe zone bomb-free.
    assert_eq!(Field::create(9, 9, 73).unwrap_err(), ConfigError::TooManyBombs);
    assert!(Field::create(9, 9, 72).is_ok());
    // A 3-by-3 board is all safe zone for a centre click.
    assert_eq!(Field::create(3, 3, 1).unwrap_err(), ConfigError::TooManyBombs);
    assert!(Field::create(3, 3, 0).is_ok());
}

#[test]
fn create_makes_blank_board() {
    let f = Field::create(4, 6, 3).unwrap();
    assert_eq!(f.rows, 4);
    assert_eq!(f.cols, 6);
    assert_eq!(f.bombs, 3);
    for r in 0..4 {
        for c in 0..6 {
            let t = f.tile_matrix[r][c];
            assert_eq!(t.kind, TileKind::Empty);
            assert!(!t.revealed && !t.flagged && !t.selected);
            assert_eq!(t.position, Position(r, c));
        }
    }
}

#[test]
fn populate_places_exact_bomb_count() {
    let f = Field::create(9, 9, 10).unwrap();
    let g = f.populate(&Position(4, 4)).unwrap();
    assert_eq!(count_bombs(&g), 10);
}

#[test]
fn populate_keeps_safe_zone_clear() {
    let f = Field::create(9, 9, 10).unwrap();
    let g = f.populate(&Position(4, 4)).unwrap();
    for r in 3..=5 {
        for c in 3..=5 {
            assert_ne!(g.tile_matrix[r][c].kind, TileKind::Bomb);
        }
    }
}

#[test]
fn populate_classifies_every_tile() {
    let f = Field::create(9, 9, 10).unwrap();
    let g = f.populate(&Position(0, 0)).unwrap();
    for r in 0..9 {
        for c in 0..9 {
            let t = g.tile_matrix[r][c];
            if t.kind == TileKind::Bomb {
                continue;
            }
            let n = true_adjacent_bombs(&g, r, c);
            if n == 0 {
                assert_eq!(t.kind, TileKind::Empty);
            } else {
                assert_eq!(t.kind, TileKind::Safe(n));
            }
        }
    }
}

#[test]
fn populate_fails_when_target_exceeds_eligible_cells() {
    // An interior click leaves 81 - 9 = 72 eligible cells, a corner
    // click 81 - 4 = 77: a target of 76 fits only in the corner.
    let mut f = Field::create(9, 9, 10).unwrap();
    f.bombs = 76;
    assert_eq!(f.populate(&Position(4, 4)).unwrap_err(), ConfigError::TooManyBombs);
    assert_eq!(count_bombs(&f.populate(&Position(0, 0)).unwrap()), 76);
}

#[test]
fn get_tile_checks_bounds() {
    let f = Field::create(4, 4, 2).unwrap();
    assert!(f.get_tile(UnsafePosition(-1, 0)).is_none());
    assert!(f.get_tile(UnsafePosition(0, -1)).is_none());
    assert!(f.get_tile(UnsafePosition(4, 0)).is_none());
    assert!(f.get_tile(UnsafePosition(0, 4)).is_none());
    let t = f.get_tile(UnsafePosition(2, 3)).unwrap();
    assert_eq!(t.position, Position(2, 3));
}

#[test]
fn get_neighbours_respects_edges() {
    let f = Field::create(9, 9, 10).unwrap();
    assert_eq!(f.get_neighbours(UnsafePosition(0, 0)).len(), 3);
    assert_eq!(f.get_neighbours(UnsafePosition(0, 4)).len(), 5);
    assert_eq!(f.get_neighbours(UnsafePosition(4, 4)).len(), 8);
    assert_eq!(f.get_neighbours(UnsafePosition(8, 8)).len(), 3);
    let nbrs = f.get_neighbours(UnsafePosition(4, 4));
    for t in nbrs.iter() {
        let dr = (t.position.0 as i64 - 4).abs();
        let dc = (t.position.1 as i64 - 4).abs();
        assert!(dr <= 1 && dc <= 1 && (dr, dc) != (0, 0));
    }
}

#[test]
fn field_toggle_flag_flips_hidden_only() {
    let f = Field::create(4, 4, 2).unwrap();
    let g = f.toggle_flag(&Position(1, 1));
    assert!(g.tile_matrix[1][1].flagged);
    let h = g.toggle_flag(&Position(1, 1));
    assert!(!h.tile_matrix[1][1].flagged);
    // A revealed tile ignores the flag toggle.
    let revealed = f.uncover(&Position(2, 2));
    assert!(revealed.tile_matrix[2][2].revealed);
    let i = revealed.toggle_flag(&Position(2, 2));
    assert!(!i.tile_matrix[2][2].flagged);
}

#[test]
fn field_uncover_skips_flagged_and_revealed() {
    let f = Field::create(4, 4, 2).unwrap();
    let flagged = f.toggle_flag(&Position(0, 0));
    let g = flagged.uncover(&Position(0, 0));
    assert!(!g.tile_matrix[0][0].revealed);
    let h = f.uncover(&Position(0, 0));
    assert!(h.tile_matrix[0][0].revealed);
    let again = h.uncover(&Position(0, 0));
    assert_eq!(again.tile_matrix[0][0], h.tile_matrix[0][0]);
}

#[test]
fn field_select_moves_selection() {
    let f = Field::create(3, 3, 0).unwrap();
    let g = f.select(Position(1, 2));
    for r in 0..3 {
        for c in 0..3 {
            assert_eq!(g.tile_matrix[r][c].selected, (r, c) == (1, 2));
        }
    }
    let h = g.select(Position(0, 0));
    assert!(h.tile_matrix[0][0].selected);
    assert!(!h.tile_matrix[1][2].selected);
}

#[test]
fn field_game_over_bares_board() {
    let f = Field::create(3, 3, 0).unwrap().toggle_flag(&Position(0, 1));
    let g = f.game_over();
    for r in 0..3 {
        for c in 0..3 {
            assert!(g.tile_matrix[r][c].revealed);
            assert!(!g.tile_matrix[r][c].flagged);
        }
    }
}

#[test]
fn tile_constructors_and_queries() {
    let p = Position(2, 5);
    let e = Tile::new_empty(p);
    assert!(e.is_empty() && !e.is_safe() && !e.is_bomb());
    let s = Tile::new_safe(p, 4);
    assert_eq!(s.kind, TileKind::Safe(4));
    assert!(s.is_safe() && !s.is_empty() && !s.is_bomb());
    let b = Tile::new_bomb(p);
    assert!(b.is_bomb());
    assert_eq!(b.position, p);
    assert!(!b.revealed && !b.flagged && !b.selected);
}

#[test]
fn tile_set_neighbours_reclassifies() {
    let p = Position(0, 0);
    let e = Tile::new_empty(p);
    assert_eq!(e.set_neighbours(0).kind, TileKind::Empty);
    assert_eq!(e.set_neighbours(3).kind, TileKind::Safe(3));
    let s = Tile::new_safe(p, 2);
    assert_eq!(s.set_neighbours(0).kind, TileKind::Empty);
    let b = Tile::new_bomb(p);
    assert_eq!(b.set_neighbours(5).kind, TileKind::Bomb);
}

#[test]
fn tile_flag_cycle() {
    let t = Tile::new_empty(Position(1, 1));
    let f = t.flag();
    assert!(f.flagged);
    let u = f.unflag();
    assert!(!u.flagged);
    assert_eq!(u, t);
    let sel = t.select();
    assert!(sel.selected);
    assert_eq!(sel.deselect(), t);
    let r = t.uncover();
    assert!(r.revealed);
}

#[test]
fn position_conversions_round_trip() {
    let p = Position(3, 7);
    let u = p.to_unsafe();
    assert_eq!(u, UnsafePosition(3, 7));
    assert_eq!(u.to_safe(), p);
}
