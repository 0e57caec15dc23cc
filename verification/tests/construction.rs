use minesweeper::field::{FieldStatus, FieldType};
use minesweeper::game::{ConfigError, Game, GameStatus};

fn count_mines_on(g: &Game) -> u32 {
    let mut n = 0;
    for y in 0..g.get_height() as i64 {
        for x in 0..g.get_width() as i64 {
            let f = g.get_field(x, y).unwrap();
            if f.field_type == FieldType::Mine {
                n += 1;
            }
        }
    }
    n
}

#[test]
fn construct_places_exact_mine_count() {
    for _ in 0..5 {
        let g = Game::new(5, 4, 7).unwrap();
        assert_eq!(g.get_width(), 5);
        assert_eq!(g.get_height(), 4);
        assert_eq!(g.get_mines_count(), 7);
        assert_eq!(g.get_game_status(), GameStatus::Playing);
        assert_eq!(count_mines_on(&g), 7);
    }
}

#[test]
fn construct_starts_hidden_and_unmarked() {
    let g = Game::new(6, 6, 10).unwrap();
    for y in 0..6i64 {
        for x in 0..6i64 {
            let f = g.get_field(x, y).unwrap();
            assert_eq!(f.field_status, FieldStatus::Unrevealed);
            assert!(!f.is_marked);
        }
    }
}

#[test]
fn construct_zero_mines_allowed() {
    let g = Game::new(3, 3, 0).unwrap();
    assert_eq!(count_mines_on(&g), 0);
    for y in 0..3i64 {
        for x in 0..3i64 {
            let f = g.get_field(x, y).unwrap();
            assert_eq!(f.field_type, FieldType::Empty);
        }
    }
}

#[test]
fn construct_rejects_mine_count_at_cell_count() {
    assert!(matches!(Game::new(3, 3, 9), Err(ConfigError::TooManyMines)));
    assert!(matches!(Game::new(3, 3, 10), Err(ConfigError::TooManyMines)));
    assert!(matches!(Game::new(0, 5, 0), Err(ConfigError::TooManyMines)));
    assert!(Game::new(3, 3, 8).is_ok());
}

#[test]
fn pointers_count_adjacent_mines_center() {
    // One mine in the middle of a 3x3 board: all 8 neighbors point at it.
    let g = Game::with_mines(3, 3, &vec![4]);
    for y in 0..3i64 {
        for x in 0..3i64 {
            let f = g.get_field(x, y).unwrap();
            if x == 1 && y == 1 {
                assert_eq!(f.field_type, FieldType::Mine);
            } else {
                assert_eq!(f.field_type, FieldType::Pointer { mines_nearby: 1 });
            }
        }
    }
}

#[test]
fn pointers_count_adjacent_mines_exactly() {
    // Mines at (0,0), (2,0) and (0,2) on a 4x3 board; check every cell's
    // kind against an adjacency count computed by hand here.
    let mines: Vec<(i64, i64)> = vec![(0, 0), (2, 0), (0, 2)];
    let idx: Vec<u64> = mines.iter().map(|&(x, y)| (x + y * 4) as u64).collect();
    let g = Game::with_mines(4, 3, &idx);
    for y in 0..3i64 {
        for x in 0..4i64 {
            let f = g.get_field(x, y).unwrap();
            if mines.contains(&(x, y)) {
                assert_eq!(f.field_type, FieldType::Mine);
                continue;
            }
            let mut n: u8 = 0;
            for dy in -1i64..=1 {
                for dx in -1i64..=1 {
                    if (dx, dy) != (0, 0) && mines.contains(&(x + dx, y + dy)) {
                        n += 1;
                    }
                }
            }
            if n == 0 {
                assert_eq!(f.field_type, FieldType::Empty);
            } else {
                assert_eq!(f.field_type, FieldType::Pointer { mines_nearby: n });
            }
        }
    }
}

#[test]
fn get_field_is_none_off_board() {
    let g = Game::new(3, 3, 1).unwrap();
    assert!(g.get_field(-1, 0).is_none());
    assert!(g.get_field(0, -1).is_none());
    assert!(g.get_field(3, 0).is_none());
    assert!(g.get_field(0, 3).is_none());
    assert!(g.get_field(2, 2).is_some());
}
