use minesweeper::field::{Field, FieldStatus, FieldType};
use minesweeper::game::{Game, GameStatus};

fn snapshot(g: &Game) -> Vec<Field> {
    let mut v = Vec::new();
    for y in 0..g.get_height() as i64 {
        for x in 0..g.get_width() as i64 {
            v.push(g.get_field(x, y).unwrap());
        }
    }
    v
}

fn status_at(g: &Game, x: i64, y: i64) -> FieldStatus {
    g.get_field(x, y).unwrap().field_status
}

#[test]
fn reveal_is_idempotent_on_revealed_cell() {
    let g0 = Game::with_mines(3, 3, &vec![4]);
    let mut g = g0;
    g.reveal_cell(0, 0);
    let first = snapshot(&g);
    let first_status = g.get_game_status();
    g.reveal_cell(0, 0);
    assert_eq!(snapshot(&g), first);
    assert_eq!(g.get_game_status(), first_status);
}

#[test]
fn reveal_floods_whole_empty_board() {
    let mut g = Game::new(50, 50, 0).unwrap();
    g.reveal_cell(0, 0);
    for y in 0..50i64 {
        for x in 0..50i64 {
            assert_eq!(status_at(&g, x, y), FieldStatus::Revealed);
        }
    }
    // With zero mines the win count (0 marked mines) is met at once.
    assert_eq!(g.get_game_status(), GameStatus::Won);
}

#[test]
fn chord_reveals_unmarked_neighbors() {
    // (1,0) is a Pointer(2); marking both its mines satisfies the chord.
    // The third mine at (0,2) keeps the game from being won by the marks.
    let mut g = Game::with_mines(4, 3, &vec![0, 2, 8]);
    g.mark(0, 0);
    g.mark(2, 0);
    assert_eq!(g.get_game_status(), GameStatus::Playing);
    g.reveal_cell(1, 0);
    assert_eq!(g.get_game_status(), GameStatus::Playing);
    assert_eq!(status_at(&g, 1, 0), FieldStatus::Revealed);
    assert_eq!(status_at(&g, 0, 1), FieldStatus::Revealed);
    assert_eq!(status_at(&g, 1, 1), FieldStatus::Revealed);
    assert_eq!(status_at(&g, 2, 1), FieldStatus::Revealed);
    // The marked mines and the far mine stay hidden.
    assert_eq!(status_at(&g, 0, 0), FieldStatus::Unrevealed);
    assert_eq!(status_at(&g, 2, 0), FieldStatus::Unrevealed);
    assert_eq!(status_at(&g, 0, 2), FieldStatus::Unrevealed);
}

#[test]
fn chord_needs_exact_marked_count() {
    // Only one of the Pointer(2)'s two mines is marked: no cascade.
    let mut g = Game::with_mines(4, 3, &vec![0, 2, 8]);
    g.mark(0, 0);
    g.reveal_cell(1, 0);
    assert_eq!(status_at(&g, 1, 0), FieldStatus::Revealed);
    assert_eq!(status_at(&g, 0, 1), FieldStatus::Unrevealed);
    assert_eq!(status_at(&g, 1, 1), FieldStatus::Unrevealed);
    assert_eq!(status_at(&g, 2, 1), FieldStatus::Unrevealed);
}

#[test]
fn revealing_a_mine_loses_and_shows_the_minefield() {
    let mut g = Game::with_mines(3, 3, &vec![4]);
    g.reveal_cell(1, 1);
    assert_eq!(g.get_game_status(), GameStatus::Lost);
    for y in 0..3i64 {
        for x in 0..3i64 {
            let f = g.get_field(x, y).unwrap();
            if x == 1 && y == 1 {
                assert_eq!(f.field_status, FieldStatus::Revealed);
            } else {
                assert_eq!(f.field_status, FieldStatus::Unrevealed);
            }
        }
    }
}

#[test]
fn marking_every_mine_wins() {
    let mut g = Game::with_mines(4, 4, &vec![0, 5, 10]);
    g.mark(0, 0);
    assert_eq!(g.get_game_status(), GameStatus::Playing);
    g.mark(1, 1);
    assert_eq!(g.get_game_status(), GameStatus::Playing);
    g.mark(2, 2);
    assert_eq!(g.get_game_status(), GameStatus::Won);
}

#[test]
fn win_check_counts_marked_mines_only() {
    // Marking non-mines alongside does not spoil the count-based win.
    let mut g = Game::with_mines(3, 3, &vec![4]);
    g.mark(0, 0);
    g.mark(0, 1);
    assert_eq!(g.get_game_status(), GameStatus::Playing);
    g.mark(1, 1);
    assert_eq!(g.get_game_status(), GameStatus::Won);
}

#[test]
fn reveal_out_of_bounds_is_a_noop() {
    let mut g = Game::with_mines(3, 3, &vec![4]);
    g.mark(0, 0);
    let before = snapshot(&g);
    g.reveal_cell(-1, 0);
    g.reveal_cell(3, 0);
    g.reveal_cell(0, -1);
    g.reveal_cell(0, 3);
    assert_eq!(snapshot(&g), before);
    assert_eq!(g.get_game_status(), GameStatus::Playing);
}

#[test]
fn mark_out_of_bounds_is_a_noop() {
    let mut g = Game::with_mines(3, 3, &vec![4]);
    let before = snapshot(&g);
    g.mark(-1, 0);
    g.mark(3, 0);
    assert_eq!(snapshot(&g), before);
    assert_eq!(g.get_game_status(), GameStatus::Playing);
}

#[test]
fn mark_toggles_and_skips_revealed_cells() {
    let mut g = Game::with_mines(3, 3, &vec![4]);
    g.mark(0, 0);
    assert!(g.get_field(0, 0).unwrap().is_marked);
    g.mark(0, 0);
    assert!(!g.get_field(0, 0).unwrap().is_marked);
    g.reveal_cell(0, 0);
    g.mark(0, 0);
    assert!(!g.get_field(0, 0).unwrap().is_marked);
}

#[test]
fn moves_are_ignored_once_lost() {
    let mut g = Game::with_mines(3, 3, &vec![4]);
    g.reveal_cell(1, 1);
    assert_eq!(g.get_game_status(), GameStatus::Lost);
    let before = snapshot(&g);
    g.reveal_cell(0, 0);
    g.mark(0, 0);
    assert_eq!(snapshot(&g), before);
    assert_eq!(g.get_game_status(), GameStatus::Lost);
}

#[test]
fn set_all_visible_opens_everything_without_ending_the_game() {
    let mut g = Game::with_mines(3, 3, &vec![4]);
    g.set_all_visible();
    for y in 0..3i64 {
        for x in 0..3i64 {
            assert_eq!(status_at(&g, x, y), FieldStatus::Revealed);
        }
    }
    assert_eq!(g.get_game_status(), GameStatus::Playing);
}

#[test]
fn reset_rebuilds_a_fresh_board() {
    let mut g = Game::new(5, 5, 5).unwrap();
    g.reveal_cell(2, 2);
    g.reset();
    assert_eq!(g.get_width(), 5);
    assert_eq!(g.get_height(), 5);
    assert_eq!(g.get_mines_count(), 5);
    assert_eq!(g.get_game_status(), GameStatus::Playing);
    let mut mines = 0;
    for y in 0..5i64 {
        for x in 0..5i64 {
            let f = g.get_field(x, y).unwrap();
            assert_eq!(f.field_status, FieldStatus::Unrevealed);
            assert!(!f.is_marked);
            if f.field_type == FieldType::Mine {
                mines += 1;
            }
        }
    }
    assert_eq!(mines, 5);
}

#[test]
fn flood_stops_at_numbered_boundary() {
    // A single mine in the corner of a 4x4 board: flooding from the far
    // corner opens everything except the mine; its pointer ring is the
    // boundary, opened but not crossed.
    let mut g = Game::with_mines(4, 4, &vec![0]);
    g.reveal_cell(3, 3);
    for y in 0..4i64 {
        for x in 0..4i64 {
            if x == 0 && y == 0 {
                assert_eq!(status_at(&g, x, y), FieldStatus::Unrevealed);
            } else {
                assert_eq!(status_at(&g, x, y), FieldStatus::Revealed);
            }
        }
    }
    assert_eq!(g.get_game_status(), GameStatus::Playing);
}
