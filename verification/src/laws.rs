//! Laws relating whole moves: revealing an already-open cell twice
//! changes nothing further, and one reveal on an all-empty board floods
//! every cell.
use vstd::prelude::*;

use crate::counting::{count_marked_mines, is_mine};
use crate::field::{FieldStatus, FieldType};
use crate::game::{
    adjacent, flood_progress, lemma_index_bounds, reveal_only, state_eq, Game, GameStatus,
};

verus! {

/// Idempotence of the reveal move: when the target cell is already
/// revealed, a second identical call leaves the board exactly as the
/// first call left it.
pub proof fn lemma_reveal_idempotent(g0: Game, g1: Game, g2: Game, x: int, y: int)
    requires
        g0.wf(),
        g0.in_bounds(x, y),
        g0.cell(x, y).field_status == FieldStatus::Revealed,
        Game::reveal_post(g0, g1, x, y),
        Game::reveal_post(g1, g2, x, y),
    ensures
        state_eq(g1, g2),
{
    lemma_index_bounds(g0.width(), g0.height(), x, y);
    if g0.game_status != GameStatus::Playing {
        assert(state_eq(g1, g2));
    } else {
        if is_mine(g0.cell(x, y)) {
            assert(g1.game_status == GameStatus::Lost);
        } else {
            assert(g1.cells() == g0.cells());
            if count_marked_mines(g0.cells()) == g0.game_mines_count as int {
                assert(g1.game_status == GameStatus::Won);
            } else {
                assert(g1.game_status == GameStatus::Playing);
                assert(g1.in_bounds(x, y));
                assert(g1.cell(x, y) == g0.cell(x, y));
                assert(!is_mine(g1.cell(x, y)));
                assert(g2.cells() == g1.cells());
                assert(g2.game_status == GameStatus::Playing);
            }
        }
    }
}

#[verifier::spinoff_prover]
#[verifier::rlimit(100)]
proof fn lemma_empty_spread(pre: Game, post: Game, x: int, y: int, a: int, b: int, d: int)
    requires
        pre.wf(),
        reveal_only(pre, post),
        flood_progress(pre, post),
        forall|i: int|
            0 <= i < pre.cells().len() ==> (#[trigger] pre.cells()[i]).field_type
                == FieldType::Empty,
        forall|i: int|
            0 <= i < pre.cells().len() ==> (#[trigger] pre.cells()[i]).field_status
                == FieldStatus::Unrevealed,
        post.cell(x, y).field_status == FieldStatus::Revealed,
        pre.in_bounds(x, y),
        pre.in_bounds(a, b),
        0 <= d,
        -d <= a - x <= d,
        -d <= b - y <= d,
    ensures
        post.cell(a, b).field_status == FieldStatus::Revealed,
    decreases d,
{
    lemma_index_bounds(pre.width(), pre.height(), a, b);
    if a == x && b == y {
    } else {
        let a2: int = if a < x {
            a + 1
        } else if a > x {
            a - 1
        } else {
            a
        };
        let b2: int = if b < y {
            b + 1
        } else if b > y {
            b - 1
        } else {
            b
        };
        assert(pre.in_bounds(a2, b2));
        lemma_empty_spread(pre, post, x, y, a2, b2, d - 1);
        lemma_index_bounds(pre.width(), pre.height(), a2, b2);
        assert(adjacent(a2, b2, a, b));
        assert(pre.cell(a2, b2).field_status == FieldStatus::Unrevealed);
        assert(post.cell(a2, b2).field_type == FieldType::Empty);
        assert(post.neighbors_revealed(a2, b2));
        assert(post.cell(a, b).field_status == FieldStatus::Revealed);
    }
}

/// Full flood on an empty field: one reveal anywhere on a board whose
/// cells are all empty and all hidden leaves every cell revealed.
pub proof fn lemma_reveal_fills_empty_board(pre: Game, post: Game, x: int, y: int)
    requires
        pre.wf(),
        pre.game_status == GameStatus::Playing,
        pre.in_bounds(x, y),
        forall|i: int|
            0 <= i < pre.cells().len() ==> (#[trigger] pre.cells()[i]).field_type
                == FieldType::Empty,
        forall|i: int|
            0 <= i < pre.cells().len() ==> (#[trigger] pre.cells()[i]).field_status
                == FieldStatus::Unrevealed,
        Game::reveal_post(pre, post, x, y),
    ensures
        forall|a: int, b: int|
            pre.in_bounds(a, b) ==> (#[trigger] post.cell(a, b)).field_status
                == FieldStatus::Revealed,
{
    lemma_index_bounds(pre.width(), pre.height(), x, y);
    assert(!is_mine(pre.cell(x, y)));
    assert(post.cell(x, y).field_status == FieldStatus::Revealed);
    let d = pre.width() + pre.height();
    assert forall|a: int, b: int|
        pre.in_bounds(a, b) implies (#[trigger] post.cell(a, b)).field_status
        == FieldStatus::Revealed by {
        lemma_empty_spread(pre, post, x, y, a, b, d);
    }
}

} // verus!
