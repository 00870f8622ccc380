//! What holds of every game: the general properties of the engine, each
//! proved from the model of push, spawn and undo.

use vstd::prelude::*;
use crate::board::{
    board_sum, board_tiles, empty_board, lemma_idle_push_gains_nothing, lemma_moved_leaves_room,
    lemma_pushed_board_sound,
    lemma_shifted_shape, lemma_with_origins, push_gain, pushed_board, sound_board, with_origins,
};
use crate::direction::Direction;
use crate::grid::rectangular;
use crate::model::{valid_size, GameView};
use crate::spawn::{has_free, is_free, lemma_landing_is_free, spawned, SPAWN_RETRIES};
use crate::sums::{lemma_placed, lemma_pushed_board_sum};
use crate::tiles::lemma_new_tiles_are_cell_values;

verus! {

/// An empty board has no tiles and sums to nothing.
pub proof fn lemma_empty_board(height: nat, width: nat)
    ensures
        board_tiles(empty_board(height, width)) == 0,
        board_sum(empty_board(height, width)) == 0,
    decreases height,
{
    if height > 0 {
        lemma_empty_board((height - 1) as nat, width);
        assert(empty_board(height, width).drop_last() =~= empty_board(
            (height - 1) as nat,
            width,
        ));
        lemma_empty_line(width);
        assert(empty_board(height, width).last() =~= Seq::new(width, |j: int| 0u64));
    }
}

/// A row of empty cells has no tiles and sums to nothing.
proof fn lemma_empty_line(width: nat)
    ensures
        crate::board::line_tiles(Seq::new(width, |j: int| 0u64)) == 0,
        crate::board::line_sum(Seq::new(width, |j: int| 0u64)) == 0,
    decreases width,
{
    if width > 0 {
        lemma_empty_line((width - 1) as nat);
        assert(Seq::new(width, |j: int| 0u64).drop_last() =~= Seq::new(
            (width - 1) as nat,
            |j: int| 0u64,
        ));
    }
}

/// A spawn on a well-formed game with an empty cell fills an empty cell with
/// a 2 or a 4 and leaves the game well-formed: one tile more, nothing else
/// changed but the generator.
pub proof fn lemma_spawn(game: GameView)
    requires
        game.wf(),
        has_free(game.board),
    ensures
        game.with_spawn().wf(),
        game.with_spawn().height() == game.height(),
        game.with_spawn().width() == game.width(),
        is_free(game.board, spawned(game.board, game.words).row, spawned(game.board, game.words).col),
        spawned(game.board, game.words).value == 2 || spawned(game.board, game.words).value == 4,
        board_tiles(game.with_spawn().board) == board_tiles(game.board) + 1,
        board_sum(game.with_spawn().board) == board_sum(game.board) + spawned(
            game.board,
            game.words,
        ).value,
{
    let spawn = spawned(game.board, game.words);
    lemma_landing_is_free(game.board, game.words, 0, SPAWN_RETRIES as nat);
    lemma_placed(game.board, spawn.row, spawn.col, spawn.value);
    lemma_new_tiles_are_cell_values();
    let after = game.with_spawn();
    assert(after.board.len() == game.board.len());
    assert forall|i: int| 0 <= i < after.board.len() implies (#[trigger] after.board[i]).len()
        == game.width() by {
        assert(game.board[i].len() == game.width());
    }
    assert(after.board[0].len() == game.board[0].len());
    assert forall|i: int, j: int|
        0 <= i < after.board.len() && 0 <= j < after.board[i].len() implies crate::tiles::is_cell_value(
        #[trigger] after.board[i][j],
    ) by {
        assert(crate::tiles::is_cell_value(game.board[i][j]));
    }
}

/// A new game of valid size is well-formed and has exactly two tiles, no
/// score and no history.
pub proof fn lemma_new_game(height: usize, width: usize, max_history: usize, seed: u64)
    requires
        valid_size(height as int),
        valid_size(width as int),
    ensures
        GameView::initial(height, width, max_history, seed).wf(),
        GameView::initial(height, width, max_history, seed).height() == height,
        GameView::initial(height, width, max_history, seed).width() == width,
        board_tiles(GameView::initial(height, width, max_history, seed).board) == 2,
        GameView::initial(height, width, max_history, seed).score == 0,
        GameView::initial(height, width, max_history, seed).history.len() == 0,
        GameView::initial(height, width, max_history, seed).max_history == max_history,
        GameView::initial(height, width, max_history, seed).seed == seed,
{
    let blank = GameView::blank(height, width, max_history, seed);
    lemma_empty_board(height as nat, width as nat);
    assert(is_free(blank.board, 0, 0));
    lemma_spawn(blank);
    let first = blank.with_spawn();
    let spawn = spawned(blank.board, blank.words);
    assert(is_free(first.board, 0, 0) || is_free(first.board, 0, 1)) by {
        if spawn.row == 0 && spawn.col == 0 {
            assert(first.board[0][1] == blank.board[0][1]);
        } else {
            assert(first.board[0][0] == blank.board[0][0]);
        }
    }
    lemma_spawn(first);
}

/// A push leaves a well-formed game well-formed, of the same size.
pub proof fn lemma_pushed_wf(game: GameView, direction: Direction)
    requires
        game.wf(),
        game.fits(direction),
    ensures
        game.pushed(direction).wf(),
        game.pushed(direction).height() == game.height(),
        game.pushed(direction).width() == game.width(),
        game.pushed(direction).max_history == game.max_history,
{
    if game.moves(direction) {
        let shifted = game.shifted(direction);
        lemma_with_origins(game.board, game.height(), game.width());
        lemma_shifted_shape(with_origins(game.board), direction, game.height(), game.width());
        lemma_moved_leaves_room(game.board, direction, game.height(), game.width());
        lemma_pushed_board_sound(game.board, direction, game.height(), game.width());
        assert(shifted.board[0].len() == game.width());
        assert(shifted.wf()) by {
            assert forall|k: int| 0 <= k < shifted.history.len() implies rectangular(
                (#[trigger] shifted.history[k]).board,
                game.height(),
                game.width(),
            ) && sound_board(shifted.history[k].board) by {
                if game.max_history > 0 {
                    if k > 0 {
                        assert(shifted.history[k] == game.history[k - 1]);
                    }
                }
            }
        }
        lemma_spawn(shifted);
    }
}

/// An undo leaves a well-formed game well-formed, of the same size.
pub proof fn lemma_undone_wf(game: GameView)
    requires
        game.wf(),
    ensures
        game.undone().wf(),
        game.undone().height() == game.height(),
        game.undone().width() == game.width(),
        game.undone().max_history == game.max_history,
{
    if game.can_undo() {
        let back = game.undone();
        assert(rectangular(game.history[0].board, game.height(), game.width()));
        assert(back.board[0].len() == game.width());
        assert forall|k: int| 0 <= k < back.history.len() implies rectangular(
            (#[trigger] back.history[k]).board,
            game.height(),
            game.width(),
        ) && sound_board(back.history[k].board) by {
            assert(back.history[k] == game.history[k + 1]);
        }
    }
}

/// The score never goes down in a push.
pub proof fn lemma_score_grows(game: GameView, direction: Direction)
    requires
        game.fits(direction),
    ensures
        game.pushed(direction).score >= game.score,
        game.pushed(direction).score == game.score + if game.moves(direction) {
            push_gain(game.board, direction)
        } else {
            0
        },
{
}

/// Over any sequence of pushes the score never goes down: after more of the
/// pushes it is at least what it was after fewer.
pub proof fn lemma_score_never_drops(game: GameView, moves: Seq<Direction>, fewer: int, more: int)
    requires
        game.all_fit(moves),
        0 <= fewer <= more <= moves.len(),
    ensures
        game.played(moves.take(fewer)).score <= game.played(moves.take(more)).score,
    decreases more - fewer,
{
    if fewer < more {
        lemma_score_never_drops(game, moves, fewer, more - 1);
        let before = game.played(moves.take(more - 1));
        assert(moves.take(more).drop_last() =~= moves.take(more - 1));
        assert(moves.take(more).last() == moves[more - 1]);
        assert(before.fits(moves[more - 1]));
        lemma_score_grows(before, moves[more - 1]);
    }
}

/// A push that moves tiles adds to the board exactly the value of the tile
/// it spawns: sliding and merging leave the sum of the board as it is.
pub proof fn lemma_push_adds_the_spawn(game: GameView, direction: Direction)
    requires
        game.wf(),
        game.fits(direction),
        game.moves(direction),
    ensures
        board_sum(pushed_board(game.board, direction)) == board_sum(game.board),
        board_sum(game.pushed(direction).board) == board_sum(game.board) + game.outcome(
            direction,
        ).unwrap().spawned_value,
{
    lemma_pushed_board_sum(game.board, direction, game.height(), game.width());
    lemma_pushed_wf(game, direction);
    let shifted = game.shifted(direction);
    lemma_with_origins(game.board, game.height(), game.width());
    lemma_shifted_shape(with_origins(game.board), direction, game.height(), game.width());
    lemma_moved_leaves_room(game.board, direction, game.height(), game.width());
    let spawn = spawned(shifted.board, shifted.words);
    lemma_landing_is_free(shifted.board, shifted.words, 0, SPAWN_RETRIES as nat);
    lemma_placed(shifted.board, spawn.row, spawn.col, spawn.value);
}

/// What a push adds to the board: the value of the tile it spawns, nothing
/// if it moves nothing.
pub open spec fn spawned_value(game: GameView, direction: Direction) -> u64 {
    match game.outcome(direction) {
        Some(outcome) => outcome.spawned_value,
        None => 0,
    }
}

/// In a push that merges nothing, the sum of the board grows by the value of
/// the spawned tile plus the value of the merged tiles, which is none. (A
/// push that merges leaves the sum of the board to the spawn alone: the
/// merged tile is worth the two that it is made of.)
pub proof fn lemma_push_sum_without_merge(game: GameView, direction: Direction)
    requires
        game.wf(),
        push_gain(game.board, direction) == 0,
    ensures
        board_sum(game.pushed(direction).board) == board_sum(game.board) + spawned_value(
            game,
            direction,
        ) + push_gain(game.board, direction),
{
    if game.moves(direction) {
        lemma_push_adds_the_spawn(game, direction);
    }
}

/// A push that moves nothing changes nothing and adds nothing to the score,
/// and so does the same push made again: board, score, generator and
/// history stay as they are.
pub proof fn lemma_idle_push(game: GameView, direction: Direction)
    requires
        game.wf(),
        game.fits(direction),
        !game.moves(direction),
    ensures
        game.pushed(direction) == game,
        game.outcome(direction) is None,
        push_gain(game.board, direction) == 0,
        game.pushed(direction).pushed(direction) == game,
        game.pushed(direction).outcome(direction) is None,
{
    lemma_idle_push_gains_nothing(game.board, direction, game.height(), game.width());
}

/// An undo right after a push that moved tiles, in a game that keeps
/// history, restores the board, the score and the words that the generator
/// will hand out; the same push made again then gives the same game and
/// the same report as the first time.
pub proof fn lemma_undo_restores(game: GameView, direction: Direction)
    requires
        game.wf(),
        game.max_history > 0,
        game.moves(direction),
    ensures
        game.pushed(direction).can_undo(),
        game.pushed(direction).undone().board == game.board,
        game.pushed(direction).undone().score == game.score,
        game.pushed(direction).undone().words == game.words,
        game.pushed(direction).undone().pushed(direction) == game.pushed(direction),
        game.pushed(direction).undone().outcome(direction) == game.outcome(direction),
{
    let after = game.pushed(direction);
    let back = after.undone();
    assert(after.history == game.recorded(direction));
    assert(after.history[0] == game.snapshot(direction));
    if game.history.len() >= game.max_history {
        assert(back.history =~= game.history.drop_last());
    } else {
        assert(back.history =~= game.history);
    }
    assert(back.recorded(direction) =~= game.recorded(direction));
    assert(back.shifted(direction) == game.shifted(direction));
}

/// The history after a push: one state longer if the push moved tiles and
/// the history was not full, else as long as before. It never holds more
/// than `max_history` states.
pub proof fn lemma_history_after_push(game: GameView, direction: Direction)
    requires
        game.history.len() <= game.max_history,
    ensures
        game.pushed(direction).max_history == game.max_history,
        game.pushed(direction).history.len() == if game.moves(direction) && game.history.len()
            < game.max_history {
            game.history.len() + 1
        } else {
            game.history.len()
        },
{
}

/// After a sequence of pushes the history holds as many states as pushes
/// moved tiles, on top of what it held, up to its bound.
pub proof fn lemma_history_after_pushes(game: GameView, moves: Seq<Direction>)
    requires
        game.history.len() <= game.max_history,
    ensures
        game.played(moves).max_history == game.max_history,
        game.played(moves).history.len() == if game.history.len() + game.successes(moves)
            <= game.max_history {
            game.history.len() + game.successes(moves)
        } else {
            game.max_history as nat
        },
    decreases moves.len(),
{
    if moves.len() > 0 {
        lemma_history_after_pushes(game, moves.drop_last());
        lemma_history_after_push(game.played(moves.drop_last()), moves.last());
    }
}

/// Each undo that has a state to go back to shortens the history by one.
pub proof fn lemma_history_after_undos(game: GameView, n: nat)
    requires
        n <= game.history.len(),
    ensures
        game.undone_times(n).history.len() == game.history.len() - n,
    decreases n,
{
    if n > 0 {
        lemma_history_after_undos(game, (n - 1) as nat);
    }
}

/// After at least `max_history` pushes that moved tiles, exactly
/// `max_history` undos in a row succeed, and the next one does not.
pub proof fn lemma_bounded_history(game: GameView, moves: Seq<Direction>)
    requires
        game.history.len() <= game.max_history,
        game.successes(moves) >= game.max_history,
    ensures
        forall|n: nat|
            n < game.max_history ==> (#[trigger] game.played(moves).undone_times(n)).can_undo(),
        !game.played(moves).undone_times(game.max_history as nat).can_undo(),
{
    let after = game.played(moves);
    lemma_history_after_pushes(game, moves);
    assert forall|n: nat| n < game.max_history implies (#[trigger] after.undone_times(
        n,
    )).can_undo() by {
        lemma_history_after_undos(after, n);
    }
    lemma_history_after_undos(after, game.max_history as nat);
}

} // verus!
