//! The mathematical model of a game: what a game is worth to its contracts,
//! and what a push and an undo make of it.

use vstd::prelude::*;
use crate::board::{empty_board, push_gain, push_transitions, pushed_board, sound_board};
use crate::direction::Direction;
use crate::generator::{seeded_stream, skipped};
use crate::grid::rectangular;
use crate::pair::Pair;
use crate::spawn::{placed, spawned};

verus! {

/// The smallest height and width of a board.
pub const MIN_SIZE: usize = 3;

/// The height and width of the default board.
pub const DEFAULT_SIZE: usize = 4;

/// The largest height and width of a board.
pub const MAX_SIZE: usize = 10;

/// Whether `size` is a height or width that a board can have.
pub open spec fn valid_size(size: int) -> bool {
    MIN_SIZE <= size <= MAX_SIZE
}

/// A state kept for undo: the board, the score and the generator's words as
/// they were before a push, and the direction of that push.
pub struct Snapshot {
    pub board: Seq<Seq<u64>>,
    pub score: u64,
    pub words: spec_fn(nat) -> u32,
    pub direction: Direction,
}

/// What a successful push reports.
pub struct Outcome {
    pub transitions: Seq<Seq<Pair>>,
    pub spawned_row: usize,
    pub spawned_col: usize,
    pub spawned_value: u64,
    pub new_score: u64,
}

/// The model of a game.
pub struct GameView {
    /// The values on the board, row by row; 0 is an empty cell.
    pub board: Seq<Seq<u64>>,
    pub score: u64,
    /// The words that the generator will hand out, by draw.
    pub words: spec_fn(nat) -> u32,
    /// The states kept for undo, the most recent first.
    pub history: Seq<Snapshot>,
    pub max_history: usize,
    pub seed: u64,
}

impl GameView {
    pub open spec fn height(self) -> nat {
        self.board.len()
    }

    pub open spec fn width(self) -> nat {
        crate::grid::width_of(self.board)
    }

    /// The board is a rectangle of valid size whose cells hold nothing or a
    /// power of two from 2 on, the history is within its bound, and every
    /// state in it holds such a board of the same shape.
    pub open spec fn wf(self) -> bool {
        &&& valid_size(self.height() as int)
        &&& valid_size(self.width() as int)
        &&& rectangular(self.board, self.height(), self.width())
        &&& sound_board(self.board)
        &&& self.history.len() <= self.max_history
        &&& forall|k: int|
            0 <= k < self.history.len() ==> {
                &&& rectangular((#[trigger] self.history[k]).board, self.height(), self.width())
                &&& sound_board(self.history[k].board)
            }
    }

    /// Whether a push in `direction` changes the board.
    pub open spec fn moves(self, direction: Direction) -> bool {
        pushed_board(self.board, direction) != self.board
    }

    /// Whether the score after a push in `direction` fits its type.
    pub open spec fn fits(self, direction: Direction) -> bool {
        self.score + push_gain(self.board, direction) <= u64::MAX
    }

    /// The game after a tile was spawned.
    pub open spec fn with_spawn(self) -> GameView {
        let spawn = spawned(self.board, self.words);
        GameView {
            board: placed(self.board, spawn.row, spawn.col, spawn.value),
            score: self.score,
            words: skipped(self.words, spawn.used),
            history: self.history,
            max_history: self.max_history,
            seed: self.seed,
        }
    }

    /// The state that a push in `direction` keeps for undo.
    pub open spec fn snapshot(self, direction: Direction) -> Snapshot {
        Snapshot { board: self.board, score: self.score, words: self.words, direction }
    }

    /// The history after a successful push in `direction`: the state before
    /// the push comes first, and the oldest state leaves if the history was
    /// full. With `max_history == 0` nothing is kept.
    pub open spec fn recorded(self, direction: Direction) -> Seq<Snapshot> {
        if self.max_history == 0 {
            self.history
        } else if self.history.len() >= self.max_history {
            seq![self.snapshot(direction)] + self.history.drop_last()
        } else {
            seq![self.snapshot(direction)] + self.history
        }
    }

    /// The game after its tiles were pushed and merged, before the spawn.
    pub open spec fn shifted(self, direction: Direction) -> GameView {
        GameView {
            board: pushed_board(self.board, direction),
            score: (self.score + push_gain(self.board, direction)) as u64,
            words: self.words,
            history: self.recorded(direction),
            max_history: self.max_history,
            seed: self.seed,
        }
    }

    /// The game after a push in `direction`: unchanged if the push moves
    /// nothing, else shifted, with a new tile.
    pub open spec fn pushed(self, direction: Direction) -> GameView {
        if self.moves(direction) {
            self.shifted(direction).with_spawn()
        } else {
            self
        }
    }

    /// What a push in `direction` reports: nothing if it moves nothing.
    pub open spec fn outcome(self, direction: Direction) -> Option<Outcome> {
        if self.moves(direction) {
            let spawn = spawned(pushed_board(self.board, direction), self.words);
            Some(
                Outcome {
                    transitions: push_transitions(self.board, direction),
                    spawned_row: spawn.row as usize,
                    spawned_col: spawn.col as usize,
                    spawned_value: spawn.value,
                    new_score: (self.score + push_gain(self.board, direction)) as u64,
                },
            )
        } else {
            None
        }
    }

    /// Whether there is a state to go back to.
    pub open spec fn can_undo(self) -> bool {
        self.history.len() > 0
    }

    /// The game after an undo: unchanged if the history is empty, else back
    /// at the most recent state kept, which leaves the history.
    pub open spec fn undone(self) -> GameView {
        if self.can_undo() {
            GameView {
                board: self.history[0].board,
                score: self.history[0].score,
                words: self.history[0].words,
                history: self.history.skip(1),
                max_history: self.max_history,
                seed: self.seed,
            }
        } else {
            self
        }
    }

    /// The game after the pushes in `moves`, made in order.
    pub open spec fn played(self, moves: Seq<Direction>) -> GameView
        decreases moves.len(),
    {
        if moves.len() == 0 {
            self
        } else {
            self.played(moves.drop_last()).pushed(moves.last())
        }
    }

    /// How many of the pushes in `moves`, made in order, change the board.
    pub open spec fn successes(self, moves: Seq<Direction>) -> nat
        decreases moves.len(),
    {
        if moves.len() == 0 {
            0
        } else {
            self.successes(moves.drop_last()) + if self.played(moves.drop_last()).moves(
                moves.last(),
            ) {
                1nat
            } else {
                0nat
            }
        }
    }

    /// Whether the score fits its type at every push in `moves`, made in order.
    pub open spec fn all_fit(self, moves: Seq<Direction>) -> bool {
        forall|k: int|
            0 <= k < moves.len() ==> (#[trigger] self.played(moves.take(k))).fits(moves[k])
    }

    /// The game after `n` undos in a row.
    pub open spec fn undone_times(self, n: nat) -> GameView
        decreases n,
    {
        if n == 0 {
            self
        } else {
            self.undone_times((n - 1) as nat).undone()
        }
    }

    /// The game before its first tiles: an empty board and a fresh generator.
    pub open spec fn blank(height: usize, width: usize, max_history: usize, seed: u64) -> GameView {
        GameView {
            board: empty_board(height as nat, width as nat),
            score: 0,
            words: seeded_stream(seed),
            history: Seq::empty(),
            max_history,
            seed,
        }
    }

    /// A new game: an empty board on which two tiles were spawned.
    pub open spec fn initial(height: usize, width: usize, max_history: usize, seed: u64) -> GameView {
        GameView::blank(height, width, max_history, seed).with_spawn().with_spawn()
    }
}

} // verus!
