//! The game: a board, a score, a seeded generator and a bounded history.

use std::collections::VecDeque;
use vstd::prelude::*;
use rand::rngs::StdRng;
use crate::board::{
    board_sum, board_tiles, empty_board, grid_gain, lemma_grid_gain_prefix,
    lemma_moved_leaves_room, lemma_normalized_shape, lemma_pushed_board_sound,
    lemma_pushed_left_shape, lemma_shifted_shape, lemma_with_origins, sound_board,
    merged_all, normalized, pushed_left, reported, restored, slid_all, tidy_all, transitions,
    turned_height, turned_width, values, with_origins,
};
use crate::direction::Direction;
use crate::generator::{draw_word, entropy_seed, seeded_rng, stream, upcoming_word};
use crate::grid::{rectangular, reverse, rows, transpose};
use crate::model::{valid_size, GameView, Outcome, Snapshot, MAX_SIZE, MIN_SIZE};
use crate::pair::Pair;
use crate::spawn::{
    has_free, is_first_free, is_free, landing, lemma_first_free_unique, probe, reads_before,
    spawned, SPAWN_RETRIES,
};
use crate::tiles::{merge_row, slide_row, Tile};

verus! {

/// A game: the board, the score, the generator that places new tiles, and
/// the states to which `undo` goes back.
#[derive(Debug)]
pub struct Game {
    score: u64,
    board: Vec<Vec<u64>>,
    history: VecDeque<History>,
    max_history: usize,
    rng: StdRng,
    seed: u64,
}

/// The state of a game before a push, kept for undo.
#[derive(Debug)]
struct History {
    score: u64,
    board: Vec<Vec<u64>>,
    rng: StdRng,
    direction: Direction,
}

/// What a successful push reports: for every cell the cells that its tile
/// came from, the cell and value of the new tile, and the score.
#[derive(Debug, PartialEq, Eq)]
pub struct PushResult {
    pub transitions: Vec<Vec<Pair>>,
    pub spawned_row: usize,
    pub spawned_col: usize,
    pub spawned_value: u64,
    pub new_score: u64,
}

impl View for PushResult {
    type V = Outcome;

    open spec fn view(&self) -> Outcome {
        Outcome {
            transitions: rows(self.transitions@),
            spawned_row: self.spawned_row,
            spawned_col: self.spawned_col,
            spawned_value: self.spawned_value,
            new_score: self.new_score,
        }
    }
}

impl View for History {
    type V = Snapshot;

    closed spec fn view(&self) -> Snapshot {
        Snapshot {
            board: rows(self.board@),
            score: self.score,
            words: stream(self.rng),
            direction: self.direction,
        }
    }
}

impl View for Game {
    type V = GameView;

    closed spec fn view(&self) -> GameView {
        GameView {
            board: rows(self.board@),
            score: self.score,
            words: stream(self.rng),
            history: Seq::new(self.history@.len(), |k: int| self.history@[k]@),
            max_history: self.max_history,
            seed: self.seed,
        }
    }
}

impl History {
    /// The state of `game` with the generator `rng`, before a push in `direction`.
    fn new(game: &Game, rng: StdRng, direction: Direction) -> (state: History)
        ensures
            state@ == (Snapshot {
                board: game@.board,
                score: game@.score,
                words: stream(rng),
                direction,
            }),
    {
        History { score: game.score, board: copy_board(&game.board), rng, direction }
    }
}

/// A board of `height` rows and `width` columns without tiles.
fn zero_board(height: usize, width: usize) -> (board: Vec<Vec<u64>>)
    ensures
        rows(board@) == empty_board(height as nat, width as nat),
{
    let mut board: Vec<Vec<u64>> = Vec::new();
    let mut i: usize = 0;
    while i < height
        invariant
            i <= height,
            board@.len() == i,
            forall|k: int| 0 <= k < i ==> (#[trigger] board@[k])@ == Seq::new(width as nat, |j: int| 0u64),
        decreases height - i,
    {
        let mut line: Vec<u64> = Vec::new();
        let mut j: usize = 0;
        while j < width
            invariant
                j <= width,
                line@.len() == j,
                forall|k: int| 0 <= k < j ==> #[trigger] line@[k] == 0u64,
            decreases width - j,
        {
            line.push(0);
            j += 1;
        }
        assert(line@ =~= Seq::new(width as nat, |j: int| 0u64));
        board.push(line);
        i += 1;
    }
    assert(rows(board@) =~= empty_board(height as nat, width as nat));
    board
}

/// The first empty cell of a board in reading order.
fn first_empty(board: &Vec<Vec<u64>>) -> (cell: (usize, usize))
    requires
        has_free(rows(board@)),
    ensures
        is_first_free(rows(board@), cell.0 as int, cell.1 as int),
{
    let ghost model = rows(board@);
    let mut i: usize = 0;
    while i < board.len()
        invariant
            i <= board@.len(),
            model == rows(board@),
            forall|a: int, b: int| reads_before(a, b, i as int, 0) ==> !is_free(model, a, b),
        decreases board@.len() - i,
    {
        let mut j: usize = 0;
        while j < board[i].len()
            invariant
                i < board@.len(),
                j <= board@[i as int]@.len(),
                model == rows(board@),
                forall|a: int, b: int| reads_before(a, b, i as int, j as int) ==> !is_free(model, a, b),
            decreases board@[i as int]@.len() - j,
        {
            if board[i][j] == 0 {
                return (i, j);
            }
            j += 1;
        }
        i += 1;
    }
    proof {
        // Not reached: the empty cell that the board has would have been found.
        let (a, b) = choose|a: int, b: int| is_free(model, a, b);
        assert(reads_before(a, b, i as int, 0));
        assert(false);
    }
    (0, 0)
}

/// Copies a board.
fn copy_board(board: &Vec<Vec<u64>>) -> (copy: Vec<Vec<u64>>)
    ensures
        rows(copy@) == rows(board@),
{
    let mut copy: Vec<Vec<u64>> = Vec::new();
    let mut i: usize = 0;
    while i < board.len()
        invariant
            i <= board@.len(),
            copy@.len() == i,
            forall|k: int| 0 <= k < i ==> (#[trigger] copy@[k])@ == board@[k]@,
        decreases board@.len() - i,
    {
        let mut line: Vec<u64> = Vec::new();
        let mut j: usize = 0;
        while j < board[i].len()
            invariant
                i < board@.len(),
                j <= board@[i as int]@.len(),
                line@.len() == j,
                forall|k: int| 0 <= k < j ==> #[trigger] line@[k] == board@[i as int]@[k],
            decreases board@[i as int]@.len() - j,
        {
            line.push(board[i][j]);
            j += 1;
        }
        assert(line@ =~= board@[i as int]@);
        copy.push(line);
        i += 1;
    }
    assert(rows(copy@) =~= rows(board@));
    copy
}

/// Whether two boards hold the same values.
fn same_board(left: &Vec<Vec<u64>>, right: &Vec<Vec<u64>>) -> (same: bool)
    ensures
        same == (rows(left@) == rows(right@)),
{
    if left.len() != right.len() {
        return false;
    }
    let mut i: usize = 0;
    while i < left.len()
        invariant
            left@.len() == right@.len(),
            i <= left@.len(),
            forall|k: int| 0 <= k < i ==> (#[trigger] left@[k])@ == right@[k]@,
        decreases left@.len() - i,
    {
        if left[i].len() != right[i].len() {
            assert(rows(left@)[i as int].len() != rows(right@)[i as int].len());
            return false;
        }
        let mut j: usize = 0;
        while j < left[i].len()
            invariant
                i < left@.len(),
                left@.len() == right@.len(),
                left@[i as int]@.len() == right@[i as int]@.len(),
                j <= left@[i as int]@.len(),
                forall|k: int| 0 <= k < j ==> #[trigger] left@[i as int]@[k] == right@[i as int]@[k],
            decreases left@[i as int]@.len() - j,
        {
            if left[i][j] != right[i][j] {
                assert(rows(left@)[i as int][j as int] != rows(right@)[i as int][j as int]);
                return false;
            }
            j += 1;
        }
        assert(left@[i as int]@ =~= right@[i as int]@);
        i += 1;
    }
    assert(rows(left@) =~= rows(right@));
    true
}

/// The board as a grid of tiles, each tile with its own coordinate as origin.
fn trace(board: &Vec<Vec<u64>>) -> (grid: Vec<Vec<Tile>>)
    ensures
        rows(grid@) == with_origins(rows(board@)),
{
    let ghost model = with_origins(rows(board@));
    let mut grid: Vec<Vec<Tile>> = Vec::new();
    let mut i: usize = 0;
    while i < board.len()
        invariant
            i <= board@.len(),
            grid@.len() == i,
            model == with_origins(rows(board@)),
            forall|k: int| 0 <= k < i ==> (#[trigger] grid@[k])@ == model[k],
        decreases board@.len() - i,
    {
        let mut line: Vec<Tile> = Vec::new();
        let mut j: usize = 0;
        while j < board[i].len()
            invariant
                i < board@.len(),
                j <= board@[i as int]@.len(),
                line@.len() == j,
                model == with_origins(rows(board@)),
                forall|k: int| 0 <= k < j ==> #[trigger] line@[k] == model[i as int][k],
            decreases board@[i as int]@.len() - j,
        {
            let value = board[i][j];
            let mut origin = Pair::default();
            if value != 0 {
                origin.push((i, j));
            }
            line.push(Tile { value, origin });
            j += 1;
        }
        assert(line@ =~= model[i as int]);
        grid.push(line);
        i += 1;
    }
    assert(rows(grid@) =~= model);
    grid
}

/// The values of a grid of tiles, and the origins to report for each cell.
fn settle(grid: &Vec<Vec<Tile>>) -> (parts: (Vec<Vec<u64>>, Vec<Vec<Pair>>))
    ensures
        rows(parts.0@) == values(rows(grid@)),
        rows(parts.1@) == transitions(rows(grid@)),
{
    let ghost model = rows(grid@);
    let mut board: Vec<Vec<u64>> = Vec::new();
    let mut moves: Vec<Vec<Pair>> = Vec::new();
    let mut i: usize = 0;
    while i < grid.len()
        invariant
            i <= grid@.len(),
            board@.len() == i,
            moves@.len() == i,
            model == rows(grid@),
            forall|k: int| 0 <= k < i ==> (#[trigger] board@[k])@ == values(model)[k],
            forall|k: int| 0 <= k < i ==> (#[trigger] moves@[k])@ == transitions(model)[k],
        decreases grid@.len() - i,
    {
        let mut line: Vec<u64> = Vec::new();
        let mut origins: Vec<Pair> = Vec::new();
        let mut j: usize = 0;
        while j < grid[i].len()
            invariant
                i < grid@.len(),
                j <= grid@[i as int]@.len(),
                line@.len() == j,
                origins@.len() == j,
                model == rows(grid@),
                forall|k: int| 0 <= k < j ==> #[trigger] line@[k] == model[i as int][k].value,
                forall|k: int|
                    0 <= k < j ==> #[trigger] origins@[k] == reported(
                        model[i as int][k].origin,
                        i as int,
                        k,
                    ),
            decreases grid@[i as int]@.len() - j,
        {
            let tile = grid[i][j];
            let mut origin = tile.origin;
            let stayed = match (origin.first, origin.second) {
                (Some(coord), None) => coord.0 == i && coord.1 == j,
                _ => false,
            };
            if stayed {
                origin.pop();
            }
            line.push(tile.value);
            origins.push(origin);
            j += 1;
        }
        assert(line@ =~= values(model)[i as int]);
        assert(origins@ =~= transitions(model)[i as int]);
        board.push(line);
        moves.push(origins);
        i += 1;
    }
    assert(rows(board@) =~= values(model));
    assert(rows(moves@) =~= transitions(model));
    (board, moves)
}

/// Brings the grid into the position in which a push in `direction` is the
/// push to the left.
fn normalize(grid: &mut Vec<Vec<Tile>>, direction: Direction)
    requires
        old(grid)@.len() > 0,
        rectangular(rows(old(grid)@), old(grid)@.len(), old(grid)@[0]@.len()),
    ensures
        rows(final(grid)@) == normalized(rows(old(grid)@), direction),
{
    match direction {
        Direction::L => {},
        Direction::R => {
            reverse(grid.as_mut_slice());
        },
        Direction::U => {
            transpose(grid);
        },
        Direction::D => {
            transpose(grid);
            reverse(grid.as_mut_slice());
        },
    }
}

/// Brings a normalized grid back into the position of the board.
fn restore(grid: &mut Vec<Vec<Tile>>, direction: Direction)
    requires
        old(grid)@.len() > 0,
        rectangular(rows(old(grid)@), old(grid)@.len(), old(grid)@[0]@.len()),
    ensures
        rows(final(grid)@) == restored(rows(old(grid)@), direction),
{
    match direction {
        Direction::L => {},
        Direction::R => {
            reverse(grid.as_mut_slice());
        },
        Direction::U => {
            transpose(grid);
        },
        Direction::D => {
            reverse(grid.as_mut_slice());
            proof {
                crate::grid::lemma_mirrored_shape(
                    rows(old(grid)@),
                    old(grid)@.len(),
                    old(grid)@[0]@.len(),
                );
                assert(rows(grid@)[0] == grid@[0]@);
            }
            transpose(grid);
        },
    }
}

impl Game {
    /// The board is a rectangle of valid size, the history is within its
    /// bound, and every state in it holds a board of the same shape.
    pub open spec fn wf(&self) -> bool {
        self@.wf()
    }

    /// Creates a game whose seed comes from the thread's entropy source.
    /// `None` if the height or the width is not between 3 and 10. Panics, as
    /// `rand::thread_rng` does, if the operating system cannot provide
    /// entropy.
    pub fn new(height: usize, width: usize, max_history: usize) -> (game: Option<Game>)
        ensures
            game is Some <==> valid_size(height as int) && valid_size(width as int),
            game matches Some(g) ==> g.wf() && g@ == GameView::initial(
                height,
                width,
                max_history,
                g@.seed,
            ),
            game matches Some(g) ==> g@.height() == height && g@.width() == width && board_tiles(
                g@.board,
            ) == 2,
    {
        Game::from_seed(height, width, max_history, entropy_seed())
    }

    /// Creates a game from a seed: an empty board on which two tiles are
    /// spawned. `None` if the height or the width is not between 3 and 10.
    /// `max_history` may be 0, which disables `undo`; the history grows only
    /// as pushes are made, whatever its bound.
    pub fn from_seed(height: usize, width: usize, max_history: usize, seed: u64) -> (game: Option<
        Game,
    >)
        ensures
            game is Some <==> valid_size(height as int) && valid_size(width as int),
            game matches Some(g) ==> g.wf() && g@ == GameView::initial(
                height,
                width,
                max_history,
                seed,
            ),
            game matches Some(g) ==> g@.height() == height && g@.width() == width && board_tiles(
                g@.board,
            ) == 2,
    {
        if width < MIN_SIZE || width > MAX_SIZE || height < MIN_SIZE || height > MAX_SIZE {
            None
        } else {
            let mut result = Game {
                score: 0,
                board: zero_board(height, width),
                history: VecDeque::new(),
                max_history,
                rng: seeded_rng(seed),
                seed,
            };
            proof {
                assert(result@.words =~= crate::generator::seeded_stream(seed));
                assert(result@.history =~= Seq::empty());
                assert(result@ == GameView::blank(height, width, max_history, seed));
                assert(is_free(result@.board, 0, 0));
            }
            result.spawn();
            proof {
                assert(is_free(result@.board, 0, 0) || is_free(result@.board, 0, 1));
            }
            result.spawn();
            proof {
                crate::laws::lemma_new_game(height, width, max_history, seed);
            }
            Some(result)
        }
    }

    /// Pushes the tiles in `direction`. Returns `None`, and changes nothing,
    /// if no tile moves or merges. Otherwise the tiles slide and merge, the
    /// value of every merged tile is added to the score, a new tile is
    /// spawned, and the state before the push is kept for undo (the oldest
    /// kept state leaves if the history is full).
    pub fn push(&mut self, direction: Direction) -> (result: Option<PushResult>)
        requires
            old(self).wf(),
            old(self)@.fits(direction),
        ensures
            final(self).wf(),
            final(self)@ == old(self)@.pushed(direction),
            result is Some <==> old(self)@.moves(direction),
            match result {
                Some(report) => old(self)@.outcome(direction) == Some(report@),
                None => old(self)@.outcome(direction) is None,
            },
            result is None ==> final(self)@ == old(self)@,
            final(self)@.score >= old(self)@.score,
            final(self)@.score == old(self)@.score + if old(self)@.moves(direction) {
                crate::board::push_gain(old(self)@.board, direction)
            } else {
                0
            },
            board_sum(final(self)@.board) == board_sum(old(self)@.board) + match result {
                Some(report) => report.spawned_value,
                None => 0,
            },
            result matches Some(report) ==> {
                &&& rectangular(report@.transitions, old(self)@.height(), old(self)@.width())
                &&& report.spawned_row < old(self)@.height()
                &&& report.spawned_col < old(self)@.width()
                &&& report.spawned_value == 2 || report.spawned_value == 4
                &&& final(self)@.board[report.spawned_row as int][report.spawned_col as int]
                    == report.spawned_value
                &&& report.new_score == final(self)@.score
            },
    {
        let ghost before_view = self@;
        let ghost height = self@.height();
        let ghost width = self@.width();
        let copy = self.rng.clone();
        let before = History::new(self, copy, direction);
        proof {
            assert(before@.words =~= before_view.words);
            assert(before@ == before_view.snapshot(direction));
        }
        let mut grid = trace(&self.board);
        proof {
            assert(rows(self.board@)[0] == self.board@[0]@);
            lemma_with_origins(before_view.board, height, width);
            assert(rows(grid@)[0] == grid@[0]@);
            lemma_normalized_shape(rows(grid@), direction, height, width);
        }
        let ghost start = normalized(rows(grid@), direction);
        normalize(&mut grid, direction);
        proof {
            lemma_pushed_left_shape(
                start,
                turned_height(direction, height, width),
                turned_width(direction, height, width),
            );
        }
        Game::move_left(&mut grid);
        let gained = Game::merge_left(&mut grid);
        proof {
            lemma_pushed_left_shape(
                slid_all(start),
                turned_height(direction, height, width),
                turned_width(direction, height, width),
            );
        }
        Game::move_left(&mut grid);
        proof {
            assert(rows(grid@) == pushed_left(start));
            assert(rows(grid@)[0] == grid@[0]@);
        }
        restore(&mut grid, direction);
        let (board, transitions) = settle(&grid);
        if same_board(&board, &self.board) {
            None
        } else {
            proof {
                lemma_shifted_shape(with_origins(before_view.board), direction, height, width);
                lemma_moved_leaves_room(before_view.board, direction, height, width);
                lemma_pushed_board_sound(before_view.board, direction, height, width);
                crate::laws::lemma_push_adds_the_spawn(before_view, direction);
                assert(rows(board@)[0] == board@[0]@);
            }
            self.board = board;
            self.score = self.score + gained;
            let (spawned_row, spawned_col, spawned_value) = self.spawn();
            if self.max_history > 0 {
                self.add_to_history(before);
            }
            proof {
                assert(self@.history =~= before_view.recorded(direction));
                assert(self@ == before_view.shifted(direction).with_spawn());
            }
            Some(
                PushResult {
                    transitions,
                    spawned_row,
                    spawned_col,
                    spawned_value,
                    new_score: self.score,
                },
            )
        }
    }

    /// Slides the tiles of every row to the left.
    fn move_left(grid: &mut Vec<Vec<Tile>>)
        requires
            tidy_all(rows(old(grid)@)),
        ensures
            rows(final(grid)@) == slid_all(rows(old(grid)@)),
            tidy_all(rows(final(grid)@)),
    {
        let ghost before = rows(grid@);
        let height = grid.len();
        let mut i: usize = 0;
        while i < height
            invariant
                i <= height,
                grid@.len() == height,
                before.len() == height,
                tidy_all(before),
                forall|k: int| 0 <= k < i ==> (#[trigger] grid@[k])@ == slid_all(before)[k],
                forall|k: int| 0 <= k < i ==> crate::tiles::tidy((#[trigger] grid@[k])@),
                forall|k: int| i <= k < height ==> (#[trigger] grid@[k])@ == before[k],
            decreases height - i,
        {
            assert(crate::tiles::tidy(before[i as int]));
            slide_row(&mut grid[i]);
            i += 1;
        }
        assert(rows(grid@) =~= slid_all(before));
    }

    /// Merges equal neighbours in every row, each row in one scan from the
    /// left, and returns the value of all merged tiles.
    fn merge_left(grid: &mut Vec<Vec<Tile>>) -> (gained: u64)
        requires
            tidy_all(rows(old(grid)@)),
            grid_gain(rows(old(grid)@)) <= u64::MAX,
        ensures
            rows(final(grid)@) == merged_all(rows(old(grid)@)),
            gained == grid_gain(rows(old(grid)@)),
            tidy_all(rows(final(grid)@)),
    {
        let ghost before = rows(grid@);
        let height = grid.len();
        let mut gained: u64 = 0;
        let mut i: usize = 0;
        assert(before.take(0) =~= Seq::<Seq<Tile>>::empty());
        while i < height
            invariant
                i <= height,
                grid@.len() == height,
                before.len() == height,
                tidy_all(before),
                grid_gain(before) <= u64::MAX,
                gained == grid_gain(before.take(i as int)),
                forall|k: int| 0 <= k < i ==> (#[trigger] grid@[k])@ == merged_all(before)[k],
                forall|k: int| 0 <= k < i ==> crate::tiles::tidy((#[trigger] grid@[k])@),
                forall|k: int| i <= k < height ==> (#[trigger] grid@[k])@ == before[k],
            decreases height - i,
        {
            proof {
                assert(crate::tiles::tidy(before[i as int]));
                assert(before.take(i + 1).drop_last() =~= before.take(i as int));
                assert(before.take(i + 1).last() == before[i as int]);
                lemma_grid_gain_prefix(before, i + 1);
            }
            merge_row(&mut grid[i], &mut gained);
            i += 1;
        }
        assert(before.take(height as int) =~= before);
        assert(rows(grid@) =~= merged_all(before));
        gained
    }

    /// Puts `state` in front of the history; the oldest state leaves first if
    /// the history is full.
    fn add_to_history(&mut self, state: History)
        requires
            old(self).wf(),
            old(self).max_history > 0,
            rectangular(state@.board, old(self)@.height(), old(self)@.width()),
            sound_board(state@.board),
        ensures
            final(self).wf(),
            final(self)@ == (GameView {
                history: if old(self)@.history.len() >= old(self)@.max_history {
                    seq![state@] + old(self)@.history.drop_last()
                } else {
                    seq![state@] + old(self)@.history
                },
                ..old(self)@
            }),
    {
        let ghost before = self@.history;
        if self.history.len() >= self.max_history {
            self.history.pop_back();
            assert(self@.history =~= before.drop_last());
        }
        let ghost kept = self@.history;
        self.history.push_front(state);
        assert(self@.history =~= seq![state@] + kept);
    }

    /// Goes back to the state before the most recent push that is still
    /// kept: board, score and generator are restored, and that state leaves
    /// the history. Returns `false`, and changes nothing, if no state is kept.
    pub fn undo(&mut self) -> (undone: bool)
        requires
            old(self).wf(),
        ensures
            final(self).wf(),
            undone == old(self)@.can_undo(),
            final(self)@ == old(self)@.undone(),
    {
        let ghost before = self@;
        if self.history.len() == 0 {
            false
        } else {
            let state = self.history.pop_front().unwrap();
            proof {
                assert(state@ == before.history[0]);
                assert(self@.history =~= before.history.skip(1));
            }
            self.board = state.board;
            self.score = state.score;
            self.rng = state.rng;
            proof {
                assert(self@.words =~= before.history[0].words);
                assert(self@.history =~= before.history.skip(1));
                assert(rows(self.board@)[0] == self.board@[0]@);
            }
            true
        }
    }

    /// Places a new tile on an empty cell: cells are drawn from the generator,
    /// row first and column second, until an empty one comes up; the value
    /// is drawn after the cell. Returns the row, the column and the value.
    fn spawn(&mut self) -> (tile: (usize, usize, u64))
        requires
            old(self).wf(),
            has_free(old(self)@.board),
        ensures
            final(self).wf(),
            final(self)@ == old(self)@.with_spawn(),
            tile.0 == spawned(old(self)@.board, old(self)@.words).row,
            tile.1 == spawned(old(self)@.board, old(self)@.words).col,
            tile.2 == spawned(old(self)@.board, old(self)@.words).value,
            tile.2 == 2 || tile.2 == 4,
            is_free(old(self)@.board, tile.0 as int, tile.1 as int),
    {
        let ghost before = self@;
        let ghost board = self@.board;
        let ghost words = self@.words;
        let height = self.board.len();
        let width = self.board[0].len();
        proof {
            assert(rows(self.board@)[0] == self.board@[0]@);
        }
        let mut i = draw_word(&mut self.rng) as usize % height;
        let mut j = draw_word(&mut self.rng) as usize % width;
        let mut retries: u64 = SPAWN_RETRIES;
        let ghost at: nat = 0;
        proof {
            assert(rows(self.board@)[i as int] == self.board@[i as int]@);
        }
        while self.board[i][j] != 0 && retries > 0
            invariant
                self.board == old(self).board,
                self.score == old(self).score,
                self.history == old(self).history,
                self.max_history == old(self).max_history,
                self.seed == old(self).seed,
                board == rows(self.board@),
                rectangular(board, height as nat, width as nat),
                height > 0,
                width > 0,
                i < height,
                j < width,
                (i as int, j as int) == probe(board, words, at),
                forall|k: nat| #[trigger] upcoming_word(self.rng, k) == words(k + at + 2),
                landing(board, words, at, retries as nat) == landing(
                    board,
                    words,
                    0,
                    SPAWN_RETRIES as nat,
                ),
            decreases retries,
        {
            proof {
                assert(board[i as int] == self.board@[i as int]@);
            }
            i = draw_word(&mut self.rng) as usize % height;
            j = draw_word(&mut self.rng) as usize % width;
            retries -= 1;
            proof {
                at = at + 2;
                assert(board[i as int] == self.board@[i as int]@);
            }
        }
        proof {
            assert(board[i as int] == self.board@[i as int]@);
        }
        if self.board[i][j] != 0 {
            let cell = first_empty(&self.board);
            proof {
                lemma_first_free_unique(board, cell.0 as int, cell.1 as int);
            }
            i = cell.0;
            j = cell.1;
        }
        let word = draw_word(&mut self.rng);
        let value: u64 = if word % 10 == 0 {
            4
        } else {
            2
        };
        proof {
            assert(board[i as int] == self.board@[i as int]@);
        }
        self.board[i][j] = value;
        proof {
            let spawn = spawned(board, words);
            assert(spawn.row == i && spawn.col == j);
            assert(spawn.used == at + 3);
            assert(self@.words =~= crate::generator::skipped(words, spawn.used));
            assert(self@.board =~= crate::spawn::placed(board, i as int, j as int, value)) by {
                assert forall|a: int| 0 <= a < height implies #[trigger] self@.board[a]
                    == crate::spawn::placed(board, i as int, j as int, value)[a] by {
                    assert(board[a] == old(self).board@[a]@);
                }
            }
            assert(self@.history =~= before.history);
            crate::laws::lemma_spawn(before);
        }
        (i, j, value)
    }

    /// Whether the score has room for whatever the next push may add: a push
    /// adds at most the sum of the board. Where this holds, a push in any
    /// direction may be made.
    pub fn score_fits(&self) -> (fits: bool)
        requires
            self.wf(),
        ensures
            fits == (self@.score + board_sum(self@.board) <= u64::MAX),
            fits ==> forall|direction: Direction| self@.fits(direction),
    {
        let ghost board = self@.board;
        let height = self.board.len();
        let mut total: u128 = self.score as u128;
        let mut i: usize = 0;
        assert(board.take(0) =~= Seq::<Seq<u64>>::empty());
        while i < height
            invariant
                i <= height,
                height == self.board@.len(),
                height <= MAX_SIZE,
                board == rows(self.board@),
                rectangular(board, height as nat, self@.width()),
                self@.width() <= MAX_SIZE,
                total == self.score + board_sum(board.take(i as int)),
                total <= (1 + i * MAX_SIZE) * u64::MAX,
            decreases height - i,
        {
            let width = self.board[i].len();
            let mut j: usize = 0;
            proof {
                assert(board[i as int] == self.board@[i as int]@);
                assert(board[i as int].take(0) =~= Seq::<u64>::empty());
            }
            let ghost start = total;
            while j < width
                invariant
                    i < height,
                    height == self.board@.len(),
                    height <= MAX_SIZE,
                    j <= width,
                    width == self.board@[i as int]@.len(),
                    width <= MAX_SIZE,
                    board[i as int] == self.board@[i as int]@,
                    total == start + crate::board::line_sum(board[i as int].take(j as int)),
                    start <= (1 + i * MAX_SIZE) * u64::MAX,
                    total <= (1 + i * MAX_SIZE + j) * u64::MAX,
                decreases width - j,
            {
                proof {
                    assert(board[i as int].take(j + 1).drop_last() =~= board[i as int].take(
                        j as int,
                    ));
                    assert((1 + i * MAX_SIZE + j) * u64::MAX + u64::MAX == (1 + i * MAX_SIZE + j + 1)
                        * u64::MAX) by (nonlinear_arith);
                    assert((1 + i * MAX_SIZE + j + 1) * u64::MAX <= 101 * u64::MAX) by (nonlinear_arith)
                        requires
                            i < 10,
                            j < 10,
                            MAX_SIZE == 10,
                    ;
                }
                total = total + self.board[i][j] as u128;
                j += 1;
            }
            proof {
                assert(board[i as int].take(width as int) =~= board[i as int]);
                assert(board.take(i + 1).drop_last() =~= board.take(i as int));
                assert((1 + i * MAX_SIZE + width) * u64::MAX <= (1 + (i + 1) * MAX_SIZE) * u64::MAX)
                    by (nonlinear_arith)
                    requires
                        width <= MAX_SIZE,
                ;
            }
            i += 1;
        }
        proof {
            assert(board.take(height as int) =~= board);
            assert forall|direction: Direction| total <= u64::MAX implies self@.fits(direction) by {
                crate::sums::lemma_push_gain_at_most_sum(
                    board,
                    direction,
                    self@.height(),
                    self@.width(),
                );
            }
        }
        total <= u64::MAX as u128
    }

    /// The score: the sum of the values of all tiles merged so far.
    pub fn score(&self) -> (score: u64)
        ensures
            score == self@.score,
    {
        self.score
    }

    /// The number of rows.
    pub fn height(&self) -> (height: usize)
        ensures
            height == self@.height(),
    {
        self.board.len()
    }

    /// The number of columns.
    pub fn width(&self) -> (width: usize)
        requires
            self.wf(),
        ensures
            width == self@.width(),
    {
        proof {
            assert(rows(self.board@)[0] == self.board@[0]@);
        }
        self.board[0].len()
    }

    /// The most states that are kept for undo.
    pub fn max_history(&self) -> (bound: usize)
        ensures
            bound == self@.max_history,
    {
        self.max_history
    }

    /// The board, row by row; 0 is an empty cell.
    pub fn board(&self) -> (board: &Vec<Vec<u64>>)
        ensures
            rows(board@) == self@.board,
    {
        &self.board
    }

    /// The directions of the pushes that can be undone, the most recent first.
    pub fn history(&self) -> (directions: Vec<Direction>)
        ensures
            directions@.len() == self@.history.len(),
            forall|k: int|
                0 <= k < directions@.len() ==> #[trigger] directions@[k] == self@.history[k].direction,
    {
        let mut directions: Vec<Direction> = Vec::new();
        let mut k: usize = 0;
        while k < self.history.len()
            invariant
                k <= self.history@.len(),
                directions@.len() == k,
                forall|n: int|
                    0 <= n < k ==> #[trigger] directions@[n] == self@.history[n].direction,
            decreases self.history@.len() - k,
        {
            directions.push(self.history[k].direction);
            k += 1;
        }
        directions
    }

    /// The value in row `i` and column `j`; 0 is an empty cell.
    pub fn get(&self, i: usize, j: usize) -> (value: u64)
        requires
            self.wf(),
            i < self@.height(),
            j < self@.width(),
        ensures
            value == self@.board[i as int][j as int],
    {
        proof {
            assert(rows(self.board@)[i as int] == self.board@[i as int]@);
        }
        self.board[i][j]
    }

    /// The seed that the game was created from.
    pub fn seed(&self) -> (seed: u64)
        ensures
            seed == self@.seed,
    {
        self.seed
    }
}

impl Clone for History {
    fn clone(&self) -> (copy: History)
        ensures
            copy@ == self@,
    {
        let copy = History {
            score: self.score,
            board: copy_board(&self.board),
            rng: self.rng.clone(),
            direction: self.direction,
        };
        assert(copy@.words =~= self@.words);
        copy
    }
}

impl Clone for Game {
    /// A second game in the same state: it has the same board, score and
    /// history, and its generator will hand out the same words.
    fn clone(&self) -> (copy: Game)
        ensures
            copy@ == self@,
    {
        let mut history: VecDeque<History> = VecDeque::new();
        let mut k: usize = 0;
        while k < self.history.len()
            invariant
                k <= self.history@.len(),
                history@.len() == k,
                forall|n: int| 0 <= n < k ==> (#[trigger] history@[n])@ == self.history@[n]@,
            decreases self.history@.len() - k,
        {
            history.push_back(self.history[k].clone());
            k += 1;
        }
        let copy = Game {
            score: self.score,
            board: copy_board(&self.board),
            history,
            max_history: self.max_history,
            rng: self.rng.clone(),
            seed: self.seed,
        };
        proof {
            assert(copy@.words =~= self@.words);
            assert(copy@.history =~= self@.history);
        }
        copy
    }
}

impl Default for Game {
    /// A game on a board of four rows and four columns that keeps one state
    /// for undo.
    fn default() -> (game: Game)
        ensures
            game.wf(),
            game@ == GameView::initial(4, 4, 1, game@.seed),
    {
        Game::new(4, 4, 1).unwrap()
    }
}

} // verus!
