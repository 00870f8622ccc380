//! Where a new tile appears and what it is worth, as a function of the board
//! and of the words that the generator hands out.

use vstd::prelude::*;

verus! {

/// How often an occupied cell is drawn again before the new tile goes to the
/// first empty cell in reading order instead. The bound is what lets a spawn
/// end whatever the generator hands out; no run of a game comes near it.
pub const SPAWN_RETRIES: u64 = 18_446_744_073_709_551_615;

/// What a spawn does: the cell it fills, the value it puts there and the
/// number of generator words it used.
pub struct Spawn {
    pub row: int,
    pub col: int,
    pub value: u64,
    pub used: nat,
}

/// Whether `(row, col)` is a cell of `board` that holds no tile.
pub open spec fn is_free(board: Seq<Seq<u64>>, row: int, col: int) -> bool {
    &&& 0 <= row < board.len()
    &&& 0 <= col < board[row].len()
    &&& board[row][col] == 0
}

/// Whether `board` has a cell without a tile.
pub open spec fn has_free(board: Seq<Seq<u64>>) -> bool {
    exists|row: int, col: int| is_free(board, row, col)
}

/// Whether `(row, col)` comes before `(other_row, other_col)` in reading order.
pub open spec fn reads_before(row: int, col: int, other_row: int, other_col: int) -> bool {
    row < other_row || (row == other_row && col < other_col)
}

/// Whether `(row, col)` is the first empty cell of `board` in reading order.
pub open spec fn is_first_free(board: Seq<Seq<u64>>, row: int, col: int) -> bool {
    &&& is_free(board, row, col)
    &&& forall|i: int, j: int| reads_before(i, j, row, col) ==> !is_free(board, i, j)
}

/// The first empty cell of `board` in reading order.
pub open spec fn first_free(board: Seq<Seq<u64>>) -> (int, int) {
    choose|cell: (int, int)| is_first_free(board, cell.0, cell.1)
}

/// The cell that the two words at `at` and `at + 1` select: the first picks
/// the row, the second the column.
pub open spec fn probe(board: Seq<Seq<u64>>, words: spec_fn(nat) -> u32, at: nat) -> (int, int) {
    (words(at) as int % board.len() as int, words(at + 1) as int % board[0].len() as int)
}

/// The cell that a spawn fills when it starts drawing at word `at` with
/// `retries` redraws left, and the position of the first word it has not
/// used. A cell is drawn; if it is occupied another is drawn, up to `retries`
/// times, after which the first empty cell in reading order is taken.
pub open spec fn landing(
    board: Seq<Seq<u64>>,
    words: spec_fn(nat) -> u32,
    at: nat,
    retries: nat,
) -> ((int, int), nat)
    decreases retries,
{
    let cell = probe(board, words, at);
    if board[cell.0][cell.1] == 0 {
        (cell, at + 2)
    } else if retries == 0 {
        (first_free(board), at + 2)
    } else {
        landing(board, words, at + 2, (retries - 1) as nat)
    }
}

/// The value of a new tile, from the word drawn for it: 4 for one word in
/// ten, else 2.
pub open spec fn spawn_value(word: u32) -> u64 {
    if word % 10 == 0 {
        4
    } else {
        2
    }
}

/// The spawn on `board` by a generator that hands out `words`: the cell is
/// drawn first, the value after it.
pub open spec fn spawned(board: Seq<Seq<u64>>, words: spec_fn(nat) -> u32) -> Spawn {
    let (cell, next) = landing(board, words, 0, SPAWN_RETRIES as nat);
    Spawn { row: cell.0, col: cell.1, value: spawn_value(words(next)), used: next + 1 }
}

/// The board with `value` written to the cell `(row, col)`.
pub open spec fn placed(board: Seq<Seq<u64>>, row: int, col: int, value: u64) -> Seq<Seq<u64>> {
    board.update(row, board[row].update(col, value))
}

/// There is at most one first empty cell.
pub proof fn lemma_first_free_unique(board: Seq<Seq<u64>>, row: int, col: int)
    requires
        is_first_free(board, row, col),
    ensures
        first_free(board) == (row, col),
{
    let cell = first_free(board);
    assert(is_first_free(board, (row, col).0, (row, col).1));
    assert(is_first_free(board, cell.0, cell.1));
    if cell != (row, col) {
        assert(reads_before(cell.0, cell.1, row, col) || reads_before(row, col, cell.0, cell.1));
    }
}

/// On a board with an empty cell and rows of equal positive length, a spawn
/// lands on an empty cell.
pub proof fn lemma_landing_is_free(
    board: Seq<Seq<u64>>,
    words: spec_fn(nat) -> u32,
    at: nat,
    retries: nat,
)
    requires
        board.len() > 0,
        board[0].len() > 0,
        forall|i: int| 0 <= i < board.len() ==> (#[trigger] board[i]).len() == board[0].len(),
        has_free(board),
    ensures
        is_free(board, landing(board, words, at, retries).0.0, landing(board, words, at, retries).0.1),
        landing(board, words, at, retries).1 >= at + 2,
    decreases retries,
{
    let cell = probe(board, words, at);
    if board[cell.0][cell.1] == 0 {
    } else if retries == 0 {
        lemma_first_free_exists(board);
    } else {
        lemma_landing_is_free(board, words, at + 2, (retries - 1) as nat);
    }
}

/// A board with an empty cell has a first empty cell.
pub proof fn lemma_first_free_exists(board: Seq<Seq<u64>>)
    requires
        has_free(board),
    ensures
        is_first_free(board, first_free(board).0, first_free(board).1),
{
    let (row, col) = choose|row: int, col: int| is_free(board, row, col);
    let cell = lemma_first_free_search(board, row, col);
    lemma_first_free_unique(board, cell.0, cell.1);
}

/// Among the empty cells up to `(row, col)` there is a first one.
proof fn lemma_first_free_search(board: Seq<Seq<u64>>, row: int, col: int) -> (cell: (int, int))
    requires
        is_free(board, row, col),
    ensures
        is_first_free(board, cell.0, cell.1),
    decreases row, col,
{
    if exists|a: int, b: int| reads_before(a, b, row, col) && is_free(board, a, b) {
        let (a, b) = choose|a: int, b: int| reads_before(a, b, row, col) && is_free(board, a, b);
        lemma_first_free_search(board, a, b)
    } else {
        (row, col)
    }
}

} // verus!
