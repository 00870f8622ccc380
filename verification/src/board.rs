//! A push on the whole board: every direction is the push to the left on a
//! grid that was transposed or mirrored first, and is put back afterwards.

use vstd::prelude::*;
use crate::direction::Direction;
use crate::grid::{mirrored, rectangular, transposed};
use crate::pair::Pair;
use crate::spawn::{has_free, is_free};
use crate::tiles::{
    blank, each, fresh, full, fused, gain, is_cell_value, lemma_double_is_cell_value,
    lemma_kept_len_by_values, lemma_merged_each, lemma_merged_len, lemma_push_row_count,
    lemma_push_row_full, lemma_slid_each, lemma_slid_len, lemma_sources_push_row, merged,
    push_row, slid, sources, tidy, Tile,
};

verus! {

/// The tile that a board cell holds when a push starts: its value, and its
/// own coordinate as origin if it holds a tile.
pub open spec fn origin_cell(value: u64, row: int, col: int) -> Tile {
    Tile {
        value,
        origin: if value != 0 {
            Pair::one((row as usize, col as usize))
        } else {
            Pair::empty()
        },
    }
}

/// The board as a grid of tiles that know where they stand.
pub open spec fn with_origins(board: Seq<Seq<u64>>) -> Seq<Seq<Tile>> {
    Seq::new(
        board.len(),
        |i: int| Seq::new(board[i].len(), |j: int| origin_cell(board[i][j], i, j)),
    )
}

/// The values of a grid of tiles.
pub open spec fn values(grid: Seq<Seq<Tile>>) -> Seq<Seq<u64>> {
    Seq::new(grid.len(), |i: int| Seq::new(grid[i].len(), |j: int| grid[i][j].value))
}

/// The origins reported for the cell `(row, col)`: those of its tile, but
/// none for a tile that stayed where it was.
pub open spec fn reported(origin: Pair, row: int, col: int) -> Pair {
    if origin.second is None && origin.first == Some((row as usize, col as usize)) {
        Pair::empty()
    } else {
        origin
    }
}

/// The origins reported for every cell of a grid of tiles.
pub open spec fn transitions(grid: Seq<Seq<Tile>>) -> Seq<Seq<Pair>> {
    Seq::new(
        grid.len(),
        |i: int| Seq::new(grid[i].len(), |j: int| reported(grid[i][j].origin, i, j)),
    )
}

/// Every row slid to the left.
pub open spec fn slid_all(grid: Seq<Seq<Tile>>) -> Seq<Seq<Tile>> {
    Seq::new(grid.len(), |i: int| slid(grid[i]))
}

/// Every row after the merging scan.
pub open spec fn merged_all(grid: Seq<Seq<Tile>>) -> Seq<Seq<Tile>> {
    Seq::new(grid.len(), |i: int| merged(grid[i]))
}

/// What the merging scans of all rows add to the score.
pub open spec fn grid_gain(grid: Seq<Seq<Tile>>) -> nat
    decreases grid.len(),
{
    if grid.len() == 0 {
        0
    } else {
        grid_gain(grid.drop_last()) + gain(grid.last())
    }
}

/// The canonical push: every row slid, merged and slid again.
pub open spec fn pushed_left(grid: Seq<Seq<Tile>>) -> Seq<Seq<Tile>> {
    slid_all(merged_all(slid_all(grid)))
}

/// Whether a push in this direction works on the transposed grid.
pub open spec fn turns(direction: Direction) -> bool {
    direction is U || direction is D
}

/// Whether a push in this direction works on the mirrored grid.
pub open spec fn flips(direction: Direction) -> bool {
    direction is R || direction is D
}

/// The grid on which a push in `direction` is the push to the left:
/// transposed for up and down, then mirrored for right and down.
pub open spec fn normalized<T>(grid: Seq<Seq<T>>, direction: Direction) -> Seq<Seq<T>> {
    let turned = if turns(direction) {
        transposed(grid)
    } else {
        grid
    };
    if flips(direction) {
        mirrored(turned)
    } else {
        turned
    }
}

/// The inverse of `normalized`: mirrored back, then transposed back.
pub open spec fn restored<T>(grid: Seq<Seq<T>>, direction: Direction) -> Seq<Seq<T>> {
    let flipped = if flips(direction) {
        mirrored(grid)
    } else {
        grid
    };
    if turns(direction) {
        transposed(flipped)
    } else {
        flipped
    }
}

/// The grid of tiles after a push in `direction`.
pub open spec fn shifted(grid: Seq<Seq<Tile>>, direction: Direction) -> Seq<Seq<Tile>> {
    restored(pushed_left(normalized(grid, direction)), direction)
}

/// The board after the tiles were pushed in `direction`, before any spawn.
pub open spec fn pushed_board(board: Seq<Seq<u64>>, direction: Direction) -> Seq<Seq<u64>> {
    values(shifted(with_origins(board), direction))
}

/// For every cell of the pushed board, the cells that its tile came from.
pub open spec fn push_transitions(board: Seq<Seq<u64>>, direction: Direction) -> Seq<Seq<Pair>> {
    transitions(shifted(with_origins(board), direction))
}

/// What a push in `direction` adds to the score: the value of every tile
/// that it merges.
pub open spec fn push_gain(board: Seq<Seq<u64>>, direction: Direction) -> nat {
    grid_gain(slid_all(normalized(with_origins(board), direction)))
}

/// The sum of all values on the board.
pub open spec fn board_sum(board: Seq<Seq<u64>>) -> nat
    decreases board.len(),
{
    if board.len() == 0 {
        0
    } else {
        board_sum(board.drop_last()) + line_sum(board.last())
    }
}

/// The sum of the values in one row of the board.
pub open spec fn line_sum(line: Seq<u64>) -> nat
    decreases line.len(),
{
    if line.len() == 0 {
        0
    } else {
        line_sum(line.drop_last()) + line.last() as nat
    }
}

/// The number of tiles in one row of the board.
pub open spec fn line_tiles(line: Seq<u64>) -> nat
    decreases line.len(),
{
    if line.len() == 0 {
        0
    } else {
        line_tiles(line.drop_last()) + if line.last() != 0 {
            1nat
        } else {
            0nat
        }
    }
}

/// The number of tiles on the board.
pub open spec fn board_tiles(board: Seq<Seq<u64>>) -> nat
    decreases board.len(),
{
    if board.len() == 0 {
        0
    } else {
        board_tiles(board.drop_last()) + line_tiles(board.last())
    }
}

/// The board of `height` rows and `width` columns without tiles.
pub open spec fn empty_board(height: nat, width: nat) -> Seq<Seq<u64>> {
    Seq::new(height, |i: int| Seq::new(width, |j: int| 0u64))
}

/// Whether every row of the grid is tidy.
pub open spec fn tidy_all(grid: Seq<Seq<Tile>>) -> bool {
    forall|i: int| 0 <= i < grid.len() ==> tidy(#[trigger] grid[i])
}

/// The height of a grid of `height` rows once it is normalized for `direction`.
pub open spec fn turned_height(direction: Direction, height: nat, width: nat) -> nat {
    if turns(direction) {
        width
    } else {
        height
    }
}

/// The width of a grid of `width` columns once it is normalized for `direction`.
pub open spec fn turned_width(direction: Direction, height: nat, width: nat) -> nat {
    if turns(direction) {
        height
    } else {
        width
    }
}

/// The cell that is `step` cells away from the edge toward which a push in
/// `direction` moves the tiles, in lane `lane`: a row for left and right, a
/// column for up and down. Left moves toward column 0, right toward the last
/// column, up toward row 0 and down toward the last row.
pub open spec fn lane_cell(
    direction: Direction,
    height: nat,
    width: nat,
    lane: int,
    step: int,
) -> (int, int) {
    match direction {
        Direction::L => (lane, step),
        Direction::R => (lane, width - 1 - step),
        Direction::U => (step, lane),
        Direction::D => (height - 1 - step, lane),
    }
}

/// The tiles of lane `lane`, read from the edge toward which a push in
/// `direction` moves them.
pub open spec fn lane_of(
    grid: Seq<Seq<Tile>>,
    direction: Direction,
    height: nat,
    width: nat,
    lane: int,
) -> Seq<Tile> {
    Seq::new(
        turned_width(direction, height, width),
        |step: int|
            grid[lane_cell(direction, height, width, lane, step).0][lane_cell(
                direction,
                height,
                width,
                lane,
                step,
            ).1],
    )
}

/// Whether every cell of the board holds nothing or a power of two from 2 on.
pub open spec fn sound_board(board: Seq<Seq<u64>>) -> bool {
    forall|i: int, j: int|
        0 <= i < board.len() && 0 <= j < board[i].len() ==> is_cell_value(#[trigger] board[i][j])
}

/// Whether every cell of the grid has the property.
pub open spec fn each_cell(grid: Seq<Seq<Tile>>, property: spec_fn(Tile) -> bool) -> bool {
    forall|i: int| 0 <= i < grid.len() ==> each(#[trigger] grid[i], property)
}

/// Whether `coord` is a cell of `board` that holds a tile worth `value`.
pub open spec fn holds(board: Seq<Seq<u64>>, coord: (usize, usize), value: u64) -> bool {
    &&& value != 0
    &&& coord.0 < board.len()
    &&& coord.1 < board[coord.0 as int].len()
    &&& board[coord.0 as int][coord.1 as int] == value
}

/// Whether a cell is as it is when a push starts: empty without an origin,
/// or with one origin, a cell of `board` that holds a tile of its value.
pub open spec fn unmerged(tile: Tile, board: Seq<Seq<u64>>) -> bool {
    match (tile.origin.first, tile.origin.second) {
        (None, None) => tile.value == 0,
        (Some(origin), None) => holds(board, origin, tile.value),
        _ => false,
    }
}

/// Whether the origins of a cell name the tiles of `board` that its tile is
/// made of: none for an empty cell, one tile of the same value for a tile
/// that did not merge, two tiles of half the value for a merged tile.
pub open spec fn sourced(tile: Tile, board: Seq<Seq<u64>>) -> bool {
    match (tile.origin.first, tile.origin.second) {
        (None, None) => tile.value == 0,
        (Some(origin), None) => holds(board, origin, tile.value),
        (Some(left), Some(right)) => {
            &&& tile.value % 2 == 0
            &&& holds(board, left, (tile.value / 2) as u64)
            &&& holds(board, right, (tile.value / 2) as u64)
        },
        (None, Some(_)) => false,
    }
}

/// A board with its origins is a tidy grid of the same shape.
pub proof fn lemma_with_origins(board: Seq<Seq<u64>>, height: nat, width: nat)
    requires
        rectangular(board, height, width),
    ensures
        rectangular(with_origins(board), height, width),
        tidy_all(with_origins(board)),
        values(with_origins(board)) == board,
{
    let grid = with_origins(board);
    assert forall|i: int| 0 <= i < grid.len() implies #[trigger] values(grid)[i] == board[i] by {
        assert(values(grid)[i] =~= board[i]);
    }
    assert(values(grid) =~= board);
}

/// Normalizing exchanges height and width for up and down, and keeps the grid tidy.
pub proof fn lemma_normalized_shape(
    grid: Seq<Seq<Tile>>,
    direction: Direction,
    height: nat,
    width: nat,
)
    requires
        rectangular(grid, height, width),
        height > 0,
        width > 0,
    ensures
        rectangular(
            normalized(grid, direction),
            turned_height(direction, height, width),
            turned_width(direction, height, width),
        ),
        tidy_all(grid) ==> tidy_all(normalized(grid, direction)),
{
    let turned = if turns(direction) {
        transposed(grid)
    } else {
        grid
    };
    if tidy_all(grid) {
        assert forall|i: int| 0 <= i < turned.len() implies tidy(#[trigger] turned[i]) by {
            if turns(direction) {
                assert forall|j: int| 0 <= j < turned[i].len() && (#[trigger] turned[i][j]).value
                    == 0 implies turned[i][j] == blank() by {
                    assert(tidy(grid[j]));
                    assert(turned[i][j] == grid[j][i]);
                }
            }
        }
        let result = normalized(grid, direction);
        assert forall|i: int| 0 <= i < result.len() implies tidy(#[trigger] result[i]) by {
            assert(tidy(turned[i]));
            if flips(direction) {
                assert forall|j: int| 0 <= j < result[i].len() && (#[trigger] result[i][j]).value
                    == 0 implies result[i][j] == blank() by {
                    assert(result[i][j] == turned[i][turned[i].len() - 1 - j]);
                }
            }
        }
    }
}

/// The push to the left keeps the shape of the grid.
pub proof fn lemma_pushed_left_shape(grid: Seq<Seq<Tile>>, height: nat, width: nat)
    requires
        rectangular(grid, height, width),
    ensures
        rectangular(slid_all(grid), height, width),
        rectangular(merged_all(grid), height, width),
        rectangular(pushed_left(grid), height, width),
{
    assert forall|i: int| 0 <= i < height implies (#[trigger] slid_all(grid)[i]).len()
        == width by {
        lemma_slid_len(grid[i]);
    }
    assert forall|i: int| 0 <= i < height implies (#[trigger] merged_all(grid)[i]).len()
        == width by {
        lemma_merged_len(grid[i]);
    }
    assert forall|i: int| 0 <= i < height implies (#[trigger] pushed_left(grid)[i]).len()
        == width by {
        lemma_slid_len(grid[i]);
        lemma_merged_len(slid(grid[i]));
        lemma_slid_len(merged(slid(grid[i])));
    }
}

/// Restoring a normalized grid gives it the shape it had before.
pub proof fn lemma_restored_shape<T>(
    grid: Seq<Seq<T>>,
    direction: Direction,
    height: nat,
    width: nat,
)
    requires
        rectangular(
            grid,
            turned_height(direction, height, width),
            turned_width(direction, height, width),
        ),
        height > 0,
        width > 0,
    ensures
        rectangular(restored(grid, direction), height, width),
{
}

/// A push keeps the shape of the board.
pub proof fn lemma_shifted_shape(
    grid: Seq<Seq<Tile>>,
    direction: Direction,
    height: nat,
    width: nat,
)
    requires
        rectangular(grid, height, width),
        height > 0,
        width > 0,
    ensures
        rectangular(shifted(grid, direction), height, width),
{
    lemma_normalized_shape(grid, direction, height, width);
    lemma_pushed_left_shape(
        normalized(grid, direction),
        turned_height(direction, height, width),
        turned_width(direction, height, width),
    );
    lemma_restored_shape(
        pushed_left(normalized(grid, direction)),
        direction,
        height,
        width,
    );
}

/// The gain of the first rows of a grid is at most the gain of all its rows.
pub proof fn lemma_grid_gain_prefix(grid: Seq<Seq<Tile>>, k: int)
    requires
        0 <= k <= grid.len(),
    ensures
        grid_gain(grid.take(k)) <= grid_gain(grid),
    decreases grid.len(),
{
    if k == grid.len() {
        assert(grid.take(k) =~= grid);
    } else {
        lemma_grid_gain_prefix(grid.drop_last(), k);
        assert(grid.drop_last().take(k) =~= grid.take(k));
    }
}

/// What a push does, lane by lane: every row (for left and right) or column
/// (for up and down), read from the edge toward which the tiles move, is
/// slid, merged and slid again on its own.
pub proof fn lemma_push_by_lanes(
    grid: Seq<Seq<Tile>>,
    direction: Direction,
    height: nat,
    width: nat,
    lane: int,
)
    requires
        rectangular(grid, height, width),
        height > 0,
        width > 0,
        0 <= lane < turned_height(direction, height, width),
    ensures
        lane_of(shifted(grid, direction), direction, height, width, lane) == push_row(
            lane_of(grid, direction, height, width, lane),
        ),
        lane_of(grid, direction, height, width, lane) == normalized(grid, direction)[lane],
{
    let start = normalized(grid, direction);
    let pushed = pushed_left(start);
    let back = shifted(grid, direction);
    let rows = turned_height(direction, height, width);
    let cols = turned_width(direction, height, width);
    lemma_normalized_shape(grid, direction, height, width);
    lemma_pushed_left_shape(start, rows, cols);
    lemma_restored_shape(pushed, direction, height, width);
    assert(start[lane].len() == cols);
    assert(pushed[lane].len() == cols);
    assert(start[lane] =~= lane_of(grid, direction, height, width, lane)) by {
        assert forall|step: int| 0 <= step < cols implies #[trigger] start[lane][step] == lane_of(
            grid,
            direction,
            height,
            width,
            lane,
        )[step] by {
            let cell = lane_cell(direction, height, width, lane, step);
            assert(grid[cell.0].len() == width);
        }
    }
    assert(pushed[lane] =~= lane_of(back, direction, height, width, lane)) by {
        assert forall|step: int| 0 <= step < cols implies #[trigger] pushed[lane][step] == lane_of(
            back,
            direction,
            height,
            width,
            lane,
        )[step] by {
            let cell = lane_cell(direction, height, width, lane, step);
            assert(back[cell.0].len() == width);
        }
    }
}

/// Along every lane the pushed tiles carry, in their order, the cells of the
/// lane that held a tile before the push: no tile is lost, none is counted
/// twice, and no tile passes another.
pub proof fn lemma_push_keeps_order(
    board: Seq<Seq<u64>>,
    direction: Direction,
    height: nat,
    width: nat,
    lane: int,
)
    requires
        rectangular(board, height, width),
        height > 0,
        width > 0,
        push_gain(board, direction) <= u64::MAX,
        0 <= lane < turned_height(direction, height, width),
    ensures
        sources(lane_of(shifted(with_origins(board), direction), direction, height, width, lane))
            == sources(lane_of(with_origins(board), direction, height, width, lane)),
{
    let grid = with_origins(board);
    let before = lane_of(grid, direction, height, width, lane);
    let is_fresh = |tile: Tile| fresh(tile);
    lemma_with_origins(board, height, width);
    lemma_push_by_lanes(grid, direction, height, width, lane);
    lemma_normalized_shape(grid, direction, height, width);
    assert forall|step: int| 0 <= step < before.len() implies is_fresh(#[trigger] before[step]) by {
        let cell = lane_cell(direction, height, width, lane, step);
        assert(grid[cell.0].len() == width);
    }
    lemma_row_gain_in_grid(slid_all(normalized(grid, direction)), lane);
    lemma_sources_push_row(before);
}

/// The gain of one row is at most the gain of the grid.
pub proof fn lemma_row_gain_in_grid(grid: Seq<Seq<Tile>>, i: int)
    requires
        0 <= i < grid.len(),
    ensures
        gain(grid[i]) <= grid_gain(grid),
    decreases grid.len(),
{
    if i < grid.len() - 1 {
        lemma_row_gain_in_grid(grid.drop_last(), i);
    }
}

/// After a push every cell is empty, or holds a tile that the grid held, or
/// a tile merged from two equal tiles that the grid held. So what holds of
/// all of these holds of every cell of the pushed grid. The merged tiles are
/// worth at most the gain of the push.
pub proof fn lemma_shifted_each(
    grid: Seq<Seq<Tile>>,
    direction: Direction,
    height: nat,
    width: nat,
    before: spec_fn(Tile) -> bool,
    after: spec_fn(Tile) -> bool,
)
    requires
        rectangular(grid, height, width),
        height > 0,
        width > 0,
        each_cell(grid, before),
        before(blank()),
        after(blank()),
        forall|tile: Tile| #[trigger] before(tile) ==> after(tile),
        forall|left: Tile, right: Tile|
            before(left) && before(right) && left.value != 0 && left.value == right.value && 2
                * left.value <= grid_gain(slid_all(normalized(grid, direction))) ==> after(
                #[trigger] fused(left, right),
            ),
    ensures
        each_cell(shifted(grid, direction), after),
{
    let start = normalized(grid, direction);
    let pushed = pushed_left(start);
    let back = restored(pushed, direction);
    let rows = turned_height(direction, height, width);
    let cols = turned_width(direction, height, width);
    lemma_normalized_shape(grid, direction, height, width);
    lemma_pushed_left_shape(start, rows, cols);
    lemma_restored_shape(pushed, direction, height, width);
    assert forall|a: int| 0 <= a < rows implies each(#[trigger] pushed[a], after) by {
        assert forall|b: int| 0 <= b < cols implies before(#[trigger] start[a][b]) by {
            let c = if flips(direction) {
                cols - 1 - b
            } else {
                b
            };
            let (i, j) = if turns(direction) {
                (c, a)
            } else {
                (a, c)
            };
            assert(each(grid[i], before));
            assert(start[a][b] == grid[i][j]);
        }
        assert(start[a].len() == cols);
        lemma_slid_each(start[a], before);
        lemma_row_gain_in_grid(slid_all(start), a);
        lemma_merged_each(slid(start[a]), before, after);
        lemma_slid_each(merged(slid(start[a])), after);
    }
    assert forall|i: int| 0 <= i < height implies each(#[trigger] back[i], after) by {
        assert forall|j: int| 0 <= j < width implies after(#[trigger] back[i][j]) by {
            let (a, c) = if turns(direction) {
                (j, i)
            } else {
                (i, j)
            };
            let b = if flips(direction) {
                cols - 1 - c
            } else {
                c
            };
            assert(back[i][j] == pushed[a][b]);
            assert(each(pushed[a], after));
            assert(pushed[a].len() == cols);
        }
        assert(back[i].len() == width);
    }
}

/// A push keeps the board sound, if the merged values fit their type: a
/// tile keeps its value or merges into one of twice the value.
pub proof fn lemma_pushed_board_sound(
    board: Seq<Seq<u64>>,
    direction: Direction,
    height: nat,
    width: nat,
)
    requires
        rectangular(board, height, width),
        height > 0,
        width > 0,
        sound_board(board),
        push_gain(board, direction) <= u64::MAX,
    ensures
        sound_board(pushed_board(board, direction)),
{
    let grid = with_origins(board);
    let is_sound = |tile: Tile| is_cell_value(tile.value);
    lemma_with_origins(board, height, width);
    lemma_shifted_shape(grid, direction, height, width);
    assert(each_cell(grid, is_sound)) by {
        assert forall|i: int| 0 <= i < grid.len() implies each(#[trigger] grid[i], is_sound) by {
            assert forall|j: int| 0 <= j < grid[i].len() implies is_sound(#[trigger] grid[i][j]) by {
                assert(is_cell_value(board[i][j]));
            }
        }
    }
    assert forall|left: Tile, right: Tile|
        is_sound(left) && is_sound(right) && left.value != 0 && left.value == right.value && 2
            * left.value <= grid_gain(slid_all(normalized(grid, direction))) implies is_sound(
        #[trigger] fused(left, right),
    ) by {
        lemma_double_is_cell_value(left.value);
    }
    lemma_shifted_each(grid, direction, height, width, is_sound, is_sound);
    let back = shifted(grid, direction);
    assert forall|i: int, j: int|
        0 <= i < values(back).len() && 0 <= j < values(back)[i].len() implies is_cell_value(
        #[trigger] values(back)[i][j],
    ) by {
        assert(each(back[i], is_sound));
        assert(is_sound(back[i][j]));
    }
}

/// A grid in which no row gains anything gains nothing.
pub proof fn lemma_grid_gain_none(grid: Seq<Seq<Tile>>)
    requires
        forall|i: int| 0 <= i < grid.len() ==> gain(#[trigger] grid[i]) == 0,
    ensures
        grid_gain(grid) == 0,
    decreases grid.len(),
{
    if grid.len() > 0 {
        assert forall|i: int| 0 <= i < grid.drop_last().len() implies gain(
            #[trigger] grid.drop_last()[i],
        ) == 0 by {
            assert(grid.drop_last()[i] == grid[i]);
        }
        lemma_grid_gain_none(grid.drop_last());
        assert(gain(grid[grid.len() - 1]) == 0);
    }
}

/// A push that leaves the board as it was merges nothing, so it adds
/// nothing to the score.
pub proof fn lemma_idle_push_gains_nothing(
    board: Seq<Seq<u64>>,
    direction: Direction,
    height: nat,
    width: nat,
)
    requires
        rectangular(board, height, width),
        height > 0,
        width > 0,
        push_gain(board, direction) <= u64::MAX,
        pushed_board(board, direction) == board,
    ensures
        push_gain(board, direction) == 0,
{
    let grid = with_origins(board);
    let start = normalized(grid, direction);
    let pushed = pushed_left(start);
    let back = restored(pushed, direction);
    let rows = turned_height(direction, height, width);
    let cols = turned_width(direction, height, width);
    lemma_with_origins(board, height, width);
    lemma_normalized_shape(grid, direction, height, width);
    lemma_pushed_left_shape(start, rows, cols);
    lemma_restored_shape(pushed, direction, height, width);
    assert forall|a: int| 0 <= a < rows implies gain(#[trigger] slid_all(start)[a]) == 0 by {
        assert(start[a].len() == cols);
        assert(pushed[a].len() == cols);
        assert forall|b: int| 0 <= b < cols implies (#[trigger] pushed[a][b]).value
            == start[a][b].value by {
            let c = if flips(direction) {
                cols - 1 - b
            } else {
                b
            };
            let (i, j) = if turns(direction) {
                (c, a)
            } else {
                (a, c)
            };
            assert(back[i].len() == width);
            assert(back[i][j] == pushed[a][b]);
            assert(grid[i][j] == start[a][b]);
            assert(values(back)[i][j] == board[i][j]);
        }
        lemma_kept_len_by_values(pushed[a], start[a]);
        lemma_row_gain_in_grid(slid_all(start), a);
        lemma_push_row_count(start[a]);
    }
    lemma_grid_gain_none(slid_all(start));
}

/// What the origins that a push reports mean. A cell without origins is
/// empty or holds the tile that it held before. A cell with one origin holds
/// the tile that stood there, and that is another cell. A cell with two
/// origins holds a tile of twice the value of the two equal tiles that stood
/// there.
pub proof fn lemma_transitions_name_the_sources(
    board: Seq<Seq<u64>>,
    direction: Direction,
    height: nat,
    width: nat,
    i: int,
    j: int,
)
    requires
        rectangular(board, height, width),
        0 < height <= usize::MAX,
        0 < width <= usize::MAX,
        push_gain(board, direction) <= u64::MAX,
        0 <= i < height,
        0 <= j < width,
    ensures
        match (
            push_transitions(board, direction)[i][j].first,
            push_transitions(board, direction)[i][j].second,
        ) {
            (None, None) => pushed_board(board, direction)[i][j] == 0 || pushed_board(
                board,
                direction,
            )[i][j] == board[i][j],
            (Some(origin), None) => origin != (i as usize, j as usize) && holds(
                board,
                origin,
                pushed_board(board, direction)[i][j],
            ),
            (Some(left), Some(right)) => {
                &&& pushed_board(board, direction)[i][j] % 2 == 0
                &&& holds(board, left, (pushed_board(board, direction)[i][j] / 2) as u64)
                &&& holds(board, right, (pushed_board(board, direction)[i][j] / 2) as u64)
            },
            (None, Some(_)) => false,
        },
{
    let grid = with_origins(board);
    let before = |tile: Tile| unmerged(tile, board);
    let after = |tile: Tile| sourced(tile, board);
    lemma_with_origins(board, height, width);
    lemma_shifted_shape(grid, direction, height, width);
    assert(each_cell(grid, before)) by {
        assert forall|a: int| 0 <= a < grid.len() implies each(#[trigger] grid[a], before) by {
            assert forall|b: int| 0 <= b < grid[a].len() implies before(#[trigger] grid[a][b]) by {
                assert(board[a].len() == width);
            }
        }
    }
    lemma_shifted_each(grid, direction, height, width, before, after);
    let back = shifted(grid, direction);
    assert(each(back[i], after));
    assert(back[i].len() == width);
    assert(after(back[i][j]));
}

/// A push to the left that leaves every row full has changed nothing.
pub proof fn lemma_pushed_left_full(grid: Seq<Seq<Tile>>)
    requires
        forall|i: int| 0 <= i < grid.len() ==> full(#[trigger] pushed_left(grid)[i]),
    ensures
        pushed_left(grid) == grid,
{
    assert forall|i: int| 0 <= i < grid.len() implies #[trigger] pushed_left(grid)[i]
        == grid[i] by {
        assert(full(pushed_left(grid)[i]));
        lemma_push_row_full(grid[i]);
    }
    assert(pushed_left(grid) =~= grid);
}

/// A push that changes the board leaves an empty cell on it: either there was
/// one before, or two tiles merged.
pub proof fn lemma_moved_leaves_room(
    board: Seq<Seq<u64>>,
    direction: Direction,
    height: nat,
    width: nat,
)
    requires
        rectangular(board, height, width),
        height > 0,
        width > 0,
        pushed_board(board, direction) != board,
    ensures
        has_free(pushed_board(board, direction)),
{
    let grid = with_origins(board);
    let start = normalized(grid, direction);
    let pushed = pushed_left(start);
    let back = restored(pushed, direction);
    let rows = turned_height(direction, height, width);
    let cols = turned_width(direction, height, width);
    lemma_with_origins(board, height, width);
    lemma_normalized_shape(grid, direction, height, width);
    lemma_pushed_left_shape(start, rows, cols);
    lemma_restored_shape(pushed, direction, height, width);
    if !has_free(values(back)) {
        assert forall|a: int| 0 <= a < start.len() implies full(#[trigger] pushed[a]) by {
            assert forall|b: int| 0 <= b < pushed[a].len() implies (#[trigger] pushed[a][b]).value
                != 0 by {
                let c = if flips(direction) {
                    cols - 1 - b
                } else {
                    b
                };
                let (i, j) = if turns(direction) {
                    (c, a)
                } else {
                    (a, c)
                };
                assert(back[i][j] == pushed[a][b]);
                assert(!is_free(values(back), i, j));
                assert(values(back)[i][j] == back[i][j].value);
            }
        }
        lemma_pushed_left_full(start);
        lemma_restored_normalized(grid, direction, height, width);
        assert(false);
    }
}

/// Normalizing and restoring lead back to the grid.
pub proof fn lemma_restored_normalized<T>(
    grid: Seq<Seq<T>>,
    direction: Direction,
    height: nat,
    width: nat,
)
    requires
        rectangular(grid, height, width),
        height > 0,
        width > 0,
    ensures
        restored(normalized(grid, direction), direction) == grid,
{
    let turned = if turns(direction) {
        transposed(grid)
    } else {
        grid
    };
    crate::grid::lemma_mirrored_twice(turned);
    crate::grid::lemma_transposed_twice(grid, height, width);
}

} // verus!
