//! Sums of values: a push moves value around the board and never makes or
//! loses any; only a spawn adds value.

use vstd::prelude::*;
use crate::board::{
    board_sum, board_tiles, grid_gain, lemma_normalized_shape, lemma_row_gain_in_grid, lemma_pushed_left_shape,
    lemma_with_origins, line_sum, line_tiles, normalized, push_gain, pushed_board,
    pushed_left, restored, shifted, slid_all, turned_height, turned_width, turns, flips, values,
    with_origins,
};
use crate::direction::Direction;
use crate::grid::{flipped, mirrored, rectangular, transposed};
use crate::spawn::placed;
use crate::tiles::{blank, blanks, gain, kept, merged, row_sum, slid, Tile};

verus! {

/// The sum of the values of all tiles of a grid.
pub open spec fn grid_sum(grid: Seq<Seq<Tile>>) -> nat
    decreases grid.len(),
{
    if grid.len() == 0 {
        0
    } else {
        grid_sum(grid.drop_last()) + row_sum(grid.last())
    }
}

/// The sum of a row is its first value plus the sum of the rest.
pub proof fn lemma_row_sum_front(row: Seq<Tile>)
    requires
        row.len() > 0,
    ensures
        row_sum(row) == row[0].value + row_sum(row.skip(1)),
    decreases row.len(),
{
    if row.len() == 1 {
        assert(row.drop_last() =~= row.skip(1));
    } else {
        lemma_row_sum_front(row.drop_last());
        assert(row.skip(1).drop_last() =~= row.drop_last().skip(1));
    }
}

/// The sum of two rows put together is the sum of their sums.
pub proof fn lemma_row_sum_concat(left: Seq<Tile>, right: Seq<Tile>)
    ensures
        row_sum(left + right) == row_sum(left) + row_sum(right),
    decreases right.len(),
{
    if right.len() == 0 {
        assert(left + right =~= left);
    } else {
        lemma_row_sum_concat(left, right.drop_last());
        assert((left + right).drop_last() =~= left + right.drop_last());
    }
}

/// Empty cells add nothing to a sum.
pub proof fn lemma_row_sum_blanks(n: nat)
    ensures
        row_sum(blanks(n)) == 0,
    decreases n,
{
    if n > 0 {
        lemma_row_sum_blanks((n - 1) as nat);
        assert(blanks(n).drop_last() =~= blanks((n - 1) as nat));
    }
}

/// Sliding keeps the sum of a row.
pub proof fn lemma_slid_sum(row: Seq<Tile>)
    ensures
        row_sum(slid(row)) == row_sum(row),
{
    lemma_row_sum_kept(row);
    lemma_row_sum_blanks((row.len() - kept(row).len()) as nat);
    lemma_row_sum_concat(kept(row), blanks((row.len() - kept(row).len()) as nat));
}

/// The tiles of a row sum to what the row sums to.
pub proof fn lemma_row_sum_kept(row: Seq<Tile>)
    ensures
        row_sum(kept(row)) == row_sum(row),
    decreases row.len(),
{
    if row.len() > 0 {
        lemma_row_sum_kept(row.drop_last());
        if row.last().value != 0 {
            assert(kept(row).drop_last() =~= kept(row.drop_last()));
        }
    }
}

/// What a merging scan adds to the score is at most the sum of the row: each
/// merged tile is worth the two tiles it is made of.
pub proof fn lemma_gain_at_most_sum(row: Seq<Tile>)
    ensures
        gain(row) <= row_sum(row),
    decreases row.len(),
{
    if row.len() >= 2 {
        lemma_row_sum_front(row);
        if row[0].value != 0 && row[0].value == row[1].value {
            lemma_row_sum_front(row.skip(1));
            assert(row.skip(1).skip(1) =~= row.skip(2));
            lemma_gain_at_most_sum(row.skip(2));
        } else {
            lemma_gain_at_most_sum(row.skip(1));
        }
    }
}

/// The merging scan keeps the sum of a row, if the merged values fit their type.
pub proof fn lemma_merged_sum(row: Seq<Tile>)
    requires
        gain(row) <= u64::MAX,
    ensures
        row_sum(merged(row)) == row_sum(row),
    decreases row.len(),
{
    if row.len() >= 2 {
        lemma_row_sum_front(row);
        if row[0].value != 0 && row[0].value == row[1].value {
            let head = seq![crate::tiles::fused(row[0], row[1]), blank()];
            lemma_row_sum_front(row.skip(1));
            assert(row.skip(1).skip(1) =~= row.skip(2));
            lemma_merged_sum(row.skip(2));
            lemma_row_sum_concat(head, merged(row.skip(2)));
            lemma_row_sum_front(head);
            lemma_row_sum_front(head.skip(1));
            assert(head.skip(1).skip(1) =~= Seq::<Tile>::empty());
        } else {
            lemma_merged_sum(row.skip(1));
            lemma_row_sum_concat(seq![row[0]], merged(row.skip(1)));
            lemma_row_sum_front(seq![row[0]]);
            assert(seq![row[0]].skip(1) =~= Seq::<Tile>::empty());
        }
    }
}

/// Reversing a row keeps its sum.
pub proof fn lemma_flipped_sum(row: Seq<Tile>)
    ensures
        row_sum(flipped(row)) == row_sum(row),
    decreases row.len(),
{
    if row.len() > 0 {
        lemma_row_sum_front(flipped(row));
        assert(flipped(row).skip(1) =~= flipped(row.drop_last()));
        lemma_flipped_sum(row.drop_last());
    } else {
        assert(flipped(row) =~= row);
    }
}

/// Two grids whose rows have the same sums have the same sum.
pub proof fn lemma_grid_sum_by_rows(left: Seq<Seq<Tile>>, right: Seq<Seq<Tile>>)
    requires
        left.len() == right.len(),
        forall|i: int| 0 <= i < left.len() ==> row_sum(#[trigger] left[i]) == row_sum(right[i]),
    ensures
        grid_sum(left) == grid_sum(right),
    decreases left.len(),
{
    if left.len() > 0 {
        assert forall|i: int| 0 <= i < left.drop_last().len() implies row_sum(
            #[trigger] left.drop_last()[i],
        ) == row_sum(right.drop_last()[i]) by {
            assert(left.drop_last()[i] == left[i]);
        }
        lemma_grid_sum_by_rows(left.drop_last(), right.drop_last());
        assert(row_sum(left[left.len() - 1]) == row_sum(right[left.len() - 1]));
    }
}

/// What the merging scans add to the score is at most the sum of the grid.
pub proof fn lemma_grid_gain_at_most_sum(grid: Seq<Seq<Tile>>)
    ensures
        grid_gain(grid) <= grid_sum(grid),
    decreases grid.len(),
{
    if grid.len() > 0 {
        lemma_grid_gain_at_most_sum(grid.drop_last());
        lemma_gain_at_most_sum(grid.last());
    }
}

/// The columns of a grid, for a given width.
pub open spec fn columns(grid: Seq<Seq<Tile>>, width: nat) -> Seq<Seq<Tile>> {
    Seq::new(width, |j: int| Seq::new(grid.len(), |i: int| grid[i][j]))
}

/// A grid whose rows each get one more tile grows by the sum of those tiles.
proof fn lemma_grid_sum_extended(grid: Seq<Seq<Tile>>, longer: Seq<Seq<Tile>>, added: Seq<Tile>)
    requires
        grid.len() == added.len(),
        longer.len() == added.len(),
        forall|j: int| 0 <= j < added.len() ==> #[trigger] longer[j] == grid[j].push(added[j]),
    ensures
        grid_sum(longer) == grid_sum(grid) + row_sum(added),
    decreases added.len(),
{
    if added.len() > 0 {
        assert forall|j: int| 0 <= j < added.drop_last().len() implies #[trigger] longer.drop_last()[j]
            == grid.drop_last()[j].push(added.drop_last()[j]) by {
            assert(longer.drop_last()[j] == longer[j]);
        }
        lemma_grid_sum_extended(grid.drop_last(), longer.drop_last(), added.drop_last());
        let n = added.len() - 1;
        assert(longer[n] == grid[n].push(added[n]));
        assert(grid[n].push(added[n]).drop_last() =~= grid[n]);
    }
}

/// A grid of empty rows sums to nothing.
proof fn lemma_grid_sum_of_empty_rows(grid: Seq<Seq<Tile>>)
    requires
        forall|j: int| 0 <= j < grid.len() ==> (#[trigger] grid[j]).len() == 0,
    ensures
        grid_sum(grid) == 0,
    decreases grid.len(),
{
    if grid.len() > 0 {
        assert forall|j: int| 0 <= j < grid.drop_last().len() implies (#[trigger] grid.drop_last()[j]).len()
            == 0 by {
            assert(grid.drop_last()[j] == grid[j]);
        }
        lemma_grid_sum_of_empty_rows(grid.drop_last());
        assert(grid[grid.len() - 1].len() == 0);
    }
}

/// The columns of a grid sum to what its rows sum to.
proof fn lemma_columns_sum(grid: Seq<Seq<Tile>>, width: nat)
    requires
        rectangular(grid, grid.len(), width),
    ensures
        grid_sum(columns(grid, width)) == grid_sum(grid),
    decreases grid.len(),
{
    if grid.len() == 0 {
        lemma_grid_sum_of_empty_rows(columns(grid, width));
    } else {
        let shorter = grid.drop_last();
        assert(rectangular(shorter, shorter.len(), width)) by {
            assert forall|i: int| 0 <= i < shorter.len() implies (#[trigger] shorter[i]).len()
                == width by {
                assert(shorter[i] == grid[i]);
            }
        }
        lemma_columns_sum(shorter, width);
        assert(grid[grid.len() - 1].len() == width);
        assert forall|j: int| 0 <= j < width implies #[trigger] columns(grid, width)[j]
            == columns(shorter, width)[j].push(grid.last()[j]) by {
            assert(columns(grid, width)[j] =~= columns(shorter, width)[j].push(grid.last()[j]));
        }
        lemma_grid_sum_extended(columns(shorter, width), columns(grid, width), grid.last());
    }
}

/// Transposing keeps the sum of a grid.
pub proof fn lemma_transposed_sum(grid: Seq<Seq<Tile>>, height: nat, width: nat)
    requires
        rectangular(grid, height, width),
    ensures
        grid_sum(transposed(grid)) == grid_sum(grid),
{
    if height == 0 {
        assert(transposed(grid) =~= grid);
    } else {
        assert(grid[0].len() == width);
        assert(transposed(grid) =~= columns(grid, width));
        lemma_columns_sum(grid, width);
    }
}

/// Mirroring keeps the sum of a grid.
pub proof fn lemma_mirrored_sum(grid: Seq<Seq<Tile>>)
    ensures
        grid_sum(mirrored(grid)) == grid_sum(grid),
{
    assert forall|i: int| 0 <= i < grid.len() implies row_sum(#[trigger] mirrored(grid)[i])
        == row_sum(grid[i]) by {
        lemma_flipped_sum(grid[i]);
    }
    lemma_grid_sum_by_rows(mirrored(grid), grid);
}

/// Normalizing keeps the sum of a grid.
pub proof fn lemma_normalized_sum(grid: Seq<Seq<Tile>>, direction: Direction, height: nat, width: nat)
    requires
        rectangular(grid, height, width),
    ensures
        grid_sum(normalized(grid, direction)) == grid_sum(grid),
{
    lemma_transposed_sum(grid, height, width);
    if turns(direction) {
        lemma_mirrored_sum(transposed(grid));
    } else {
        lemma_mirrored_sum(grid);
    }
}

/// Restoring keeps the sum of a grid.
pub proof fn lemma_restored_sum(grid: Seq<Seq<Tile>>, direction: Direction, height: nat, width: nat)
    requires
        rectangular(grid, height, width),
    ensures
        grid_sum(restored(grid, direction)) == grid_sum(grid),
{
    lemma_mirrored_sum(grid);
    if flips(direction) {
        lemma_transposed_sum(mirrored(grid), height, width);
    } else {
        lemma_transposed_sum(grid, height, width);
    }
}

/// A push to the left keeps the sum of a grid, if the merged values fit their type.
pub proof fn lemma_pushed_left_sum(grid: Seq<Seq<Tile>>)
    requires
        grid_gain(slid_all(grid)) <= u64::MAX,
    ensures
        grid_sum(pushed_left(grid)) == grid_sum(grid),
{
    assert forall|i: int| 0 <= i < grid.len() implies row_sum(#[trigger] pushed_left(grid)[i])
        == row_sum(grid[i]) by {
        lemma_slid_sum(grid[i]);
        lemma_row_gain_in_grid(slid_all(grid), i);
        lemma_merged_sum(slid(grid[i]));
        lemma_slid_sum(merged(slid(grid[i])));
    }
    lemma_grid_sum_by_rows(pushed_left(grid), grid);
}

/// The values of a row of tiles sum to the sum of the row.
pub proof fn lemma_line_sum_of_values(row: Seq<Tile>)
    ensures
        line_sum(Seq::new(row.len(), |j: int| row[j].value)) == row_sum(row),
    decreases row.len(),
{
    let line = Seq::new(row.len(), |j: int| row[j].value);
    if row.len() > 0 {
        lemma_line_sum_of_values(row.drop_last());
        assert(line.drop_last() =~= Seq::new(
            row.drop_last().len(),
            |j: int| row.drop_last()[j].value,
        ));
    }
}

/// The values of a grid of tiles sum to the sum of the grid.
pub proof fn lemma_board_sum_of_values(grid: Seq<Seq<Tile>>)
    ensures
        board_sum(values(grid)) == grid_sum(grid),
    decreases grid.len(),
{
    if grid.len() > 0 {
        lemma_board_sum_of_values(grid.drop_last());
        assert(values(grid).drop_last() =~= values(grid.drop_last()));
        lemma_line_sum_of_values(grid.last());
        assert(values(grid).last() =~= Seq::new(grid.last().len(), |j: int| grid.last()[j].value));
    }
}

/// What a push adds to the score is at most the sum of the board.
pub proof fn lemma_push_gain_at_most_sum(
    board: Seq<Seq<u64>>,
    direction: Direction,
    height: nat,
    width: nat,
)
    requires
        rectangular(board, height, width),
        height > 0,
        width > 0,
    ensures
        push_gain(board, direction) <= board_sum(board),
{
    let grid = with_origins(board);
    let start = normalized(grid, direction);
    lemma_with_origins(board, height, width);
    lemma_board_sum_of_values(grid);
    lemma_normalized_sum(grid, direction, height, width);
    lemma_grid_gain_at_most_sum(slid_all(start));
    assert forall|i: int| 0 <= i < start.len() implies row_sum(#[trigger] slid_all(start)[i])
        == row_sum(start[i]) by {
        lemma_slid_sum(start[i]);
    }
    lemma_grid_sum_by_rows(slid_all(start), start);
}

/// A push keeps the sum of the board, if the merged values fit their type:
/// sliding moves values, and a merge puts the value of two tiles into one.
pub proof fn lemma_pushed_board_sum(
    board: Seq<Seq<u64>>,
    direction: Direction,
    height: nat,
    width: nat,
)
    requires
        rectangular(board, height, width),
        height > 0,
        width > 0,
        push_gain(board, direction) <= u64::MAX,
    ensures
        board_sum(pushed_board(board, direction)) == board_sum(board),
{
    let grid = with_origins(board);
    let start = normalized(grid, direction);
    lemma_with_origins(board, height, width);
    lemma_board_sum_of_values(grid);
    lemma_normalized_shape(grid, direction, height, width);
    lemma_normalized_sum(grid, direction, height, width);
    lemma_pushed_left_sum(start);
    lemma_pushed_left_shape(
        start,
        turned_height(direction, height, width),
        turned_width(direction, height, width),
    );
    lemma_restored_sum(
        pushed_left(start),
        direction,
        turned_height(direction, height, width),
        turned_width(direction, height, width),
    );
    lemma_board_sum_of_values(shifted(grid, direction));
}

/// Writing a value to an empty cell of a row adds it to the sum of the row,
/// and adds a tile if the value is not 0.
pub proof fn lemma_line_updated(line: Seq<u64>, col: int, value: u64)
    requires
        0 <= col < line.len(),
        line[col] == 0,
    ensures
        line_sum(line.update(col, value)) == line_sum(line) + value,
        line_tiles(line.update(col, value)) == line_tiles(line) + if value != 0 {
            1nat
        } else {
            0nat
        },
    decreases line.len(),
{
    if col == line.len() - 1 {
        assert(line.update(col, value).drop_last() =~= line.drop_last());
    } else {
        lemma_line_updated(line.drop_last(), col, value);
        assert(line.update(col, value).drop_last() =~= line.drop_last().update(col, value));
    }
}

/// Placing a value on an empty cell adds it to the sum of the board, and
/// adds a tile if the value is not 0.
pub proof fn lemma_placed(board: Seq<Seq<u64>>, row: int, col: int, value: u64)
    requires
        crate::spawn::is_free(board, row, col),
    ensures
        board_sum(placed(board, row, col, value)) == board_sum(board) + value,
        board_tiles(placed(board, row, col, value)) == board_tiles(board) + if value != 0 {
            1nat
        } else {
            0nat
        },
    decreases board.len(),
{
    let after = placed(board, row, col, value);
    if row == board.len() - 1 {
        assert(after.drop_last() =~= board.drop_last());
        lemma_line_updated(board[row], col, value);
    } else {
        lemma_placed(board.drop_last(), row, col, value);
        assert(after.drop_last() =~= placed(board.drop_last(), row, col, value));
    }
}

} // verus!
