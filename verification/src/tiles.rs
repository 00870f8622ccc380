//! The canonical push to the left on one row of tiles: slide the tiles to the
//! front, merge equal neighbours once, slide again.

use vstd::prelude::*;
use vstd::arithmetic::power2::is_pow2;
use crate::pair::Pair;

verus! {

/// One cell of the grid while a push is worked out: the value it holds
/// (0 if it holds no tile) and where that tile came from.
#[derive(Clone, Copy, Debug)]
pub struct Tile {
    pub value: u64,
    pub origin: Pair,
}

/// What a cell can hold: nothing, or a tile worth a power of two from 2 on.
pub open spec fn is_cell_value(value: u64) -> bool {
    value == 0 || (value >= 2 && is_pow2(value as int))
}

/// Whether every cell of the row has the property.
pub open spec fn each(row: Seq<Tile>, property: spec_fn(Tile) -> bool) -> bool {
    forall|j: int| 0 <= j < row.len() ==> property(#[trigger] row[j])
}

/// The cell without a tile.
pub open spec fn blank() -> Tile {
    Tile { value: 0, origin: Pair::empty() }
}

/// A row is tidy when its cells without a tile carry no origin either.
pub open spec fn tidy(row: Seq<Tile>) -> bool {
    forall|j: int| 0 <= j < row.len() && (#[trigger] row[j]).value == 0 ==> row[j] == blank()
}

/// The tiles of a row, in order, without the empty cells between them.
pub open spec fn kept(row: Seq<Tile>) -> Seq<Tile>
    decreases row.len(),
{
    if row.len() == 0 {
        Seq::empty()
    } else if row.last().value != 0 {
        kept(row.drop_last()).push(row.last())
    } else {
        kept(row.drop_last())
    }
}

/// `n` empty cells.
pub open spec fn blanks(n: nat) -> Seq<Tile> {
    Seq::new(n, |j: int| blank())
}

/// The row after sliding: its tiles in their order at the front, empty cells behind.
pub open spec fn slid(row: Seq<Tile>) -> Seq<Tile> {
    kept(row) + blanks((row.len() - kept(row).len()) as nat)
}

/// The tile that two equal neighbours merge into: twice the value, with the
/// origins of both, those of the left tile first.
pub open spec fn fused(left: Tile, right: Tile) -> Tile {
    Tile { value: (2 * left.value) as u64, origin: left.origin.absorbed(right.origin) }
}

/// The row after one merging scan from the left: wherever two neighbours hold
/// equal tiles, the left cell takes the merged tile and the right cell
/// becomes empty; the scan then goes on behind that pair, so a merged tile
/// does not merge again.
pub open spec fn merged(row: Seq<Tile>) -> Seq<Tile>
    decreases row.len(),
{
    if row.len() < 2 {
        row
    } else if row[0].value != 0 && row[0].value == row[1].value {
        seq![fused(row[0], row[1]), blank()] + merged(row.skip(2))
    } else {
        seq![row[0]] + merged(row.skip(1))
    }
}

/// What the merging scan adds to the score: the value of every merged tile.
pub open spec fn gain(row: Seq<Tile>) -> nat
    decreases row.len(),
{
    if row.len() < 2 {
        0
    } else if row[0].value != 0 && row[0].value == row[1].value {
        (2 * row[0].value) as nat + gain(row.skip(2))
    } else {
        gain(row.skip(1))
    }
}

/// The sum of the values in a row.
pub open spec fn row_sum(row: Seq<Tile>) -> nat
    decreases row.len(),
{
    if row.len() == 0 {
        0
    } else {
        row_sum(row.drop_last()) + row.last().value as nat
    }
}

/// The origins that the tiles of a row carry, in the order of the row.
pub open spec fn sources(row: Seq<Tile>) -> Seq<(usize, usize)>
    decreases row.len(),
{
    if row.len() == 0 {
        Seq::empty()
    } else {
        sources(row.drop_last()) + row.last().origin.listed()
    }
}

/// Whether a cell is as it is when a push starts: with at most one origin,
/// and with none if it holds no tile.
pub open spec fn fresh(tile: Tile) -> bool {
    tile.origin.second is None && (tile.value == 0 ==> tile == blank())
}

/// A row pushed to the left.
pub open spec fn push_row(row: Seq<Tile>) -> Seq<Tile> {
    slid(merged(slid(row)))
}

/// Whether every cell of the row holds a tile.
pub open spec fn full(row: Seq<Tile>) -> bool {
    forall|j: int| 0 <= j < row.len() ==> (#[trigger] row[j]).value != 0
}

/// Moves every origin of `source` into `target`, the most recent first.
fn drain(source: &mut Pair, target: &mut Pair)
    ensures
        *final(target) == old(target).absorbed(*old(source)),
        *final(source) == Pair::empty(),
{
    let ghost goal = target.absorbed(*source);
    loop
        invariant
            target.absorbed(*source) == goal,
        ensures
            *target == goal,
            *source == Pair::empty(),
        decreases source.count(),
    {
        match source.pop() {
            Some(coord) => {
                target.push(coord);
            },
            None => {
                break ;
            },
        }
    }
}

/// Slides the tiles of a row to its front, keeping their order.
pub fn slide_row(row: &mut Vec<Tile>)
    requires
        tidy(old(row)@),
    ensures
        final(row)@ == slid(old(row)@),
        tidy(final(row)@),
{
    let ghost before = row@;
    let n = row.len();
    let mut free: usize = 0;
    let mut j: usize = 0;
    while j < n
        invariant
            free <= j <= n,
            row@.len() == n,
            before.len() == n,
            row@.take(free as int) == kept(before.take(j as int)),
            forall|k: int| 0 <= k < free ==> (#[trigger] row@[k]).value != 0,
            forall|k: int| free <= k < j ==> #[trigger] row@[k] == blank(),
            forall|k: int| j <= k < n ==> #[trigger] row@[k] == before[k],
            tidy(before),
        decreases n - j,
    {
        let ghost prefix = row@.take(free as int);
        proof {
            assert(before.take(j + 1) =~= before.take(j as int).push(before[j as int]));
            lemma_kept_push(before.take(j as int), before[j as int]);
        }
        let tile = row[j];
        if tile.value != 0 {
            if free < j {
                let gap = row[free];
                row[free] = tile;
                row[j] = gap;
            }
            assert(row@.take(free + 1) =~= prefix.push(tile));
            free += 1;
        } else {
            assert(row@.take(free as int) =~= prefix);
        }
        j += 1;
    }
    proof {
        assert(before.take(n as int) =~= before);
        assert(row@ =~= slid(before));
    }
}

/// Merges equal neighbours of a row in one scan from the left and adds the
/// value of every merged tile to `score`.
pub fn merge_row(row: &mut Vec<Tile>, score: &mut u64)
    requires
        tidy(old(row)@),
        *old(score) + gain(old(row)@) <= u64::MAX,
    ensures
        final(row)@ == merged(old(row)@),
        *final(score) == *old(score) + gain(old(row)@),
        tidy(final(row)@),
{
    let ghost before = row@;
    let ghost start = *score;
    let ghost done: int = 0;
    let n = row.len();
    let mut j: usize = 0;
    assert(before.skip(0) =~= before);
    assert(row@.take(0) + merged(before) =~= merged(before));
    while n - j > 1
        invariant
            row@.len() == n,
            before.len() == n,
            j <= n,
            done == j || done == j + 1,
            done <= n,
            done == j + 1 ==> row@[j as int].value == 0,
            row@.take(done) + merged(before.skip(done)) == merged(before),
            forall|k: int| done <= k < n ==> #[trigger] row@[k] == before[k],
            *score + gain(before.skip(done)) == start + gain(before),
            start + gain(before) <= u64::MAX,
            tidy(row@),
        decreases n - j,
    {
        let ghost prefix = row@.take(done);
        let ghost rest = before.skip(done);
        let left = row[j];
        let right = row[j + 1];
        if left.value != 0 && left.value == right.value {
            proof {
                assert(done == j);
                assert(rest[0] == left && rest[1] == right);
                assert(rest.skip(2) =~= before.skip(done + 2));
            }
            let mut origin = left.origin;
            let mut other = right.origin;
            drain(&mut other, &mut origin);
            let value = left.value * 2;
            *score = *score + value;
            row[j] = Tile { value, origin };
            row[j + 1] = Tile { value: 0, origin: other };
            proof {
                assert(row@.take(done + 2) =~= prefix + seq![fused(left, right), blank()]);
                assert(row@.take(done + 2) + merged(before.skip(done + 2)) =~= prefix + merged(
                    rest,
                ));
                done = done + 2;
            }
        } else {
            proof {
                if done == j {
                    assert(rest[0] == left && rest[1] == right);
                    assert(rest.skip(1) =~= before.skip(done + 1));
                    assert(row@.take(done + 1) =~= prefix + seq![left]);
                    assert(row@.take(done + 1) + merged(before.skip(done + 1)) =~= prefix
                        + merged(rest));
                    done = done + 1;
                }
            }
        }
        j += 1;
    }
    proof {
        assert(merged(before.skip(done)) == before.skip(done));
        assert(row@ =~= row@.take(done) + before.skip(done));
    }
}

/// The tiles of a row with one more cell: those of the row, and the new
/// cell's tile if it holds one.
pub proof fn lemma_kept_push(row: Seq<Tile>, tile: Tile)
    ensures
        kept(row.push(tile)) == if tile.value != 0 {
            kept(row).push(tile)
        } else {
            kept(row)
        },
{
    assert(row.push(tile).drop_last() =~= row);
}

/// A row has at most as many tiles as cells.
pub proof fn lemma_kept_len(row: Seq<Tile>)
    ensures
        kept(row).len() <= row.len(),
    decreases row.len(),
{
    if row.len() > 0 {
        lemma_kept_len(row.drop_last());
    }
}

/// Sliding keeps the length of the row.
pub proof fn lemma_slid_len(row: Seq<Tile>)
    ensures
        slid(row).len() == row.len(),
{
    lemma_kept_len(row);
}

/// The merging scan keeps the length of the row.
pub proof fn lemma_merged_len(row: Seq<Tile>)
    ensures
        merged(row).len() == row.len(),
    decreases row.len(),
{
    if row.len() >= 2 {
        if row[0].value != 0 && row[0].value == row[1].value {
            lemma_merged_len(row.skip(2));
        } else {
            lemma_merged_len(row.skip(1));
        }
    }
}

/// A row with as many tiles as cells is left unchanged by `kept`.
pub proof fn lemma_kept_all(row: Seq<Tile>)
    requires
        kept(row).len() == row.len(),
    ensures
        kept(row) == row,
    decreases row.len(),
{
    if row.len() > 0 {
        lemma_kept_len(row.drop_last());
        lemma_kept_all(row.drop_last());
        assert(row.drop_last().push(row.last()) =~= row);
    } else {
        assert(kept(row) =~= row);
    }
}

/// A row that is full after sliding was full before, and sliding left it unchanged.
pub proof fn lemma_slid_full(row: Seq<Tile>)
    requires
        full(slid(row)),
    ensures
        slid(row) == row,
{
    lemma_kept_len(row);
    if kept(row).len() < row.len() {
        assert(slid(row)[kept(row).len() as int] == blank());
    }
    lemma_kept_all(row);
    assert(slid(row) =~= row);
}

/// A row that is full after the merging scan had nothing to merge.
pub proof fn lemma_merged_full(row: Seq<Tile>)
    requires
        full(merged(row)),
    ensures
        merged(row) == row,
        gain(row) == 0,
    decreases row.len(),
{
    if row.len() >= 2 {
        if row[0].value != 0 && row[0].value == row[1].value {
            assert(merged(row)[1] == blank());
        } else {
            let rest = merged(row.skip(1));
            assert forall|j: int| 0 <= j < rest.len() implies (#[trigger] rest[j]).value != 0 by {
                assert(merged(row)[j + 1] == rest[j]);
            }
            lemma_merged_full(row.skip(1));
            assert(seq![row[0]] + row.skip(1) =~= row);
        }
    }
}

/// A row that is full after a push to the left was left unchanged by it.
pub proof fn lemma_push_row_full(row: Seq<Tile>)
    requires
        full(push_row(row)),
    ensures
        push_row(row) == row,
        gain(slid(row)) == 0,
{
    lemma_slid_full(merged(slid(row)));
    lemma_merged_full(slid(row));
    lemma_slid_full(row);
}

/// The new tiles, 2 and 4, are powers of two.
pub proof fn lemma_new_tiles_are_cell_values()
    ensures
        is_cell_value(2),
        is_cell_value(4),
{
    reveal_with_fuel(is_pow2, 3);
}

/// Twice a tile's value is a tile's value, if it fits.
pub proof fn lemma_double_is_cell_value(value: u64)
    requires
        is_cell_value(value),
        2 * value <= u64::MAX,
    ensures
        is_cell_value((2 * value) as u64),
{
    reveal_with_fuel(is_pow2, 2);
}

/// A property of every cell of a row is a property of every tile of it.
pub proof fn lemma_kept_each(row: Seq<Tile>, property: spec_fn(Tile) -> bool)
    requires
        each(row, property),
    ensures
        each(kept(row), property),
    decreases row.len(),
{
    if row.len() > 0 {
        assert(each(row.drop_last(), property)) by {
            assert forall|j: int| 0 <= j < row.drop_last().len() implies property(
                #[trigger] row.drop_last()[j],
            ) by {
                assert(row.drop_last()[j] == row[j]);
            }
        }
        lemma_kept_each(row.drop_last(), property);
        assert(property(row[row.len() - 1]));
    }
}

/// A property of every cell of a row and of the empty cell is a property of
/// every cell of the row after sliding.
pub proof fn lemma_slid_each(row: Seq<Tile>, property: spec_fn(Tile) -> bool)
    requires
        each(row, property),
        property(blank()),
    ensures
        each(slid(row), property),
{
    lemma_kept_each(row, property);
    lemma_kept_len(row);
}

/// After the merging scan every cell is empty, or holds a tile that the row
/// held, or a tile merged from two equal tiles that the row held. So what
/// holds of all of these holds of every cell of the merged row. The merged
/// tiles are worth at most the gain of the row.
pub proof fn lemma_merged_each(
    row: Seq<Tile>,
    before: spec_fn(Tile) -> bool,
    after: spec_fn(Tile) -> bool,
)
    requires
        each(row, before),
        after(blank()),
        forall|tile: Tile| #[trigger] before(tile) ==> after(tile),
        forall|left: Tile, right: Tile|
            before(left) && before(right) && left.value != 0 && left.value == right.value && 2
                * left.value <= gain(row) ==> after(#[trigger] fused(left, right)),
    ensures
        each(merged(row), after),
    decreases row.len(),
{
    if row.len() >= 2 {
        let merges = row[0].value != 0 && row[0].value == row[1].value;
        let rest = if merges {
            row.skip(2)
        } else {
            row.skip(1)
        };
        let shift = row.len() - rest.len();
        assert(each(rest, before)) by {
            assert forall|j: int| 0 <= j < rest.len() implies before(#[trigger] rest[j]) by {
                assert(rest[j] == row[j + shift]);
            }
        }
        assert(gain(rest) <= gain(row));
        lemma_merged_each(rest, before, after);
        assert(before(row[0]) && before(row[1]));
        assert forall|j: int| 0 <= j < merged(row).len() implies after(#[trigger] merged(row)[j]) by {
            if j >= shift {
                assert(merged(row)[j] == merged(rest)[j - shift]);
            }
        }
    } else {
        assert forall|j: int| 0 <= j < merged(row).len() implies after(#[trigger] merged(row)[j]) by {
            assert(before(row[j]));
        }
    }
}

/// The tiles of two rows put together are the tiles of the one, then those
/// of the other.
pub proof fn lemma_kept_concat(left: Seq<Tile>, right: Seq<Tile>)
    ensures
        kept(left + right) == kept(left) + kept(right),
    decreases right.len(),
{
    if right.len() == 0 {
        assert(left + right =~= left);
        assert(kept(left) + kept(right) =~= kept(left));
    } else {
        lemma_kept_concat(left, right.drop_last());
        assert((left + right).drop_last() =~= left + right.drop_last());
        if right.last().value != 0 {
            assert(kept(left + right) =~= kept(left) + kept(right));
        }
    }
}

/// A full row is left unchanged by `kept`.
pub proof fn lemma_kept_of_full(row: Seq<Tile>)
    requires
        full(row),
    ensures
        kept(row) == row,
    decreases row.len(),
{
    if row.len() > 0 {
        lemma_kept_of_full(row.drop_last());
        assert(row.drop_last().push(row.last()) =~= row);
    } else {
        assert(kept(row) =~= row);
    }
}

/// Sliding keeps the tiles of a row, and their order.
pub proof fn lemma_kept_of_slid(row: Seq<Tile>)
    ensures
        kept(slid(row)) == kept(row),
{
    let gaps = blanks((row.len() - kept(row).len()) as nat);
    lemma_kept_concat(kept(row), gaps);
    lemma_kept_occupied(row);
    lemma_kept_of_full(kept(row));
    lemma_kept_of_blanks(gaps.len());
    assert(kept(row) + Seq::<Tile>::empty() =~= kept(row));
}

/// Every tile that `kept` keeps is a tile.
pub proof fn lemma_kept_occupied(row: Seq<Tile>)
    ensures
        full(kept(row)),
    decreases row.len(),
{
    if row.len() > 0 {
        lemma_kept_occupied(row.drop_last());
    }
}

/// Empty cells hold no tiles.
pub proof fn lemma_kept_of_blanks(n: nat)
    ensures
        kept(blanks(n)) == Seq::<Tile>::empty(),
    decreases n,
{
    if n > 0 {
        lemma_kept_of_blanks((n - 1) as nat);
        assert(blanks(n).drop_last() =~= blanks((n - 1) as nat));
    }
}

/// The merging scan adds no tile, and where it adds to the score it leaves
/// fewer tiles than there were, if the merged values fit their type.
pub proof fn lemma_merged_count(row: Seq<Tile>)
    requires
        gain(row) <= u64::MAX,
    ensures
        kept(merged(row)).len() <= kept(row).len(),
        gain(row) > 0 ==> kept(merged(row)).len() < kept(row).len(),
    decreases row.len(),
{
    if row.len() >= 2 {
        if row[0].value != 0 && row[0].value == row[1].value {
            let head = seq![fused(row[0], row[1]), blank()];
            let rest = row.skip(2);
            lemma_merged_count(rest);
            lemma_kept_concat(head, merged(rest));
            lemma_kept_concat(seq![row[0], row[1]], rest);
            assert(seq![row[0], row[1]] + rest =~= row);
            reveal_with_fuel(kept, 3);
            assert(kept(head).len() == 1);
            assert(kept(seq![row[0], row[1]]).len() == 2);
        } else {
            let rest = row.skip(1);
            lemma_merged_count(rest);
            lemma_kept_concat(seq![row[0]], merged(rest));
            lemma_kept_concat(seq![row[0]], rest);
            assert(seq![row[0]] + rest =~= row);
        }
    }
}

/// Rows that hold the same values hold the same number of tiles.
pub proof fn lemma_kept_len_by_values(left: Seq<Tile>, right: Seq<Tile>)
    requires
        left.len() == right.len(),
        forall|j: int| 0 <= j < left.len() ==> (#[trigger] left[j]).value == right[j].value,
    ensures
        kept(left).len() == kept(right).len(),
    decreases left.len(),
{
    if left.len() > 0 {
        assert forall|j: int| 0 <= j < left.drop_last().len() implies (#[trigger] left.drop_last()[j]).value
            == right.drop_last()[j].value by {
            assert(left.drop_last()[j] == left[j]);
        }
        lemma_kept_len_by_values(left.drop_last(), right.drop_last());
        assert(left[left.len() - 1].value == right[left.len() - 1].value);
    }
}

/// A push to the left that adds to the score leaves fewer tiles in the row
/// than there were, if the merged values fit their type.
pub proof fn lemma_push_row_count(row: Seq<Tile>)
    requires
        gain(slid(row)) <= u64::MAX,
    ensures
        kept(push_row(row)).len() <= kept(row).len(),
        gain(slid(row)) > 0 ==> kept(push_row(row)).len() < kept(row).len(),
{
    lemma_kept_of_slid(row);
    lemma_merged_count(slid(row));
    lemma_kept_of_slid(merged(slid(row)));
}

/// The origins of two rows put together are those of the one, then those of
/// the other.
pub proof fn lemma_sources_concat(left: Seq<Tile>, right: Seq<Tile>)
    ensures
        sources(left + right) == sources(left) + sources(right),
    decreases right.len(),
{
    if right.len() == 0 {
        assert(left + right =~= left);
        assert(sources(left) + sources(right) =~= sources(left));
    } else {
        lemma_sources_concat(left, right.drop_last());
        assert((left + right).drop_last() =~= left + right.drop_last());
        assert(sources(left + right) =~= sources(left) + sources(right));
    }
}

/// In a tidy row the tiles carry all the origins.
pub proof fn lemma_sources_kept(row: Seq<Tile>)
    requires
        tidy(row),
    ensures
        sources(kept(row)) == sources(row),
    decreases row.len(),
{
    if row.len() > 0 {
        assert(tidy(row.drop_last())) by {
            assert forall|j: int|
                0 <= j < row.drop_last().len() && (#[trigger] row.drop_last()[j]).value
                    == 0 implies row.drop_last()[j] == blank() by {
                assert(row.drop_last()[j] == row[j]);
            }
        }
        lemma_sources_kept(row.drop_last());
        if row.last().value != 0 {
            assert(kept(row).drop_last() =~= kept(row.drop_last()));
        } else {
            assert(row[row.len() - 1] == blank());
            assert(sources(row.drop_last()) + blank().origin.listed() =~= sources(
                row.drop_last(),
            ));
        }
    }
}

/// Empty cells carry no origins.
pub proof fn lemma_sources_blanks(n: nat)
    ensures
        sources(blanks(n)) == Seq::<(usize, usize)>::empty(),
    decreases n,
{
    if n > 0 {
        lemma_sources_blanks((n - 1) as nat);
        assert(blanks(n).drop_last() =~= blanks((n - 1) as nat));
        assert(sources(blanks(n)) =~= Seq::<(usize, usize)>::empty());
    }
}

/// Sliding a tidy row keeps the origins and their order.
pub proof fn lemma_sources_slid(row: Seq<Tile>)
    requires
        tidy(row),
    ensures
        sources(slid(row)) == sources(row),
{
    let gaps = blanks((row.len() - kept(row).len()) as nat);
    lemma_sources_kept(row);
    lemma_sources_blanks(gaps.len());
    lemma_sources_concat(kept(row), gaps);
    assert(sources(kept(row)) + Seq::<(usize, usize)>::empty() =~= sources(kept(row)));
}

/// The merging scan keeps the origins and their order: a merged tile carries
/// the origin of its left tile, then that of its right tile.
pub proof fn lemma_sources_merged(row: Seq<Tile>)
    requires
        each(row, |tile: Tile| fresh(tile)),
    ensures
        sources(merged(row)) == sources(row),
    decreases row.len(),
{
    let is_fresh = |tile: Tile| fresh(tile);
    if row.len() >= 2 {
        let merges = row[0].value != 0 && row[0].value == row[1].value;
        let rest = if merges {
            row.skip(2)
        } else {
            row.skip(1)
        };
        let shift = row.len() - rest.len();
        assert(each(rest, is_fresh)) by {
            assert forall|j: int| 0 <= j < rest.len() implies is_fresh(#[trigger] rest[j]) by {
                assert(rest[j] == row[j + shift]);
            }
        }
        lemma_sources_merged(rest);
        assert(is_fresh(row[0]) && is_fresh(row[1]));
        reveal_with_fuel(sources, 3);
        if merges {
            let head = seq![fused(row[0], row[1]), blank()];
            let old_head = seq![row[0], row[1]];
            lemma_sources_concat(head, merged(rest));
            lemma_sources_concat(old_head, rest);
            assert(old_head + rest =~= row);
            assert(head.drop_last() =~= seq![fused(row[0], row[1])]);
            assert(old_head.drop_last() =~= seq![row[0]]);
            assert(sources(head) =~= sources(old_head));
        } else {
            lemma_sources_concat(seq![row[0]], merged(rest));
            lemma_sources_concat(seq![row[0]], rest);
            assert(seq![row[0]] + rest =~= row);
        }
    }
}

/// A push to the left keeps the origins of a row and their order, if the
/// merged values fit their type: no tile is lost, none is counted twice, and
/// no tile passes another.
pub proof fn lemma_sources_push_row(row: Seq<Tile>)
    requires
        each(row, |tile: Tile| fresh(tile)),
        gain(slid(row)) <= u64::MAX,
    ensures
        sources(push_row(row)) == sources(row),
{
    let is_fresh = |tile: Tile| fresh(tile);
    let is_tidy = |tile: Tile| tile.value == 0 ==> tile == blank();
    assert(tidy(row)) by {
        assert forall|j: int| 0 <= j < row.len() && (#[trigger] row[j]).value == 0 implies row[j]
            == blank() by {
            assert(is_fresh(row[j]));
        }
    }
    lemma_sources_slid(row);
    lemma_slid_each(row, is_fresh);
    lemma_sources_merged(slid(row));
    lemma_merged_each(slid(row), is_fresh, is_tidy);
    let scanned = merged(slid(row));
    assert(tidy(scanned)) by {
        assert forall|j: int| 0 <= j < scanned.len() && (#[trigger] scanned[j]).value
            == 0 implies scanned[j] == blank() by {
            assert(is_tidy(scanned[j]));
        }
    }
    lemma_sources_slid(scanned);
}

} // verus!
