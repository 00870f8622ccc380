//! Rectangular matrices and the two geometric transforms that carry every
//! push to the canonical push to the left: reversing each row and
//! transposing. Each is its own inverse.

use vstd::prelude::*;

verus! {

/// The rows of a matrix as sequences.
pub open spec fn rows<T>(matrix: Seq<Vec<T>>) -> Seq<Seq<T>> {
    Seq::new(matrix.len(), |i: int| matrix[i]@)
}

/// Whether `matrix` has `height` rows of `width` cells each.
pub open spec fn rectangular<T>(matrix: Seq<Seq<T>>, height: nat, width: nat) -> bool {
    &&& matrix.len() == height
    &&& forall|i: int| 0 <= i < height ==> (#[trigger] matrix[i]).len() == width
}

/// The width of a matrix: the length of its first row, 0 if it has none.
pub open spec fn width_of<T>(matrix: Seq<Seq<T>>) -> nat {
    if matrix.len() == 0 {
        0
    } else {
        matrix[0].len()
    }
}

/// A row read from its far end.
pub open spec fn flipped<T>(row: Seq<T>) -> Seq<T> {
    Seq::new(row.len(), |j: int| row[row.len() - 1 - j])
}

/// The matrix with every row reversed.
pub open spec fn mirrored<T>(matrix: Seq<Seq<T>>) -> Seq<Seq<T>> {
    Seq::new(matrix.len(), |i: int| flipped(matrix[i]))
}

/// The matrix with rows and columns exchanged.
pub open spec fn transposed<T>(matrix: Seq<Seq<T>>) -> Seq<Seq<T>> {
    Seq::new(width_of(matrix), |j: int| Seq::new(matrix.len(), |i: int| matrix[i][j]))
}

/// Reversing a row twice gives the row back.
pub proof fn lemma_flipped_twice<T>(row: Seq<T>)
    ensures
        flipped(flipped(row)) == row,
{
    assert(flipped(flipped(row)) =~= row);
}

/// Reversing every row twice gives the matrix back.
pub proof fn lemma_mirrored_twice<T>(matrix: Seq<Seq<T>>)
    ensures
        mirrored(mirrored(matrix)) == matrix,
{
    assert forall|i: int| 0 <= i < matrix.len() implies #[trigger] mirrored(mirrored(matrix))[i]
        == matrix[i] by {
        lemma_flipped_twice(matrix[i]);
    }
    assert(mirrored(mirrored(matrix)) =~= matrix);
}

/// Reversing the rows keeps the shape.
pub proof fn lemma_mirrored_shape<T>(matrix: Seq<Seq<T>>, height: nat, width: nat)
    requires
        rectangular(matrix, height, width),
    ensures
        rectangular(mirrored(matrix), height, width),
{
}

/// Transposing a matrix with at least one row and one column twice gives it back.
pub proof fn lemma_transposed_twice<T>(matrix: Seq<Seq<T>>, height: nat, width: nat)
    requires
        rectangular(matrix, height, width),
        height > 0,
        width > 0,
    ensures
        transposed(transposed(matrix)) == matrix,
{
    let back = transposed(transposed(matrix));
    assert(back.len() == matrix.len());
    assert forall|i: int| 0 <= i < matrix.len() implies #[trigger] back[i] == matrix[i] by {
        assert(back[i] =~= matrix[i]);
    }
    assert(back =~= matrix);
}

/// Reverses a vector in place.
fn reverse_row<T>(row: &mut Vec<T>)
    ensures
        final(row)@ == flipped(old(row)@),
{
    let ghost before = row@;
    let mut turned: Vec<T> = Vec::new();
    while row.len() > 0
        invariant
            row@.len() + turned@.len() == before.len(),
            row@ == before.take(row@.len() as int),
            forall|k: int| 0 <= k < turned@.len() ==> turned@[k] == before[before.len() - 1 - k],
        decreases row@.len(),
    {
        let last = row.pop().unwrap();
        turned.push(last);
    }
    *row = turned;
    assert(row@ =~= flipped(before));
}

/// Reverses every row of `matrix` in place.
pub fn reverse<T>(matrix: &mut [Vec<T>])
    ensures
        rows(final(matrix)@) == mirrored(rows(old(matrix)@)),
{
    let ghost before = matrix@;
    let height = matrix.len();
    let mut i: usize = 0;
    while i < height
        invariant
            i <= height,
            matrix@.len() == height,
            before.len() == height,
            forall|k: int| 0 <= k < i ==> (#[trigger] matrix@[k])@ == flipped(before[k]@),
            forall|k: int| i <= k < height ==> #[trigger] matrix@[k] == before[k],
        decreases height - i,
    {
        reverse_row(&mut matrix[i]);
        i += 1;
    }
    assert(rows(matrix@) =~= mirrored(rows(before)));
}

/// Exchanges the rows and columns of `matrix`.
pub fn transpose<T: Copy>(matrix: &mut Vec<Vec<T>>)
    requires
        old(matrix)@.len() > 0,
        rectangular(rows(old(matrix)@), old(matrix)@.len(), old(matrix)@[0]@.len()),
    ensures
        rows(final(matrix)@) == transposed(rows(old(matrix)@)),
{
    let ghost before = rows(matrix@);
    let height = matrix.len();
    let width = matrix[0].len();
    let mut turned: Vec<Vec<T>> = Vec::new();
    let mut j: usize = 0;
    while j < width
        invariant
            j <= width,
            height > 0,
            matrix@.len() == height,
            before == rows(matrix@),
            rectangular(before, height as nat, width as nat),
            turned@.len() == j,
            forall|k: int| 0 <= k < j ==> (#[trigger] turned@[k])@ == transposed(before)[k],
        decreases width - j,
    {
        let mut column: Vec<T> = Vec::new();
        let mut i: usize = 0;
        while i < height
            invariant
                i <= height,
                j < width,
                matrix@.len() == height,
                before == rows(matrix@),
                rectangular(before, height as nat, width as nat),
                column@.len() == i,
                forall|k: int| 0 <= k < i ==> #[trigger] column@[k] == before[k][j as int],
            decreases height - i,
        {
            assert(before[i as int] == matrix@[i as int]@);
            assert(before[i as int].len() == width);
            column.push(matrix[i][j]);
            i += 1;
        }
        assert(column@ =~= transposed(before)[j as int]);
        turned.push(column);
        j += 1;
    }
    *matrix = turned;
    assert(rows(matrix@) =~= transposed(before));
}

} // verus!
