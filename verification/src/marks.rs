//! Grids of marks: which cells a search has seen, and how many.

use vstd::prelude::*;
use crate::counting::{lemma_sum_over_bound, lemma_sum_over_update, sum_over};

verus! {

/// The grid has `rows` rows of `cols` cells.
pub open spec fn marks_shape(marks: Seq<Vec<bool>>, rows: int, cols: int) -> bool {
    &&& marks.len() == rows
    &&& forall|r: int| 0 <= r < rows ==> (#[trigger] marks[r]).len() == cols
}

/// The mark of a cell.
pub open spec fn mark_at(marks: Seq<Vec<bool>>, cell: (int, int)) -> bool {
    marks[cell.0]@[cell.1]
}

/// The number of marks in a row.
pub open spec fn row_marked(row: Seq<bool>) -> nat {
    sum_over(row, |mark: bool| if mark { 1nat } else { 0nat })
}

/// The number of marks in the grid.
pub open spec fn marked(marks: Seq<Vec<bool>>) -> nat {
    sum_over(marks, |row: Vec<bool>| row_marked(row@))
}

/// The second grid is the first with the cell marked.
pub open spec fn mark_set(before: Seq<Vec<bool>>, after: Seq<Vec<bool>>, cell: (int, int)) -> bool {
    &&& after.len() == before.len()
    &&& after[cell.0]@ == before[cell.0]@.update(cell.1, true)
    &&& forall|r: int| 0 <= r < before.len() && r != cell.0 ==> #[trigger] after[r] == before[r]
}

/// A grid holds at most one mark per cell.
pub proof fn lemma_marked_bound(marks: Seq<Vec<bool>>, rows: int, cols: int)
    requires
        marks_shape(marks, rows, cols),
        rows >= 0,
        cols >= 0,
    ensures
        marked(marks) <= rows * cols,
{
    let per_row = |row: Vec<bool>| row_marked(row@);
    let per_cell = |mark: bool| if mark { 1nat } else { 0nat };
    assert forall|r: int| 0 <= r < marks.len() implies per_row(#[trigger] marks[r]) <= cols by {
        lemma_sum_over_bound(marks[r]@, per_cell, 1);
    }
    lemma_sum_over_bound(marks, per_row, cols as nat);
}

/// A grid without marks has none to count.
pub proof fn lemma_marked_none(marks: Seq<Vec<bool>>, rows: int, cols: int)
    requires
        marks_shape(marks, rows, cols),
        forall|r: int, c: int| 0 <= r < rows && 0 <= c < cols ==> !(#[trigger] marks[r]@[c]),
    ensures
        marked(marks) == 0,
{
    let per_row = |row: Vec<bool>| row_marked(row@);
    let per_cell = |mark: bool| if mark { 1nat } else { 0nat };
    assert forall|r: int| 0 <= r < marks.len() implies per_row(#[trigger] marks[r]) <= 0 by {
        assert forall|c: int| 0 <= c < marks[r]@.len() implies per_cell(
            #[trigger] marks[r]@[c],
        ) <= 0 by {}
        lemma_sum_over_bound(marks[r]@, per_cell, 0);
    }
    lemma_sum_over_bound(marks, per_row, 0);
}

/// Marking a cell adds one to the count unless the cell was marked.
pub proof fn lemma_mark_set(
    before: Seq<Vec<bool>>,
    after: Seq<Vec<bool>>,
    rows: int,
    cols: int,
    cell: (int, int),
)
    requires
        marks_shape(before, rows, cols),
        0 <= cell.0 < rows,
        0 <= cell.1 < cols,
        mark_set(before, after, cell),
    ensures
        marks_shape(after, rows, cols),
        marked(after) == marked(before) + (if mark_at(before, cell) { 0nat } else { 1nat }),
        mark_at(after, cell),
        forall|other: (int, int)|
            0 <= other.0 < rows && 0 <= other.1 < cols && other != cell ==> mark_at(after, other)
                == mark_at(before, other),
{
    let per_row = |row: Vec<bool>| row_marked(row@);
    let per_cell = |mark: bool| if mark { 1nat } else { 0nat };
    assert(after =~= before.update(cell.0, after[cell.0]));
    lemma_sum_over_update(before, cell.0, after[cell.0], per_row);
    lemma_sum_over_update(before[cell.0]@, cell.1, true, per_cell);
    assert forall|r: int| 0 <= r < rows implies (#[trigger] after[r]).len() == cols by {
        if r != cell.0 {
            assert(after[r] == before[r]);
        }
    }
    assert forall|other: (int, int)|
        0 <= other.0 < rows && 0 <= other.1 < cols && other != cell implies mark_at(after, other)
        == mark_at(before, other) by {
        if other.0 != cell.0 {
            assert(after[other.0] == before[other.0]);
        }
    }
}

/// A grid of the given size without marks.
pub(crate) fn blank_marks(rows: usize, cols: usize) -> (marks: Vec<Vec<bool>>)
    ensures
        marks_shape(marks@, rows as int, cols as int),
        forall|r: int, c: int| 0 <= r < rows && 0 <= c < cols ==> !(#[trigger] marks@[r]@[c]),
{
    let marks: Vec<Vec<bool>> = vec![vec![false; cols]; rows];
    marks
}

/// Marks a cell.
pub(crate) fn set_mark(marks: &mut Vec<Vec<bool>>, row: usize, col: usize)
    requires
        row < old(marks)@.len(),
        col < old(marks)@[row as int].len(),
    ensures
        mark_set(old(marks)@, final(marks)@, (row as int, col as int)),
{
    marks[row][col] = true;
}

/// Whether a cell is marked.
pub(crate) fn get_mark(marks: &Vec<Vec<bool>>, row: usize, col: usize) -> (mark: bool)
    requires
        row < marks@.len(),
        col < marks@[row as int].len(),
    ensures
        mark == mark_at(marks@, (row as int, col as int)),
{
    marks[row][col]
}

} // verus!
