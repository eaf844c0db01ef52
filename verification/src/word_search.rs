//! Searching a grid of letters for the word XMAS, and for two MAS that
//! cross in the shape of an X.

use vstd::prelude::*;
use crate::counting::{at_row, lemma_sum_grid_partial, row_sums, sum_below, sum_grid};

verus! {

/// The grid is a rectangle with at least one row, small enough for its
/// positions to be signed 64-bit numbers.
pub open spec fn letters_valid(input: Seq<Vec<char>>) -> bool {
    &&& input.len() > 0
    &&& input.len() + 3 <= i64::MAX
    &&& input[0].len() + 3 <= i64::MAX
    &&& forall|r: int| 0 <= r < input.len() ==> (#[trigger] input[r]).len() == input[0].len()
}

/// The letter at a position, if the position lies in the grid.
pub open spec fn letter_at(input: Seq<Vec<char>>, row: int, col: int) -> Option<char> {
    if 0 <= row < input.len() && 0 <= col < input[0].len() {
        Some(input[row]@[col])
    } else {
        None
    }
}

/// The eight directions, row by row from the upper left.
pub open spec fn direction(index: int) -> (int, int) {
    if index == 0 {
        (-1, -1)
    } else if index == 1 {
        (-1, 0)
    } else if index == 2 {
        (-1, 1)
    } else if index == 3 {
        (0, -1)
    } else if index == 4 {
        (0, 1)
    } else if index == 5 {
        (1, -1)
    } else if index == 6 {
        (1, 0)
    } else {
        (1, 1)
    }
}

/// The word that is looked for.
pub open spec fn reference() -> Seq<char> {
    seq!['X', 'M', 'A', 'S']
}

/// The first `len` letters of the word stand in the grid, from the position
/// on in the direction.
pub open spec fn word_from(input: Seq<Vec<char>>, row: int, col: int, dir: (int, int), len: int) -> bool {
    forall|k: int|
        0 <= k < len ==> letter_at(input, row + dir.0 * k, col + dir.1 * k) == Some(
            #[trigger] reference()[k],
        )
}

/// In how many of the first `upto` directions the word stands from the
/// position on.
pub open spec fn words_from(input: Seq<Vec<char>>, row: int, col: int, upto: nat) -> nat
    decreases upto,
{
    if upto == 0 {
        0
    } else {
        words_from(input, row, col, (upto - 1) as nat) + (if word_from(
            input,
            row,
            col,
            direction(upto - 1),
            4,
        ) {
            1nat
        } else {
            0nat
        })
    }
}

/// How often the word stands in the grid, in any of the eight directions.
pub open spec fn xmas_count(input: Seq<Vec<char>>) -> nat {
    sum_grid(input.len(), input[0]@.len(), |row: int, col: int| words_from(input, row, col, 8))
}

/// Counts how often XMAS stands in the grid: forwards or backwards, along
/// a row, a column or a diagonal.
pub fn solve_a(input: &Vec<Vec<char>>) -> (num_matches: u64)
    requires
        letters_valid(input@),
        xmas_count(input@) <= u64::MAX,
    ensures
        num_matches == xmas_count(input@),
{
    let num_cols = input[0].len() as i64;
    let num_rows = input.len() as i64;
    let ghost per_cell = |row: int, col: int| words_from(input@, row, col, 8);
    let ghost rows: nat = input@.len();
    let ghost cols: nat = input@[0]@.len();

    let mut num_matches: u64 = 0;

    let mut base_row: i64 = 0;
    while base_row < num_rows
        invariant
            0 <= base_row <= num_rows,
            num_rows == rows,
            num_cols == cols,
            rows == input@.len(),
            cols == input@[0]@.len(),
            letters_valid(input@),
            per_cell == (|row: int, col: int| words_from(input@, row, col, 8)),
            sum_grid(rows, cols, per_cell) <= u64::MAX,
            num_matches == sum_below(base_row as nat, row_sums(cols, per_cell)),
        decreases num_rows - base_row,
    {
        let ghost above = num_matches;
        let mut base_col: i64 = 0;
        while base_col < num_cols
            invariant
                0 <= base_row < num_rows,
                0 <= base_col <= num_cols,
                num_rows == rows,
                num_cols == cols,
                rows == input@.len(),
                cols == input@[0]@.len(),
                letters_valid(input@),
                per_cell == (|row: int, col: int| words_from(input@, row, col, 8)),
                sum_grid(rows, cols, per_cell) <= u64::MAX,
                above == sum_below(base_row as nat, row_sums(cols, per_cell)),
                num_matches == above + sum_below(base_col as nat, at_row(per_cell, base_row as int)),
            decreases num_cols - base_col,
        {
            let ghost before = num_matches;
            proof {
                lemma_sum_grid_partial(rows, cols, per_cell, base_row as nat, (base_col + 1) as nat);
            }
            let mut dir_idx: usize = 0;
            while dir_idx < 8
                invariant
                    0 <= base_row < num_rows,
                    0 <= base_col < num_cols,
                    num_rows == rows,
                    num_cols == cols,
                    rows == input@.len(),
                    cols == input@[0]@.len(),
                    letters_valid(input@),
                    dir_idx <= 8,
                    before + words_from(input@, base_row as int, base_col as int, 8) <= u64::MAX,
                    num_matches == before + words_from(
                        input@,
                        base_row as int,
                        base_col as int,
                        dir_idx as nat,
                    ),
                decreases 8 - dir_idx,
            {
                let (row_off, col_off) = direction_at(dir_idx);
                let mut is_valid = true;
                let mut k: i64 = 0;
                while k < 4
                    invariant_except_break
                        is_valid,
                        word_from(
                            input@,
                            base_row as int,
                            base_col as int,
                            (row_off as int, col_off as int),
                            k as int,
                        ),
                    invariant
                        0 <= k <= 4,
                        0 <= base_row < num_rows,
                        0 <= base_col < num_cols,
                        num_rows == input@.len(),
                        num_cols == input@[0]@.len(),
                        letters_valid(input@),
                        -1 <= row_off <= 1,
                        -1 <= col_off <= 1,
                    ensures
                        is_valid == word_from(
                            input@,
                            base_row as int,
                            base_col as int,
                            (row_off as int, col_off as int),
                            4,
                        ),
                    decreases 4 - k,
                {
                    assert(-3 <= row_off * k <= 3 && -3 <= col_off * k <= 3) by (nonlinear_arith)
                        requires
                            -1 <= row_off <= 1,
                            -1 <= col_off <= 1,
                            0 <= k < 4,
                    ;
                    let row = base_row + row_off * k;
                    let col = base_col + col_off * k;
                    let ghost dir = (row_off as int, col_off as int);
                    assert(row == base_row + dir.0 * k && col == base_col + dir.1 * k);
                    if !(row >= 0 && row < num_rows && col >= 0 && col < num_cols) {
                        is_valid = false;
                        assert(letter_at(input@, row as int, col as int) is None);
                        assert(letter_at(input@, row as int, col as int) != Some(
                            reference()[k as int],
                        ));
                        assert(!word_from(input@, base_row as int, base_col as int, dir, 4));
                        break ;
                    }
                    assert(input@[row as int].len() == input@[0].len());
                    assert(row < input.len() && col < input[0].len());
                    if input[row as usize][col as usize] != reference_letter(k as usize) {
                        is_valid = false;
                        assert(letter_at(input@, row as int, col as int) != Some(
                            reference()[k as int],
                        ));
                        assert(!word_from(input@, base_row as int, base_col as int, dir, 4));
                        break ;
                    }
                    assert(letter_at(input@, row as int, col as int) == Some(reference()[k as int]));
                    assert forall|j: int| 0 <= j < k + 1 implies letter_at(
                        input@,
                        base_row + dir.0 * j,
                        base_col + dir.1 * j,
                    ) == Some(#[trigger] reference()[j]) by {
                        if j < k {
                            assert(word_from(input@, base_row as int, base_col as int, dir, k as int));
                        }
                    }
                    k += 1;
                }

                proof {
                    lemma_words_mono(input@, base_row as int, base_col as int, (dir_idx + 1) as nat, 8);
                }
                if is_valid {
                    num_matches += 1;
                }
                dir_idx += 1;
            }
            base_col += 1;
        }
        proof {
            lemma_sum_grid_partial(rows, cols, per_cell, base_row as nat, cols);
        }
        base_row += 1;
    }

    num_matches
}

/// The direction with the given index.
fn direction_at(index: usize) -> (dir: (i64, i64))
    requires
        index < 8,
    ensures
        (dir.0 as int, dir.1 as int) == direction(index as int),
{
    match index {
        0 => (-1, -1),
        1 => (-1, 0),
        2 => (-1, 1),
        3 => (0, -1),
        4 => (0, 1),
        5 => (1, -1),
        6 => (1, 0),
        _ => (1, 1),
    }
}

/// The letter of the word with the given index.
fn reference_letter(index: usize) -> (letter: char)
    requires
        index < 4,
    ensures
        letter == reference()[index as int],
{
    match index {
        0 => 'X',
        1 => 'M',
        2 => 'A',
        _ => 'S',
    }
}

/// The count of words from a position grows with the number of directions.
pub proof fn lemma_words_mono(input: Seq<Vec<char>>, row: int, col: int, fewer: nat, more: nat)
    requires
        fewer <= more,
    ensures
        words_from(input, row, col, fewer) <= words_from(input, row, col, more),
    decreases more,
{
    if fewer < more {
        lemma_words_mono(input, row, col, fewer, (more - 1) as nat);
    }
}

/// The two letters are an M and an S, in either order.
pub open spec fn is_mas(first: Option<char>, second: Option<char>) -> bool {
    (first == Some('M') && second == Some('S')) || (first == Some('S') && second == Some('M'))
}

/// An A stands at the position, with an M and an S at the ends of either
/// diagonal through it.
pub open spec fn cross_at(input: Seq<Vec<char>>, row: int, col: int) -> bool {
    &&& letter_at(input, row, col) == Some('A')
    &&& is_mas(letter_at(input, row - 1, col - 1), letter_at(input, row + 1, col + 1))
    &&& is_mas(letter_at(input, row - 1, col + 1), letter_at(input, row + 1, col - 1))
}

/// One for a position with a cross, zero for any other.
pub open spec fn cross_mark(input: Seq<Vec<char>>) -> spec_fn(int, int) -> nat {
    |row: int, col: int| if cross_at(input, row, col) { 1nat } else { 0nat }
}

/// The number of crosses of two MAS in the grid.
pub open spec fn cross_count(input: Seq<Vec<char>>) -> nat {
    sum_grid(input.len(), input[0]@.len(), cross_mark(input))
}

/// The first and the last row hold the centre of no cross.
pub proof fn lemma_border_row(input: Seq<Vec<char>>, row: int, upto: nat)
    requires
        row <= 0 || row >= input.len() - 1,
    ensures
        sum_below(upto, at_row(cross_mark(input), row)) == 0,
    decreases upto,
{
    if upto > 0 {
        lemma_border_row(input, row, (upto - 1) as nat);
    }
}

/// Counts the crosses of two MAS in the grid.
pub fn solve_b(input: &Vec<Vec<char>>) -> (num_matches: u64)
    requires
        letters_valid(input@),
        cross_count(input@) <= u64::MAX,
    ensures
        num_matches == cross_count(input@),
{
    let num_cols = input[0].len() as i64;
    let num_rows = input.len() as i64;
    let ghost mark = cross_mark(input@);
    let ghost rows: nat = input@.len();
    let ghost cols: nat = input@[0]@.len();

    let mut num_matches: u64 = 0;

    let mut base_row: i64 = 1;
    proof {
        lemma_border_row(input@, 0, cols);
        assert(sum_below(1, row_sums(cols, mark)) == sum_below(0, row_sums(cols, mark)) + row_sums(
            cols,
            mark,
        )(0));
    }
    while base_row < num_rows - 1
        invariant
            1 <= base_row,
            base_row <= num_rows - 1 || base_row == 1,
            num_rows == rows,
            num_cols == cols,
            rows == input@.len(),
            cols == input@[0]@.len(),
            letters_valid(input@),
            mark == cross_mark(input@),
            sum_grid(rows, cols, mark) <= u64::MAX,
            num_matches == sum_below(base_row as nat, row_sums(cols, mark)),
        decreases num_rows - base_row,
    {
        let ghost above = num_matches;
        let mut base_col: i64 = 1;
        proof {
            assert(sum_below(1, at_row(mark, base_row as int)) == sum_below(
                0,
                at_row(mark, base_row as int),
            ) + at_row(mark, base_row as int)(0));
        }
        while base_col < num_cols
            invariant
                1 <= base_row < num_rows - 1,
                1 <= base_col,
                base_col <= num_cols || base_col == 1,
                num_rows == rows,
                num_cols == cols,
                rows == input@.len(),
                cols == input@[0]@.len(),
                letters_valid(input@),
                mark == cross_mark(input@),
                sum_grid(rows, cols, mark) <= u64::MAX,
                above == sum_below(base_row as nat, row_sums(cols, mark)),
                num_matches == above + sum_below(base_col as nat, at_row(mark, base_row as int)),
            decreases num_cols - base_col,
        {
            proof {
                lemma_sum_grid_partial(rows, cols, mark, base_row as nat, (base_col + 1) as nat);
                assert(input@[base_row as int].len() == input@[0].len());
                assert(input@[base_row - 1].len() == input@[0].len());
                assert(input@[base_row + 1].len() == input@[0].len());
                assert(base_row + 1 < input.len() && base_col < input[0].len());
            }
            if input[base_row as usize][base_col as usize] == 'A' && base_col + 1 < num_cols {
                let is_diag1_mas = match (
                    input[(base_row - 1) as usize][(base_col - 1) as usize],
                    input[(base_row + 1) as usize][(base_col + 1) as usize],
                ) {
                    ('M', 'S') | ('S', 'M') => true,
                    _ => false,
                };

                let is_diag2_mas = match (
                    input[(base_row - 1) as usize][(base_col + 1) as usize],
                    input[(base_row + 1) as usize][(base_col - 1) as usize],
                ) {
                    ('M', 'S') | ('S', 'M') => true,
                    _ => false,
                };

                if is_diag1_mas && is_diag2_mas {
                    assert(cross_at(input@, base_row as int, base_col as int));
                    num_matches += 1;
                } else {
                    assert(!cross_at(input@, base_row as int, base_col as int));
                }
            } else {
                assert(!cross_at(input@, base_row as int, base_col as int));
            }
            base_col += 1;
        }
        proof {
            lemma_sum_grid_partial(rows, cols, mark, base_row as nat, cols);
            if cols == 0 {
                assert(base_col == 1);
            }
        }
        base_row += 1;
    }
    proof {
        if rows >= 2 {
            lemma_border_row(input@, rows - 1, cols);
            if rows == 2 {
                assert(base_row == 1);
            }
            assert(sum_below(rows, row_sums(cols, mark)) == sum_below(
                (rows - 1) as nat,
                row_sums(cols, mark),
            ) + row_sums(cols, mark)(rows - 1));
        }
    }

    num_matches
}

} // verus!
