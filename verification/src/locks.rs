//! Locks and keys given by the heights of their five pins: which key fits
//! which lock.

use vstd::prelude::*;
use crate::counting::{at_row, lemma_sum_grid_partial, row_sums, sum_below, sum_grid};

use crate::text::{block_end, find_block_end, lines_of, split_lines};

verus! {

/// The heights are heights of pins: none is above five.
pub open spec fn pins_valid(heights: [usize; 5]) -> bool {
    forall|i: int| 0 <= i < 5 ==> #[trigger] heights@[i] <= 5
}

/// The key fits the lock: in no column do the two pins overlap.
pub open spec fn fits(key: [usize; 5], lock: [usize; 5]) -> bool {
    forall|i: int| 0 <= i < 5 ==> #[trigger] key@[i] + lock@[i] <= 5
}

/// One for a key that fits the lock, zero for one that does not.
pub open spec fn fit_mark(keys: Seq<[usize; 5]>, locks: Seq<[usize; 5]>) -> spec_fn(int, int) -> nat {
    |key: int, lock: int| if fits(keys[key], locks[lock]) { 1nat } else { 0nat }
}

/// The number of pairs of a key and a lock that fit.
pub open spec fn fitting_pairs(keys: Seq<[usize; 5]>, locks: Seq<[usize; 5]>) -> nat {
    sum_grid(keys.len(), locks.len(), fit_mark(keys, locks))
}

/// Whether the key fits the lock.
pub fn key_fits(key: &[usize; 5], lock: &[usize; 5]) -> (is_valid: bool)
    requires
        pins_valid(*key),
        pins_valid(*lock),
    ensures
        is_valid == fits(*key, *lock),
{
    let mut is_valid = true;
    let mut i: usize = 0;
    while i < 5
        invariant_except_break
            is_valid,
            forall|k: int| 0 <= k < i ==> #[trigger] key@[k] + lock@[k] <= 5,
        invariant
            i <= 5,
            pins_valid(*key),
            pins_valid(*lock),
        ensures
            is_valid == fits(*key, *lock),
        decreases 5 - i,
    {
        assert(key@[i as int] <= 5 && lock@[i as int] <= 5);
        if key[i] + lock[i] > 5 {
            is_valid = false;
            break ;
        }
        i += 1;
    }
    is_valid
}

/// Counts the pairs of a key and a lock that fit.
pub fn count_valid_pairs(keys: &Vec<[usize; 5]>, locks: &Vec<[usize; 5]>) -> (valid_pairs: u64)
    requires
        forall|i: int| 0 <= i < keys.len() ==> pins_valid(#[trigger] keys@[i]),
        forall|i: int| 0 <= i < locks.len() ==> pins_valid(#[trigger] locks@[i]),
        fitting_pairs(keys@, locks@) <= u64::MAX,
    ensures
        valid_pairs == fitting_pairs(keys@, locks@),
{
    let ghost mark = fit_mark(keys@, locks@);
    let ghost rows = keys@.len();
    let ghost cols = locks@.len();
    let mut valid_pairs: u64 = 0;
    let mut k: usize = 0;
    while k < keys.len()
        invariant
            k <= keys.len(),
            rows == keys@.len(),
            cols == locks@.len(),
            mark == fit_mark(keys@, locks@),
            forall|i: int| 0 <= i < keys.len() ==> pins_valid(#[trigger] keys@[i]),
            forall|i: int| 0 <= i < locks.len() ==> pins_valid(#[trigger] locks@[i]),
            sum_grid(rows, cols, mark) <= u64::MAX,
            valid_pairs == sum_below(k as nat, row_sums(cols, mark)),
        decreases keys.len() - k,
    {
        let ghost above = valid_pairs;
        let mut l: usize = 0;
        while l < locks.len()
            invariant
                k < keys.len(),
                l <= locks.len(),
                rows == keys@.len(),
                cols == locks@.len(),
                mark == fit_mark(keys@, locks@),
                forall|i: int| 0 <= i < keys.len() ==> pins_valid(#[trigger] keys@[i]),
                forall|i: int| 0 <= i < locks.len() ==> pins_valid(#[trigger] locks@[i]),
                sum_grid(rows, cols, mark) <= u64::MAX,
                above == sum_below(k as nat, row_sums(cols, mark)),
                valid_pairs == above + sum_below(l as nat, at_row(mark, k as int)),
            decreases locks.len() - l,
        {
            proof {
                lemma_sum_grid_partial(rows, cols, mark, k as nat, (l + 1) as nat);
            }
            if key_fits(&keys[k], &locks[l]) {
                valid_pairs += 1;
            }
            l += 1;
        }
        proof {
            lemma_sum_grid_partial(rows, cols, mark, k as nat, cols);
        }
        k += 1;
    }
    valid_pairs
}

/// The lines are a schematic: seven lines, of which the first has five
/// bytes and the next five have at least five.
pub open spec fn schematic_shape(lines: Seq<(usize, usize)>) -> bool {
    &&& lines.len() >= 6
    &&& lines[0].1 - lines[0].0 == 5
    &&& forall|r: int| 1 <= r < 6 ==> (#[trigger] lines[r]).1 - lines[r].0 >= 5
}

/// How far down a column the byte of the schematic's upper left corner is
/// repeated, the first line not counted.
pub open spec fn run_down(text: Seq<u8>, lines: Seq<(usize, usize)>, col: int, upto: int) -> int
    decreases upto,
{
    if upto <= 1 {
        0
    } else if run_down(text, lines, col, upto - 1) == upto - 2 && text[lines[upto - 1].0 + col]
        == text[lines[0].0 as int] {
        upto - 1
    } else {
        run_down(text, lines, col, upto - 1)
    }
}

/// The schematic is that of a lock: its upper left corner is filled.
pub open spec fn drawn_lock(text: Seq<u8>, lines: Seq<(usize, usize)>) -> bool {
    text[lines[0].0 as int] == 35
}

/// The height of the pin in a column: for a lock how far the column is
/// filled from the top, for a key how far from the bottom.
pub open spec fn pin_height(text: Seq<u8>, lines: Seq<(usize, usize)>, col: int) -> int {
    if drawn_lock(text, lines) {
        run_down(text, lines, col, 6)
    } else {
        5 - run_down(text, lines, col, 6)
    }
}

/// The run down a column is no longer than the lines looked at.
pub proof fn lemma_run_down_bound(text: Seq<u8>, lines: Seq<(usize, usize)>, col: int, upto: int)
    ensures
        0 <= run_down(text, lines, col, upto),
        upto >= 1 ==> run_down(text, lines, col, upto) <= upto - 1,
        upto < 1 ==> run_down(text, lines, col, upto) == 0,
    decreases upto,
{
    if upto > 1 {
        lemma_run_down_bound(text, lines, col, upto - 1);
    }
}

/// Reads the heights of the five pins of a schematic, and whether it is
/// that of a lock.
pub fn read_heights(text: &[u8], lines: &Vec<(usize, usize)>) -> (read: (bool, [usize; 5]))
    requires
        schematic_shape(lines@),
        forall|r: int| 0 <= r < lines.len() ==> (#[trigger] lines@[r]).0 <= lines@[r].1 <= text@.len(),
    ensures
        read.0 == drawn_lock(text@, lines@),
        forall|col: int| 0 <= col < 5 ==> #[trigger] read.1@[col] == pin_height(text@, lines@, col),
        pins_valid(read.1),
{
    let search_char = text[lines[0].0];
    let is_lock = search_char == 35;
    let mut heights: [usize; 5] = [0;5];
    let mut col: usize = 0;
    while col < 5
        invariant
            col <= 5,
            schematic_shape(lines@),
            forall|r: int|
                0 <= r < lines.len() ==> (#[trigger] lines@[r]).0 <= lines@[r].1 <= text@.len(),
            search_char == text@[lines@[0].0 as int],
            is_lock == drawn_lock(text@, lines@),
            forall|c: int| 0 <= c < col ==> #[trigger] heights@[c] == pin_height(text@, lines@, c),
        decreases 5 - col,
    {
        let mut height: usize = 5;
        let mut row: usize = 1;
        while row < 6
            invariant_except_break
                height == 5,
                run_down(text@, lines@, col as int, row as int) == row - 1,
            invariant
                1 <= row <= 6,
                col < 5,
                schematic_shape(lines@),
                forall|r: int|
                    0 <= r < lines.len() ==> (#[trigger] lines@[r]).0 <= lines@[r].1 <= text@.len(),
                search_char == text@[lines@[0].0 as int],
            ensures
                height == run_down(text@, lines@, col as int, 6),
                height <= 5,
            decreases 6 - row,
        {
            assert(lines@[row as int].1 - lines@[row as int].0 >= 5);
            if text[lines[row].0 + col] != search_char {
                height = row - 1;
                proof {
                    lemma_run_down_stops(text@, lines@, col as int, row as int, 6);
                }
                break ;
            }
            row += 1;
        }
        heights[col] = if is_lock {
            height
        } else {
            5 - height
        };
        col += 1;
    }
    proof {
        assert forall|i: int| 0 <= i < 5 implies #[trigger] heights@[i] <= 5 by {
            lemma_run_down_bound(text@, lines@, i, 6);
            assert(heights@[i] == pin_height(text@, lines@, i));
        }
    }
    (is_lock, heights)
}

/// Once the run down a column has stopped it stays as it is.
pub proof fn lemma_run_down_stops(
    text: Seq<u8>,
    lines: Seq<(usize, usize)>,
    col: int,
    row: int,
    upto: int,
)
    requires
        1 <= row < upto,
        run_down(text, lines, col, row) == row - 1,
        text[lines[row].0 + col] != text[lines[0].0 as int],
    ensures
        run_down(text, lines, col, upto) == row - 1,
    decreases upto,
{
    if upto > row + 1 {
        lemma_run_down_stops(text, lines, col, row, upto - 1);
    }
}

/// The heights are those of the pins of the schematic.
pub open spec fn heights_hold(heights: [usize; 5], text: Seq<u8>, lines: Seq<(usize, usize)>) -> bool {
    forall|col: int| 0 <= col < 5 ==> #[trigger] heights@[col] == pin_height(text, lines, col)
}

/// Every block of the text from `from` on has the shape of a schematic.
/// Blocks are parted by empty lines.
pub open spec fn schematics_ok(text: Seq<u8>, from: int) -> bool
    decreases text.len() - from,
{
    let end = block_end(text, from);
    if from > text.len() || end < from {
        false
    } else {
        schematic_shape(lines_of(text, from, end)) && (end + 2 <= text.len() ==> schematics_ok(
            text,
            end + 2,
        ))
    }
}

/// The keys and the locks are those of the blocks of the text from `from`
/// on, each list in the order of the blocks.
pub open spec fn schematics_shown(
    text: Seq<u8>,
    from: int,
    keys: Seq<[usize; 5]>,
    locks: Seq<[usize; 5]>,
) -> bool
    decreases text.len() - from,
{
    let end = block_end(text, from);
    let lines = lines_of(text, from, end);
    if from > text.len() || end < from {
        false
    } else if drawn_lock(text, lines) {
        &&& locks.len() > 0
        &&& heights_hold(locks[0], text, lines)
        &&& if end + 2 <= text.len() {
            schematics_shown(text, end + 2, keys, locks.drop_first())
        } else {
            keys.len() == 0 && locks.len() == 1
        }
    } else {
        &&& keys.len() > 0
        &&& heights_hold(keys[0], text, lines)
        &&& if end + 2 <= text.len() {
            schematics_shown(text, end + 2, keys.drop_first(), locks)
        } else {
            keys.len() == 1 && locks.len() == 0
        }
    }
}

/// Whether the lines have the shape of a schematic.
fn has_schematic_shape(lines: &Vec<(usize, usize)>) -> (yes: bool)
    requires
        forall|r: int| 0 <= r < lines.len() ==> (#[trigger] lines@[r]).0 <= lines@[r].1,
    ensures
        yes == schematic_shape(lines@),
{
    if lines.len() < 6 || lines[0].1 - lines[0].0 != 5 {
        return false;
    }
    let mut row: usize = 1;
    while row < 6
        invariant
            1 <= row <= 6,
            lines.len() >= 6,
            forall|r: int| 0 <= r < lines.len() ==> (#[trigger] lines@[r]).0 <= lines@[r].1,
            forall|r: int| 1 <= r < row ==> (#[trigger] lines@[r]).1 - lines@[r].0 >= 5,
        decreases 6 - row,
    {
        if lines[row].1 - lines[row].0 < 5 {
            return false;
        }
        row += 1;
    }
    true
}

/// Reads the schematic of each block from `from` on.
fn read_schematics_from(text: &[u8], from: usize) -> (read: Option<
    (Vec<[usize; 5]>, Vec<[usize; 5]>),
>)
    requires
        from <= text@.len(),
    ensures
        read is Some == schematics_ok(text@, from as int),
        read matches Some(found) ==> schematics_shown(text@, from as int, found.0@, found.1@),
    decreases text@.len() - from,
{
    let end = find_block_end(text, from);
    let lines = split_lines(text, from, end);
    if !has_schematic_shape(&lines) {
        return None;
    }
    let (is_lock, heights) = read_heights(text, &lines);
    if text.len() - end >= 2 {
        match read_schematics_from(text, end + 2) {
            Some((mut keys, mut locks)) => {
                let ghost keys_before = keys@;
                let ghost locks_before = locks@;
                if is_lock {
                    locks.insert(0, heights);
                    assert(locks@.drop_first() =~= locks_before);
                } else {
                    keys.insert(0, heights);
                    assert(keys@.drop_first() =~= keys_before);
                }
                Some((keys, locks))
            },
            None => None,
        }
    } else {
        let mut keys: Vec<[usize; 5]> = Vec::new();
        let mut locks: Vec<[usize; 5]> = Vec::new();
        if is_lock {
            locks.push(heights);
        } else {
            keys.push(heights);
        }
        Some((keys, locks))
    }
}

/// Reads the schematics, one from each block of the text: the heights of
/// the keys and those of the locks. Blocks are parted by empty lines.
/// Nothing is read where a block has not the shape of a schematic.
pub fn read_schematics(text: &[u8]) -> (read: Option<(Vec<[usize; 5]>, Vec<[usize; 5]>)>)
    ensures
        read is Some == schematics_ok(text@, 0),
        read matches Some(found) ==> schematics_shown(text@, 0, found.0@, found.1@),
{
    read_schematics_from(text, 0)
}

} // verus!
