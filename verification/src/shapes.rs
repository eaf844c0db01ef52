//! Reading texts of a fixed shape: given bytes and decimal numbers in a
//! given order.

use vstd::prelude::*;
use crate::text::{
    parts_within, decimal, first_where, is_digit, lemma_first_where, parse_number,
    past_digits, skip_digits, };

verus! {

/// A piece of a shape.
#[derive(Clone, Copy, PartialEq, Eq, Debug)]
pub enum Piece {
    /// The given byte.
    Byte(u8),
    /// A run of decimal digits, as long as it goes.
    Number,
    /// A run of decimal digits, as long as it goes, with a minus sign before
    /// it or without.
    Signed,
}

/// A number that was read: whether a minus sign stood before it, and the
/// value of its digits.
pub type Figure = (bool, nat);

/// What reading a shape gives.
#[derive(Clone, PartialEq, Eq, Debug)]
pub enum Read {
    /// The text has not the shape.
    Miss,
    /// The text has the shape, and the digits of one of its numbers stand
    /// for more than 64 bits hold: the position after the shape.
    TooLarge(usize),
    /// The text has the shape: its numbers, and the position after it.
    Found(Vec<(bool, u64)>, usize),
}

/// The end of the run of digits that begins at `at`.
pub open spec fn digits_end(text: Seq<u8>, at: int, to: int) -> int {
    first_where(text, at, to, past_digits())
}

/// Where the digits of a piece begin that is read at `at`: after the minus
/// sign, if the piece takes one and one stands there.
pub open spec fn digits_start(text: Seq<u8>, at: int, to: int, piece: Piece) -> int {
    if piece == Piece::Signed && at < to && text[at] == 0x2d {
        at + 1
    } else {
        at
    }
}

/// The text from `at` on, and before `to`, begins with the pieces: the
/// numbers among them, and the position after the last piece.
pub open spec fn read(text: Seq<u8>, at: int, to: int, pieces: Seq<Piece>) -> Option<
    (Seq<Figure>, int),
>
    decreases pieces.len(),
{
    if pieces.len() == 0 {
        Some((Seq::empty(), at))
    } else {
        let rest = pieces.drop_first();
        match pieces[0] {
            Piece::Byte(byte) => if at < to && text[at] == byte {
                read(text, at + 1, to, rest)
            } else {
                None
            },
            _ => {
                let start = digits_start(text, at, to, pieces[0]);
                let end = digits_end(text, start, to);
                if start < end {
                    match read(text, end, to, rest) {
                        Some((figures, after)) => Some(
                            (seq![(start > at, decimal(text.subrange(start, end)))] + figures, after),
                        ),
                        None => None,
                    }
                } else {
                    None
                }
            },
        }
    }
}

/// Every number fits 64 bits.
pub open spec fn figures_fit(figures: Seq<Figure>) -> bool {
    forall|i: int| 0 <= i < figures.len() ==> (#[trigger] figures[i]).1 <= u64::MAX
}

/// The numbers as they were read.
pub open spec fn figures_of(numbers: Seq<(bool, u64)>) -> Seq<Figure> {
    Seq::new(numbers.len(), |i: int| (numbers[i].0, numbers[i].1 as nat))
}

/// What reading gives for what the text holds.
pub open spec fn read_shows(found: Option<(Seq<Figure>, int)>, result: Read) -> bool {
    match found {
        None => result == Read::Miss,
        Some((figures, after)) => if figures_fit(figures) {
            result matches Read::Found(numbers, end) && figures_of(numbers@) == figures && end
                == after
        } else {
            result matches Read::TooLarge(end) && end == after
        },
    }
}

/// Reads the pieces from the `k`th on in the text from `at` on and before
/// `to`.
pub fn read_pieces(text: &[u8], at: usize, to: usize, pieces: &Vec<Piece>, k: usize) -> (result:
    Read)
    requires
        at <= to <= text@.len(),
        k <= pieces@.len(),
    ensures
        read_shows(read(text@, at as int, to as int, pieces@.skip(k as int)), result),
        result matches Read::Found(_, end) ==> at <= end <= to,
        result matches Read::TooLarge(end) ==> at <= end <= to,
    decreases pieces@.len() - k,
{
    let ghost left = pieces@.skip(k as int);
    if k == pieces.len() {
        let numbers: Vec<(bool, u64)> = Vec::new();
        proof {
            assert(figures_of(numbers@) =~= Seq::<Figure>::empty());
        }
        return Read::Found(numbers, at);
    }
    proof {
        assert(left[0] == pieces@[k as int]);
        assert(left.drop_first() =~= pieces@.skip(k + 1));
    }
    match pieces[k] {
        Piece::Byte(byte) => {
            if at < to && text[at] == byte {
                read_pieces(text, at + 1, to, pieces, k + 1)
            } else {
                Read::Miss
            }
        },
        piece => {
            let signed = match piece {
                Piece::Signed => true,
                _ => false,
            };
            let start = if signed && at < to && text[at] == 0x2d {
                at + 1
            } else {
                at
            };
            assert(start == digits_start(text@, at as int, to as int, left[0]));
            let end = skip_digits(text, start, to);
            if start >= end {
                return Read::Miss;
            }
            let value = parse_number(text, start, end);
            let ghost digits = text@.subrange(start as int, end as int);
            proof {
                lemma_first_where(text@, start as int, to as int, past_digits());
                assert forall|i: int| 0 <= i < digits.len() implies is_digit(#[trigger] digits[i]) by {
                    assert(digits[i] == text@[start + i]);
                    assert(!past_digits()(text@[start + i]));
                }
                assert(digits[0] != 43);
            }
            match read_pieces(text, end, to, pieces, k + 1) {
                Read::Miss => Read::Miss,
                Read::TooLarge(after) => {
                    proof {
                        let found = read(text@, end as int, to as int, pieces@.skip(k + 1));
                        let pair = found->0;
                        let figures = pair.0;
                        let all = seq![(start > at, decimal(digits))] + figures;
                        let i = choose|i: int|
                            0 <= i < figures.len() && !((#[trigger] figures[i]).1 <= u64::MAX);
                        assert(all[i + 1] == figures[i]);
                    }
                    Read::TooLarge(after)
                },
                Read::Found(mut numbers, after) => {
                    let ghost figures = figures_of(numbers@);
                    let ghost all = seq![(start > at, decimal(digits))] + figures;
                    match value {
                        Some(number) => {
                            numbers.insert(0, (start > at, number));
                            proof {
                                assert(figures_of(numbers@) =~= all);
                                assert forall|i: int| 0 <= i < all.len() implies (#[trigger] all[i]).1
                                    <= u64::MAX by {
                                    if i > 0 {
                                        assert(all[i] == figures[i - 1]);
                                    }
                                }
                            }
                            Read::Found(numbers, after)
                        },
                        None => {
                            proof {
                                assert(all[0].1 > u64::MAX);
                            }
                            Read::TooLarge(after)
                        },
                    }
                },
            }
        },
    }
}

/// The text from `from` up to `to` has the shape, from its first byte to
/// its last: the numbers in it.
pub open spec fn shaped(text: Seq<u8>, from: int, to: int, pieces: Seq<Piece>) -> Option<
    Seq<Figure>,
> {
    match read(text, from, to, pieces) {
        Some((figures, after)) => if after == to {
            Some(figures)
        } else {
            None
        },
        None => None,
    }
}

/// What reading a whole text gives for what the text holds.
pub open spec fn shape_shows(found: Option<Seq<Figure>>, result: Option<Option<Vec<(bool, u64)>>>) -> bool {
    match found {
        None => result == Some(None::<Vec<(bool, u64)>>),
        Some(figures) => if figures_fit(figures) {
            result matches Some(Some(numbers)) && figures_of(numbers@) == figures
        } else {
            result is None
        },
    }
}

/// Reads a text that has the shape from its first byte to its last. The
/// result is `Some(None)` for a text of another shape, and `None` where a
/// number is too large.
pub fn read_shape(text: &[u8], from: usize, to: usize, pieces: &Vec<Piece>) -> (result: Option<
    Option<Vec<(bool, u64)>>,
>)
    requires
        from <= to <= text@.len(),
    ensures
        shape_shows(shaped(text@, from as int, to as int, pieces@), result),
{
    assert(pieces@.skip(0) =~= pieces@);
    match read_pieces(text, from, to, pieces, 0) {
        Read::Miss => Some(None),
        Read::TooLarge(after) => {
            if after == to {
                None
            } else {
                Some(None)
            }
        },
        Read::Found(numbers, after) => {
            if after == to {
                Some(Some(numbers))
            } else {
                Some(None)
            }
        },
    }
}

/// The line at `at` has the shape and a number that is too large.
pub open spec fn line_too_large(
    text: Seq<u8>,
    lines: Seq<(usize, usize)>,
    pieces: Seq<Piece>,
    at: int,
) -> bool {
    shaped(text, lines[at].0 as int, lines[at].1 as int, pieces) matches Some(figures)
        && !figures_fit(figures)
}

/// The rows hold what the lines hold: for each line of the shape its
/// numbers.
pub open spec fn lines_show(
    text: Seq<u8>,
    lines: Seq<(usize, usize)>,
    pieces: Seq<Piece>,
    rows: Seq<Option<Vec<(bool, u64)>>>,
) -> bool {
    &&& rows.len() == lines.len()
    &&& forall|i: int|
        0 <= i < lines.len() ==> shape_shows(
            shaped(text, lines[i].0 as int, lines[i].1 as int, pieces),
            Some(#[trigger] rows[i]),
        )
}

/// Reads each of the lines with one shape: for a line that has the shape
/// its numbers, for any other line `None`. Nothing is read where a line has
/// the shape and a number that is too large.
pub fn read_lines(text: &[u8], lines: &Vec<(usize, usize)>, pieces: &Vec<Piece>) -> (rows: Option<
    Vec<Option<Vec<(bool, u64)>>>,
>)
    requires
        parts_within(text@, lines@),
    ensures
        match rows {
            Some(found) => lines_show(text@, lines@, pieces@, found@),
            None => exists|i: int|
                0 <= i < lines@.len() && #[trigger] line_too_large(text@, lines@, pieces@, i),
        },
{
    let mut rows: Vec<Option<Vec<(bool, u64)>>> = Vec::new();
    let mut at: usize = 0;
    while at < lines.len()
        invariant
            at <= lines.len(),
            parts_within(text@, lines@),
            rows@.len() == at,
            forall|i: int|
                0 <= i < at ==> shape_shows(
                    shaped(text@, lines@[i].0 as int, lines@[i].1 as int, pieces@),
                    Some(#[trigger] rows@[i]),
                ),
        decreases lines.len() - at,
    {
        let (from, to) = lines[at];
        match read_shape(text, from, to, pieces) {
            Some(row) => {
                rows.push(row);
            },
            None => {
                assert(line_too_large(text@, lines@, pieces@, at as int));
                return None;
            },
        }
        at += 1;
    }
    Some(rows)
}

/// The first position from `from` on at which the text begins with the
/// pieces; one past `to` where there is none.
pub open spec fn first_shape(text: Seq<u8>, from: int, to: int, pieces: Seq<Piece>) -> int
    decreases to + 1 - from,
{
    if from > to {
        to + 1
    } else if read(text, from, to, pieces) is Some {
        from
    } else {
        first_shape(text, from + 1, to, pieces)
    }
}

/// Finds the first place from `from` on, and before `to`, at which the text
/// begins with the pieces, and reads them there: the place, one past `to`
/// where there is none, and what was read.
pub fn find_shape(text: &[u8], from: usize, to: usize, pieces: &Vec<Piece>) -> (found: (usize, Read))
    requires
        from <= to <= text@.len(),
        to < usize::MAX,
    ensures
        found.0 == first_shape(text@, from as int, to as int, pieces@),
        from <= found.0 <= to + 1,
        found.0 <= to ==> read_shows(read(text@, found.0 as int, to as int, pieces@), found.1),
        found.0 > to ==> found.1 == Read::Miss,
        found.1 matches Read::Found(_, end) ==> found.0 <= end <= to,
        found.1 matches Read::TooLarge(end) ==> found.0 <= end <= to,
{
    let mut at = from;
    assert(pieces@.skip(0) =~= pieces@);
    while at <= to
        invariant
            from <= at <= to + 1,
            to <= text@.len(),
            to < usize::MAX,
            pieces@.skip(0) == pieces@,
            first_shape(text@, at as int, to as int, pieces@) == first_shape(
                text@,
                from as int,
                to as int,
                pieces@,
            ),
        decreases to + 1 - at,
    {
        let result = read_pieces(text, at, to, pieces, 0);
        match result {
            Read::Miss => {},
            _ => {
                return (at, result);
            },
        }
        at += 1;
    }
    (at, Read::Miss)
}

/// The items that are there, in their order.
pub open spec fn present_of<T>(items: Seq<Option<T>>) -> Seq<T>
    decreases items.len(),
{
    if items.len() == 0 {
        Seq::empty()
    } else {
        match items.last() {
            Some(item) => present_of(items.drop_last()).push(item),
            None => present_of(items.drop_last()),
        }
    }
}

/// The items that are there, in their order.
pub fn present<T: Copy>(items: &Vec<Option<T>>) -> (kept: Vec<T>)
    ensures
        kept@ == present_of(items@),
{
    let mut kept: Vec<T> = Vec::new();
    let mut at: usize = 0;
    while at < items.len()
        invariant
            at <= items.len(),
            kept@ == present_of(items@.take(at as int)),
        decreases items.len() - at,
    {
        proof {
            assert(items@.take(at + 1).drop_last() =~= items@.take(at as int));
        }
        if let Some(item) = items[at] {
            kept.push(item);
        }
        at += 1;
    }
    assert(items@.take(at as int) =~= items@);
    kept
}

/// The numbers of a line of the shape, where they are `count` numbers that
/// fit 64 bits.
pub open spec fn figures_on(
    text: Seq<u8>,
    line: (usize, usize),
    pieces: Seq<Piece>,
    count: nat,
) -> Option<Seq<Figure>> {
    match shaped(text, line.0 as int, line.1 as int, pieces) {
        Some(figures) => if figures.len() == count && figures_fit(figures) {
            Some(figures)
        } else {
            None
        },
        None => None,
    }
}

/// What a row that was read says of its line.
pub proof fn lemma_row_read(
    text: Seq<u8>,
    line: (usize, usize),
    pieces: Seq<Piece>,
    row: Option<Vec<(bool, u64)>>,
    count: nat,
)
    requires
        shape_shows(shaped(text, line.0 as int, line.1 as int, pieces), Some(row)),
    ensures
        match row {
            Some(numbers) => shaped(text, line.0 as int, line.1 as int, pieces) == Some(
                figures_of(numbers@),
            ) && figures_fit(figures_of(numbers@)) && (figures_on(text, line, pieces, count)
                == if numbers@.len() == count {
                Some(figures_of(numbers@))
            } else {
                None
            }),
            None => shaped(text, line.0 as int, line.1 as int, pieces) is None && figures_on(
                text,
                line,
                pieces,
                count,
            ) is None,
        },
{
}

/// The numbers of a list: runs of digits with one comma between each two,
/// from the first byte of the text to the last.
pub open spec fn comma_list(text: Seq<u8>, from: int, to: int) -> Option<Seq<nat>>
    decreases to - from,
{
    let end = digits_end(text, from, to);
    if end <= from || end > to {
        None
    } else if end == to {
        Some(seq![decimal(text.subrange(from, end))])
    } else if text[end] == 0x2c {
        match comma_list(text, end + 1, to) {
            Some(rest) => Some(seq![decimal(text.subrange(from, end))] + rest),
            None => None,
        }
    } else {
        None
    }
}

/// Every number fits 64 bits.
pub open spec fn numbers_fit(numbers: Seq<nat>) -> bool {
    forall|i: int| 0 <= i < numbers.len() ==> #[trigger] numbers[i] <= u64::MAX
}

/// The numbers as mathematical numbers.
pub open spec fn naturals(numbers: Seq<u64>) -> Seq<nat> {
    Seq::new(numbers.len(), |i: int| numbers[i] as nat)
}

/// What reading a list gives for what the text holds.
pub open spec fn list_shows(found: Option<Seq<nat>>, result: Option<Option<Vec<u64>>>) -> bool {
    match found {
        None => result == Some(None::<Vec<u64>>),
        Some(numbers) => if numbers_fit(numbers) {
            result matches Some(Some(list)) && naturals(list@) == numbers
        } else {
            result is None
        },
    }
}

/// Reads a list of numbers with commas between them. The result is
/// `Some(None)` for a text that is no such list, and `None` where a number
/// is too large.
pub fn read_comma_list(text: &[u8], from: usize, to: usize) -> (result: Option<Option<Vec<u64>>>)
    requires
        from <= to <= text@.len(),
    ensures
        list_shows(comma_list(text@, from as int, to as int), result),
    decreases to - from,
{
    let end = skip_digits(text, from, to);
    if end <= from {
        return Some(None);
    }
    let value = parse_number(text, from, end);
    let ghost digits = text@.subrange(from as int, end as int);
    proof {
        lemma_first_where(text@, from as int, to as int, past_digits());
        assert forall|i: int| 0 <= i < digits.len() implies is_digit(#[trigger] digits[i]) by {
            assert(digits[i] == text@[from + i]);
            assert(!past_digits()(text@[from + i]));
        }
        assert(digits[0] != 43);
    }
    if end == to {
        return match value {
            Some(number) => {
                let list = vec![number];
                assert(naturals(list@) =~= seq![decimal(digits)]);
                Some(Some(list))
            },
            None => {
                assert(!(seq![decimal(digits)][0] <= u64::MAX));
                None
            },
        };
    }
    if text[end] != 0x2c {
        return Some(None);
    }
    match read_comma_list(text, end + 1, to) {
        Some(None) => Some(None),
        None => {
            proof {
                let rest = comma_list(text@, end + 1, to as int)->0;
                let all = seq![decimal(digits)] + rest;
                let i = choose|i: int| 0 <= i < rest.len() && !(#[trigger] rest[i] <= u64::MAX);
                assert(all[i + 1] == rest[i]);
            }
            None
        },
        Some(Some(mut list)) => {
            let ghost rest = naturals(list@);
            let ghost all = seq![decimal(digits)] + rest;
            match value {
                Some(number) => {
                    list.insert(0, number);
                    proof {
                        assert(naturals(list@) =~= all);
                        assert forall|i: int| 0 <= i < all.len() implies #[trigger] all[i]
                            <= u64::MAX by {
                            if i > 0 {
                                assert(all[i] == rest[i - 1]);
                            }
                        }
                    }
                    Some(Some(list))
                },
                None => {
                    assert(!(all[0] <= u64::MAX));
                    None
                },
            }
        },
    }
}

} // verus!
