//! Reading puzzle input: blocks, lines, words and numbers in a text of
//! bytes.

use vstd::prelude::*;

verus! {

/// The byte that ends a line.
pub const NEWLINE: u8 = 10;

/// The byte that may stand before the end of a line.
pub const CARRIAGE_RETURN: u8 = 13;

/// The byte is a decimal digit.
pub open spec fn is_digit(byte: u8) -> bool {
    48 <= byte <= 57
}

/// The byte is ASCII white space: a blank, a tab, a line feed, a form feed
/// or a carriage return.
pub open spec fn is_space(byte: u8) -> bool {
    byte == 32 || byte == 9 || byte == 10 || byte == 12 || byte == 13
}

/// Whether a byte is a decimal digit.
pub fn digit(byte: u8) -> (yes: bool)
    ensures
        yes == is_digit(byte),
{
    48 <= byte && byte <= 57
}

/// Whether a byte is ASCII white space.
pub fn space(byte: u8) -> (yes: bool)
    ensures
        yes == is_space(byte),
{
    byte == 32 || byte == 9 || byte == 10 || byte == 12 || byte == 13
}

/// The text is ASCII throughout.
pub open spec fn is_ascii_text(text: Seq<u8>) -> bool {
    forall|i: int| 0 <= i < text.len() ==> #[trigger] text[i] < 128
}

/// The first position from `from` on, and before `to`, at which the byte
/// satisfies `stop`; `to` if there is none.
pub open spec fn first_where(text: Seq<u8>, from: int, to: int, stop: spec_fn(u8) -> bool) -> int
    decreases to - from,
{
    if from >= to {
        to
    } else if stop(text[from]) {
        from
    } else {
        first_where(text, from + 1, to, stop)
    }
}

/// `first_where` lies between its bounds, nothing before it stops, and it
/// stops unless it is the upper bound.
pub proof fn lemma_first_where(text: Seq<u8>, from: int, to: int, stop: spec_fn(u8) -> bool)
    requires
        from <= to,
    ensures
        from <= first_where(text, from, to, stop) <= to,
        forall|i: int| from <= i < first_where(text, from, to, stop) ==> !stop(#[trigger] text[i]),
        first_where(text, from, to, stop) < to ==> stop(text[first_where(text, from, to, stop)]),
    decreases to - from,
{
    if from < to && !stop(text[from]) {
        lemma_first_where(text, from + 1, to, stop);
    }
}

/// The value of a run of decimal digits.
pub open spec fn decimal(digits: Seq<u8>) -> nat
    decreases digits.len(),
{
    if digits.len() == 0 {
        0
    } else {
        decimal(digits.drop_last()) * 10 + (digits.last() - 48) as nat
    }
}

/// The bytes are decimal digits, at least one of them.
pub open spec fn all_digits(digits: Seq<u8>) -> bool {
    digits.len() > 0 && forall|i: int| 0 <= i < digits.len() ==> is_digit(#[trigger] digits[i])
}

/// The number that a text spells: decimal digits, with a plus sign before
/// them or without, whose value fits 64 bits.
pub open spec fn spelled(text: Seq<u8>) -> Option<u64> {
    let digits = if text.len() > 0 && text[0] == 43 {
        text.skip(1)
    } else {
        text
    };
    if all_digits(digits) && decimal(digits) <= u64::MAX {
        Some(decimal(digits) as u64)
    } else {
        None
    }
}

/// The value of a prefix of a run of digits is at most that of the run.
pub proof fn lemma_decimal_mono(digits: Seq<u8>, len: int)
    requires
        0 <= len <= digits.len(),
        forall|i: int| 0 <= i < digits.len() ==> is_digit(#[trigger] digits[i]),
    ensures
        decimal(digits.take(len)) <= decimal(digits),
    decreases digits.len(),
{
    if len == digits.len() {
        assert(digits.take(len) =~= digits);
    } else {
        let front = digits.drop_last();
        assert forall|i: int| 0 <= i < front.len() implies is_digit(#[trigger] front[i]) by {
            assert(front[i] == digits[i]);
        }
        lemma_decimal_mono(front, len);
        assert(front.take(len) =~= digits.take(len));
        assert(is_digit(digits[digits.len() - 1]));
    }
}

/// Reads the number that the bytes from `from` up to `to` spell.
pub fn parse_number(text: &[u8], from: usize, to: usize) -> (number: Option<u64>)
    requires
        from <= to <= text@.len(),
    ensures
        number == spelled(text@.subrange(from as int, to as int)),
{
    let ghost whole = text@.subrange(from as int, to as int);
    let mut at = from;
    if at < to && text[at] == 43 {
        at += 1;
    }
    let ghost digits = text@.subrange(at as int, to as int);
    proof {
        if at > from {
            assert(whole[0] == 43);
            assert(whole.skip(1) =~= digits);
        } else {
            assert(whole =~= digits);
            if whole.len() > 0 {
                assert(whole[0] == text@[from as int]);
            }
        }
    }
    if at == to {
        return None;
    }
    let start = at;
    let mut value: u64 = 0;
    proof {
        assert(digits.take(0) =~= Seq::<u8>::empty());
    }
    while at < to
        invariant
            start <= at <= to,
            start < to,
            to <= text@.len(),
            whole == text@.subrange(from as int, to as int),
            digits == text@.subrange(start as int, to as int),
            digits == (if whole.len() > 0 && whole[0] == 43 {
                whole.skip(1)
            } else {
                whole
            }),
            forall|i: int| 0 <= i < at - start ==> is_digit(#[trigger] digits[i]),
            value == decimal(digits.take(at - start)),
        decreases to - at,
    {
        let byte = text[at];
        assert(byte == digits[at - start]);
        if !digit(byte) {
            assert(!is_digit(digits[at - start]));
            return None;
        }
        let ghost next = digits.take(at - start + 1);
        proof {
            assert(next.drop_last() =~= digits.take(at - start));
            assert(next.last() == byte);
        }
        if value > (u64::MAX - (byte - 48) as u64) / 10 {
            proof {
                assert(decimal(next) > u64::MAX);
                if all_digits(digits) {
                    lemma_decimal_mono(digits, at - start + 1);
                }
            }
            return None;
        }
        value = value * 10 + (byte - 48) as u64;
        at += 1;
    }
    proof {
        assert(digits.take(at - start) =~= digits);
    }
    Some(value)
}

/// The test that finds the end of a line.
pub open spec fn at_newline() -> spec_fn(u8) -> bool {
    |byte: u8| byte == NEWLINE
}

/// The test that finds a digit.
pub open spec fn at_digit() -> spec_fn(u8) -> bool {
    |byte: u8| is_digit(byte)
}

/// The test that finds the end of a run of digits.
pub open spec fn past_digits() -> spec_fn(u8) -> bool {
    |byte: u8| !is_digit(byte)
}

/// The test that finds white space.
pub open spec fn at_space() -> spec_fn(u8) -> bool {
    |byte: u8| is_space(byte)
}

/// The test that finds the beginning of a word.
pub open spec fn past_space() -> spec_fn(u8) -> bool {
    |byte: u8| !is_space(byte)
}

/// The first line feed from `from` on and before `to`, or `to`.
pub fn find_newline(text: &[u8], from: usize, to: usize) -> (at: usize)
    requires
        from <= to <= text@.len(),
    ensures
        at == first_where(text@, from as int, to as int, at_newline()),
        from <= at <= to,
{
    let mut at = from;
    while at < to && text[at] != NEWLINE
        invariant
            from <= at <= to,
            to <= text@.len(),
            first_where(text@, at as int, to as int, at_newline()) == first_where(
                text@,
                from as int,
                to as int,
                at_newline(),
            ),
        decreases to - at,
    {
        at += 1;
    }
    at
}

/// The first digit from `from` on and before `to`, or `to`.
pub fn find_digit(text: &[u8], from: usize, to: usize) -> (at: usize)
    requires
        from <= to <= text@.len(),
    ensures
        at == first_where(text@, from as int, to as int, at_digit()),
        from <= at <= to,
{
    let mut at = from;
    while at < to && !digit(text[at])
        invariant
            from <= at <= to,
            to <= text@.len(),
            first_where(text@, at as int, to as int, at_digit()) == first_where(
                text@,
                from as int,
                to as int,
                at_digit(),
            ),
        decreases to - at,
    {
        at += 1;
    }
    at
}

/// The first byte from `from` on and before `to` that is no digit, or `to`.
pub fn skip_digits(text: &[u8], from: usize, to: usize) -> (at: usize)
    requires
        from <= to <= text@.len(),
    ensures
        at == first_where(text@, from as int, to as int, past_digits()),
        from <= at <= to,
{
    let mut at = from;
    while at < to && digit(text[at])
        invariant
            from <= at <= to,
            to <= text@.len(),
            first_where(text@, at as int, to as int, past_digits()) == first_where(
                text@,
                from as int,
                to as int,
                past_digits(),
            ),
        decreases to - at,
    {
        at += 1;
    }
    at
}

/// The first white space from `from` on and before `to`, or `to`.
pub fn find_space(text: &[u8], from: usize, to: usize) -> (at: usize)
    requires
        from <= to <= text@.len(),
    ensures
        at == first_where(text@, from as int, to as int, at_space()),
        from <= at <= to,
{
    let mut at = from;
    while at < to && !space(text[at])
        invariant
            from <= at <= to,
            to <= text@.len(),
            first_where(text@, at as int, to as int, at_space()) == first_where(
                text@,
                from as int,
                to as int,
                at_space(),
            ),
        decreases to - at,
    {
        at += 1;
    }
    at
}

/// The first byte from `from` on and before `to` that is no white space, or
/// `to`.
pub fn skip_space(text: &[u8], from: usize, to: usize) -> (at: usize)
    requires
        from <= to <= text@.len(),
    ensures
        at == first_where(text@, from as int, to as int, past_space()),
        from <= at <= to,
{
    let mut at = from;
    while at < to && space(text[at])
        invariant
            from <= at <= to,
            to <= text@.len(),
            first_where(text@, at as int, to as int, past_space()) == first_where(
                text@,
                from as int,
                to as int,
                past_space(),
            ),
        decreases to - at,
    {
        at += 1;
    }
    at
}

/// Where the block that begins at `from` ends: at the first line feed that
/// another line feed follows, or at the end of the text.
pub open spec fn block_end(text: Seq<u8>, from: int) -> int
    decreases text.len() - from,
{
    if from >= text.len() {
        text.len() as int
    } else if from + 1 < text.len() && text[from] == NEWLINE && text[from + 1] == NEWLINE {
        from
    } else {
        block_end(text, from + 1)
    }
}

/// The end of the block that begins at `from`.
pub fn find_block_end(text: &[u8], from: usize) -> (at: usize)
    requires
        from <= text@.len(),
    ensures
        at == block_end(text@, from as int),
        from <= at <= text@.len(),
{
    let mut at = from;
    while at < text.len() && !(at + 1 < text.len() && text[at] == NEWLINE && text[at + 1]
        == NEWLINE)
        invariant
            from <= at <= text@.len(),
            block_end(text@, at as int) == block_end(text@, from as int),
        decreases text@.len() - at,
    {
        at += 1;
    }
    at
}

/// Where the block after the one that ends at `end` begins.
pub open spec fn next_block(text: Seq<u8>, end: int) -> int {
    if end + 2 <= text.len() {
        end + 2
    } else {
        text.len() as int
    }
}

/// The lines between `from` and `to`, each as the positions of its first
/// byte and of the byte after its last one. A line ends before a line feed;
/// a carriage return just before that line feed is no part of it. What
/// follows the last line feed is a line unless it is empty.
pub open spec fn lines_of(text: Seq<u8>, from: int, to: int) -> Seq<(usize, usize)>
    decreases to - from,
{
    if from >= to {
        Seq::empty()
    } else {
        let end = first_where(text, from, to, at_newline());
        if end >= to || end < from {
            seq![(from as usize, to as usize)]
        } else if end > from && text[end - 1] == CARRIAGE_RETURN {
            seq![(from as usize, (end - 1) as usize)] + lines_of(text, end + 1, to)
        } else {
            seq![(from as usize, end as usize)] + lines_of(text, end + 1, to)
        }
    }
}

/// Every line lies between the bounds.
pub proof fn lemma_lines_within(text: Seq<u8>, from: int, to: int)
    requires
        0 <= from <= to <= text.len(),
        to <= usize::MAX,
    ensures
        forall|i: int|
            0 <= i < lines_of(text, from, to).len() ==> from <= (#[trigger] lines_of(
                text,
                from,
                to,
            )[i]).0 <= lines_of(text, from, to)[i].1 <= to,
    decreases to - from,
{
    if from < to {
        lemma_first_where(text, from, to, at_newline());
        let end = first_where(text, from, to, at_newline());
        let lines = lines_of(text, from, to);
        if end < to {
            lemma_lines_within(text, end + 1, to);
            let rest = lines_of(text, end + 1, to);
            assert forall|i: int| 0 <= i < lines.len() implies from <= (#[trigger] lines[i]).0
                <= lines[i].1 <= to by {
                if i > 0 {
                    assert(lines[i] == rest[i - 1]);
                }
            }
        }
    }
}

/// Splits the text between `from` and `to` into lines.
pub fn split_lines(text: &[u8], from: usize, to: usize) -> (lines: Vec<(usize, usize)>)
    requires
        from <= to <= text@.len(),
    ensures
        lines@ == lines_of(text@, from as int, to as int),
        forall|i: int|
            0 <= i < lines@.len() ==> from <= (#[trigger] lines@[i]).0 <= lines@[i].1 <= to,
{
    let mut lines: Vec<(usize, usize)> = Vec::new();
    let mut at = from;
    let ghost all = lines_of(text@, from as int, to as int);
    proof {
        assert(lines@ + all =~= all);
    }
    while at < to
        invariant
            from <= at <= to,
            to <= text@.len(),
            lines@ + lines_of(text@, at as int, to as int) == lines_of(
                text@,
                from as int,
                to as int,
            ),
        decreases to - at,
    {
        let end = find_newline(text, at, to);
        let ghost rest = lines_of(text@, at as int, to as int);
        let ghost before = lines@;
        if end >= to {
            lines.push((at, to));
            proof {
                assert(lines@ + lines_of(text@, to as int, to as int) =~= before + rest);
            }
            at = to;
        } else {
            if end > at && text[end - 1] == CARRIAGE_RETURN {
                lines.push((at, end - 1));
            } else {
                lines.push((at, end));
            }
            proof {
                assert(lines@ + lines_of(text@, end + 1, to as int) =~= before + rest);
            }
            at = end + 1;
        }
    }
    proof {
        assert(lines@ + Seq::<(usize, usize)>::empty() =~= lines@);
        lemma_lines_within(text@, from as int, to as int);
    }
    lines
}

/// The runs of digits between `from` and `to`, each as long as it can be,
/// as the positions of the first digit and of the byte after the last one.
pub open spec fn digit_runs(text: Seq<u8>, from: int, to: int) -> Seq<(usize, usize)>
    decreases to - from,
{
    let start = first_where(text, from, to, at_digit());
    if from >= to || start >= to || start < from {
        Seq::empty()
    } else {
        let end = first_where(text, start, to, past_digits());
        if end <= start || end > to {
            Seq::empty()
        } else {
            seq![(start as usize, end as usize)] + digit_runs(text, end, to)
        }
    }
}

/// Finds the runs of digits between `from` and `to`.
pub fn find_digit_runs(text: &[u8], from: usize, to: usize) -> (runs: Vec<(usize, usize)>)
    requires
        from <= to <= text@.len(),
    ensures
        runs@ == digit_runs(text@, from as int, to as int),
        forall|i: int| 0 <= i < runs@.len() ==> from <= (#[trigger] runs@[i]).0 < runs@[i].1 <= to,
{
    let mut runs: Vec<(usize, usize)> = Vec::new();
    let mut at = from;
    let ghost all = digit_runs(text@, from as int, to as int);
    proof {
        assert(runs@ + all =~= all);
    }
    while at < to
        invariant
            from <= at <= to,
            to <= text@.len(),
            runs@ + digit_runs(text@, at as int, to as int) == digit_runs(
                text@,
                from as int,
                to as int,
            ),
            forall|i: int|
                0 <= i < runs@.len() ==> from <= (#[trigger] runs@[i]).0 < runs@[i].1 <= to,
        decreases to - at,
    {
        let start = find_digit(text, at, to);
        let ghost rest = digit_runs(text@, at as int, to as int);
        let ghost before = runs@;
        if start >= to {
            proof {
                assert(rest =~= Seq::<(usize, usize)>::empty());
                assert(digit_runs(text@, to as int, to as int) =~= Seq::<(usize, usize)>::empty());
            }
            at = to;
        } else {
            let end = skip_digits(text, start, to);
            proof {
                lemma_first_where(text@, at as int, to as int, at_digit());
                lemma_first_where(text@, start as int, to as int, past_digits());
                assert(end > start);
            }
            runs.push((start, end));
            proof {
                assert(runs@ + digit_runs(text@, end as int, to as int) =~= before + rest);
            }
            at = end;
        }
    }
    proof {
        assert(digit_runs(text@, to as int, to as int) =~= Seq::<(usize, usize)>::empty());
        assert(runs@ + Seq::<(usize, usize)>::empty() =~= runs@);
    }
    runs
}

/// The numbers that the given parts of the text spell, if every part spells
/// one.
pub open spec fn numbers_at(text: Seq<u8>, parts: Seq<(usize, usize)>) -> Option<Seq<u64>>
    decreases parts.len(),
{
    if parts.len() == 0 {
        Some(Seq::empty())
    } else {
        match (
            numbers_at(text, parts.drop_last()),
            spelled(text.subrange(parts.last().0 as int, parts.last().1 as int)),
        ) {
            (Some(front), Some(number)) => Some(front.push(number)),
            _ => None,
        }
    }
}

/// The parts lie in the text.
pub open spec fn parts_within(text: Seq<u8>, parts: Seq<(usize, usize)>) -> bool {
    forall|i: int| 0 <= i < parts.len() ==> (#[trigger] parts[i]).0 <= parts[i].1 <= text.len()
}

/// Reads the numbers that the given parts of the text spell.
pub fn parse_numbers(text: &[u8], parts: &Vec<(usize, usize)>) -> (numbers: Option<Vec<u64>>)
    requires
        parts_within(text@, parts@),
    ensures
        match numbers {
            Some(read) => numbers_at(text@, parts@) == Some(read@),
            None => numbers_at(text@, parts@) is None,
        },
{
    let mut numbers: Vec<u64> = Vec::new();
    let mut at: usize = 0;
    proof {
        assert(parts@.take(0) =~= Seq::<(usize, usize)>::empty());
    }
    while at < parts.len()
        invariant
            at <= parts.len(),
            parts_within(text@, parts@),
            numbers_at(text@, parts@.take(at as int)) == Some(numbers@),
        decreases parts.len() - at,
    {
        let (from, to) = parts[at];
        proof {
            let next = parts@.take(at + 1);
            assert(next.drop_last() =~= parts@.take(at as int));
            assert(next.last() == parts@[at as int]);
        }
        match parse_number(text, from, to) {
            Some(number) => {
                numbers.push(number);
            },
            None => {
                proof {
                    lemma_numbers_fail(text@, parts@, at + 1);
                }
                return None;
            },
        }
        at += 1;
    }
    proof {
        assert(parts@.take(at as int) =~= parts@);
    }
    Some(numbers)
}

/// Where the first parts spell no number, all parts spell none.
pub proof fn lemma_numbers_fail(text: Seq<u8>, parts: Seq<(usize, usize)>, len: int)
    requires
        0 <= len <= parts.len(),
        numbers_at(text, parts.take(len)) is None,
    ensures
        numbers_at(text, parts) is None,
    decreases parts.len(),
{
    if len == parts.len() {
        assert(parts.take(len) =~= parts);
    } else {
        assert(parts.drop_last().take(len) =~= parts.take(len));
        lemma_numbers_fail(text, parts.drop_last(), len);
    }
}

/// The words between `from` and `to`: the runs of bytes that are no white
/// space, each as long as it can be.
pub open spec fn words_of(text: Seq<u8>, from: int, to: int) -> Seq<(usize, usize)>
    decreases to - from,
{
    let start = first_where(text, from, to, past_space());
    if from >= to || start >= to || start < from {
        Seq::empty()
    } else {
        let end = first_where(text, start, to, at_space());
        if end <= start || end > to {
            Seq::empty()
        } else {
            seq![(start as usize, end as usize)] + words_of(text, end, to)
        }
    }
}

/// Finds the words between `from` and `to`.
pub fn split_words(text: &[u8], from: usize, to: usize) -> (words: Vec<(usize, usize)>)
    requires
        from <= to <= text@.len(),
    ensures
        words@ == words_of(text@, from as int, to as int),
        forall|i: int|
            0 <= i < words@.len() ==> from <= (#[trigger] words@[i]).0 < words@[i].1 <= to,
{
    let mut words: Vec<(usize, usize)> = Vec::new();
    let mut at = from;
    let ghost all = words_of(text@, from as int, to as int);
    proof {
        assert(words@ + all =~= all);
    }
    while at < to
        invariant
            from <= at <= to,
            to <= text@.len(),
            words@ + words_of(text@, at as int, to as int) == words_of(
                text@,
                from as int,
                to as int,
            ),
            forall|i: int|
                0 <= i < words@.len() ==> from <= (#[trigger] words@[i]).0 < words@[i].1 <= to,
        decreases to - at,
    {
        let start = skip_space(text, at, to);
        let ghost rest = words_of(text@, at as int, to as int);
        let ghost before = words@;
        if start >= to {
            proof {
                assert(rest =~= Seq::<(usize, usize)>::empty());
                assert(words_of(text@, to as int, to as int) =~= Seq::<(usize, usize)>::empty());
            }
            at = to;
        } else {
            let end = find_space(text, start, to);
            proof {
                lemma_first_where(text@, at as int, to as int, past_space());
                lemma_first_where(text@, start as int, to as int, at_space());
                assert(end > start);
            }
            words.push((start, end));
            proof {
                assert(words@ + words_of(text@, end as int, to as int) =~= before + rest);
            }
            at = end;
        }
    }
    proof {
        assert(words_of(text@, to as int, to as int) =~= Seq::<(usize, usize)>::empty());
        assert(words@ + Seq::<(usize, usize)>::empty() =~= words@);
    }
    words
}

/// The bytes of the lines, line by line.
pub open spec fn rows_of(text: Seq<u8>, lines: Seq<(usize, usize)>) -> Seq<Seq<u8>> {
    Seq::new(lines.len(), |r: int| text.subrange(lines[r].0 as int, lines[r].1 as int))
}

/// A grid of vectors as a grid of sequences.
pub open spec fn grid_view<T>(grid: Seq<Vec<T>>) -> Seq<Seq<T>> {
    Seq::new(grid.len(), |r: int| grid[r]@)
}

/// Copies the lines of a text into a grid of bytes.
pub fn byte_grid(text: &[u8], lines: &Vec<(usize, usize)>) -> (grid: Vec<Vec<u8>>)
    requires
        parts_within(text@, lines@),
    ensures
        grid_view(grid@) == rows_of(text@, lines@),
{
    let mut grid: Vec<Vec<u8>> = Vec::new();
    let ghost wanted = rows_of(text@, lines@);
    let mut row: usize = 0;
    while row < lines.len()
        invariant
            row <= lines.len(),
            parts_within(text@, lines@),
            wanted == rows_of(text@, lines@),
            grid@.len() == row,
            forall|r: int| 0 <= r < row ==> (#[trigger] grid@[r])@ == wanted[r],
        decreases lines.len() - row,
    {
        let (from, to) = lines[row];
        let mut cells: Vec<u8> = Vec::new();
        let mut at = from;
        while at < to
            invariant
                from <= at <= to,
                to <= text@.len(),
                cells@ == text@.subrange(from as int, at as int),
            decreases to - at,
        {
            cells.push(text[at]);
            at += 1;
            proof {
                assert(cells@ =~= text@.subrange(from as int, at as int));
            }
        }
        grid.push(cells);
        row += 1;
    }
    proof {
        assert(grid_view(grid@) =~= wanted);
    }
    grid
}

/// The letters that the bytes of the lines stand for, line by line.
pub open spec fn letters_of(text: Seq<u8>, lines: Seq<(usize, usize)>) -> Seq<Seq<char>> {
    Seq::new(
        lines.len(),
        |r: int|
            Seq::new(
                (lines[r].1 - lines[r].0) as nat,
                |c: int| text[lines[r].0 + c] as char,
            ),
    )
}

/// Copies the lines of an ASCII text into a grid of letters.
pub fn char_grid(text: &[u8], lines: &Vec<(usize, usize)>) -> (grid: Vec<Vec<char>>)
    requires
        parts_within(text@, lines@),
    ensures
        grid_view(grid@) == letters_of(text@, lines@),
{
    let mut grid: Vec<Vec<char>> = Vec::new();
    let ghost wanted = letters_of(text@, lines@);
    let mut row: usize = 0;
    while row < lines.len()
        invariant
            row <= lines.len(),
            parts_within(text@, lines@),
            wanted == letters_of(text@, lines@),
            grid@.len() == row,
            forall|r: int| 0 <= r < row ==> (#[trigger] grid@[r])@ == wanted[r],
        decreases lines.len() - row,
    {
        let (from, to) = lines[row];
        let mut cells: Vec<char> = Vec::new();
        let mut at = from;
        let ghost line = wanted[row as int];
        while at < to
            invariant
                from <= at <= to,
                to <= text@.len(),
                row < lines.len(),
                lines@[row as int] == (from, to),
                line == letters_of(text@, lines@)[row as int],
                cells@ == line.take(at - from),
            decreases to - at,
        {
            cells.push(text[at] as char);
            at += 1;
            proof {
                assert(cells@ =~= line.take(at - from));
            }
        }
        proof {
            assert(line.take(at - from) =~= line);
        }
        grid.push(cells);
        row += 1;
    }
    proof {
        assert(grid_view(grid@) =~= wanted);
    }
    grid
}

/// The numbers that the words of every line spell, line by line; nothing
/// where a word spells no number.
pub open spec fn number_rows_of(text: Seq<u8>, lines: Seq<(usize, usize)>) -> Option<Seq<Seq<u64>>>
    decreases lines.len(),
{
    if lines.len() == 0 {
        Some(Seq::empty())
    } else {
        let line = lines.last();
        match (
            number_rows_of(text, lines.drop_last()),
            numbers_at(text, words_of(text, line.0 as int, line.1 as int)),
        ) {
            (Some(above), Some(row)) => Some(above.push(row)),
            _ => None,
        }
    }
}

/// Where the first lines hold a word that spells no number, all lines do.
pub proof fn lemma_number_rows_fail(text: Seq<u8>, lines: Seq<(usize, usize)>, len: int)
    requires
        0 <= len <= lines.len(),
        number_rows_of(text, lines.take(len)) is None,
    ensures
        number_rows_of(text, lines) is None,
    decreases lines.len(),
{
    if len == lines.len() {
        assert(lines.take(len) =~= lines);
    } else {
        assert(lines.drop_last().take(len) =~= lines.take(len));
        lemma_number_rows_fail(text, lines.drop_last(), len);
    }
}

/// Reads the numbers that the words of every line spell.
pub fn number_rows(text: &[u8], lines: &Vec<(usize, usize)>) -> (rows: Option<Vec<Vec<u64>>>)
    requires
        parts_within(text@, lines@),
    ensures
        match rows {
            Some(read) => number_rows_of(text@, lines@) == Some(grid_view(read@)),
            None => number_rows_of(text@, lines@) is None,
        },
{
    let mut rows: Vec<Vec<u64>> = Vec::new();
    let mut at: usize = 0;
    proof {
        assert(lines@.take(0) =~= Seq::<(usize, usize)>::empty());
        assert(grid_view(rows@) =~= Seq::<Seq<u64>>::empty());
    }
    while at < lines.len()
        invariant
            at <= lines.len(),
            parts_within(text@, lines@),
            number_rows_of(text@, lines@.take(at as int)) == Some(grid_view(rows@)),
        decreases lines.len() - at,
    {
        let (from, to) = lines[at];
        let words = split_words(text, from, to);
        proof {
            let next = lines@.take(at + 1);
            assert(next.drop_last() =~= lines@.take(at as int));
            assert(next.last() == lines@[at as int]);
        }
        let ghost above = grid_view(rows@);
        match parse_numbers(text, &words) {
            Some(row) => {
                rows.push(row);
                proof {
                    assert(grid_view(rows@) =~= above.push(row@));
                }
            },
            None => {
                proof {
                    lemma_number_rows_fail(text@, lines@, at + 1);
                }
                return None;
            },
        }
        at += 1;
    }
    proof {
        assert(lines@.take(at as int) =~= lines@);
    }
    Some(rows)
}

/// Splits a whole text into its lines.
pub fn all_lines(text: &[u8]) -> (lines: Vec<(usize, usize)>)
    ensures
        lines@ == lines_of(text@, 0, text@.len() as int),
        parts_within(text@, lines@),
{
    split_lines(text, 0, text.len())
}

/// Where the byte stands last before column `c` of row `r`, reading the
/// rows from left to right and from top to bottom.
pub open spec fn last_before(rows: Seq<Seq<u8>>, byte: u8, r: int, c: int) -> Option<(usize, usize)>
    decreases r, c,
{
    if r < 0 || c < 0 {
        None
    } else if c > 0 {
        if r < rows.len() && c <= rows[r].len() && rows[r][c - 1] == byte {
            Some((r as usize, (c - 1) as usize))
        } else {
            last_before(rows, byte, r, c - 1)
        }
    } else if r > 0 {
        last_before(rows, byte, r - 1, rows[r - 1].len() as int)
    } else {
        None
    }
}

/// Where the byte stands before column `c` of row `r`, reading the rows
/// from left to right and from top to bottom.
pub open spec fn occurrences(rows: Seq<Seq<u8>>, byte: u8, r: int, c: int) -> Seq<(isize, isize)>
    decreases r, c,
{
    if r < 0 || c < 0 {
        Seq::empty()
    } else if c > 0 {
        if r < rows.len() && c <= rows[r].len() && rows[r][c - 1] == byte {
            occurrences(rows, byte, r, c - 1).push((r as isize, (c - 1) as isize))
        } else {
            occurrences(rows, byte, r, c - 1)
        }
    } else if r > 0 {
        occurrences(rows, byte, r - 1, rows[r - 1].len() as int)
    } else {
        Seq::empty()
    }
}

/// The bytes of the text from `from` up to `to`.
pub fn copy_part(text: &[u8], from: usize, to: usize) -> (part: Vec<u8>)
    requires
        from <= to <= text@.len(),
    ensures
        part@ == text@.subrange(from as int, to as int),
{
    let mut part: Vec<u8> = Vec::new();
    let mut at = from;
    while at < to
        invariant
            from <= at <= to <= text@.len(),
            part@ == text@.subrange(from as int, at as int),
        decreases to - at,
    {
        part.push(text[at]);
        at += 1;
        assert(part@ =~= text@.subrange(from as int, at as int));
    }
    part
}

/// A copy of the bytes.
pub fn copy_whole(bytes: &Vec<u8>) -> (copy: Vec<u8>)
    ensures
        copy@ == bytes@,
{
    let copy = copy_part(bytes.as_slice(), 0, bytes.len());
    assert(bytes@.subrange(0, bytes@.len() as int) =~= bytes@);
    copy
}

/// Whether two lists hold the same bytes.
pub fn same_bytes(a: &Vec<u8>, b: &Vec<u8>) -> (same: bool)
    ensures
        same == (a@ == b@),
{
    if a.len() != b.len() {
        return false;
    }
    let mut at: usize = 0;
    while at < a.len()
        invariant
            at <= a.len(),
            a.len() == b.len(),
            forall|i: int| 0 <= i < at ==> a@[i] == b@[i],
        decreases a.len() - at,
    {
        if a[at] != b[at] {
            return false;
        }
        at += 1;
    }
    assert(a@ =~= b@);
    true
}


} // verus!
