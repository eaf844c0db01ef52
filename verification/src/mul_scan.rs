//! Scanning a corrupted memory for multiplications written as
//! `mul(12,34)`, and for the words `do` and `don't` that switch them on and
//! off.

use vstd::prelude::*;
use crate::text::{
    first_where, lemma_first_where, parse_number, past_digits,
    skip_digits, spelled,
};

verus! {

/// The text reads `word` from position `at` on.
pub open spec fn reads(text: Seq<u8>, at: int, word: Seq<u8>) -> bool {
    at + word.len() <= text.len() && text.subrange(at, at + word.len()) == word
}

/// The bytes of `mul(`.
pub open spec fn mul_word() -> Seq<u8> {
    seq![109u8, 117u8, 108u8, 40u8]
}

/// The bytes of `do`.
pub open spec fn do_word() -> Seq<u8> {
    seq![100u8, 111u8]
}

/// The bytes of `don't`.
pub open spec fn dont_word() -> Seq<u8> {
    seq![100u8, 111u8, 110u8, 39u8, 116u8]
}

/// A multiplication found in the text: its two factors and the position
/// behind it.
pub struct Mul {
    pub n: u64,
    pub m: u64,
    pub end: usize,
}

/// Where the digits that begin at `from` end.
pub open spec fn digits_end(text: Seq<u8>, from: int) -> int {
    first_where(text, from, text.len() as int, past_digits())
}

/// The text holds a multiplication at the position: `mul(`, digits, a
/// comma, digits and `)`.
pub open spec fn mul_shape(text: Seq<u8>, at: int) -> bool {
    let first = at + 4;
    let comma = digits_end(text, first);
    let second = comma + 1;
    let close = digits_end(text, second);
    &&& reads(text, at, mul_word())
    &&& first < comma < text.len()
    &&& text[comma] == 44
    &&& second < close < text.len()
    &&& text[close] == 41
}

/// The multiplication that the text holds at the position, if it holds one
/// and both factors fit 64 bits.
pub open spec fn mul_at(text: Seq<u8>, at: int) -> Option<Mul> {
    let first = at + 4;
    let comma = digits_end(text, first);
    let second = comma + 1;
    let close = digits_end(text, second);
    if mul_shape(text, at) {
        match (spelled(text.subrange(first, comma)), spelled(text.subrange(second, close))) {
            (Some(n), Some(m)) => Some(Mul { n: n, m: m, end: (close + 1) as usize }),
            _ => None,
        }
    } else {
        None
    }
}

/// Whether the text reads `word` from position `at` on.
fn starts_with(text: &[u8], at: usize, word: &[u8]) -> (yes: bool)
    requires
        at <= text@.len(),
    ensures
        yes == reads(text@, at as int, word@),
{
    if word.len() > text.len() - at {
        return false;
    }
    let mut k: usize = 0;
    while k < word.len()
        invariant
            k <= word.len(),
            at + word@.len() <= text.len(),
            forall|i: int| 0 <= i < k ==> text@[at + i] == word@[i],
        decreases word.len() - k,
    {
        if text[at + k] != word[k] {
            proof {
                assert(text@.subrange(at as int, at + word@.len())[k as int] != word@[k as int]);
            }
            return false;
        }
        k += 1;
    }
    proof {
        assert(text@.subrange(at as int, at + word@.len()) =~= word@);
    }
    true
}

/// The bytes of `mul(`.
fn mul_bytes() -> (word: [u8; 4])
    ensures
        word@ == mul_word(),
{
    let word = [109u8, 117u8, 108u8, 40u8];
    assert(word@ =~= mul_word());
    word
}

/// Reads the multiplication that the text holds at the position. The
/// second result tells whether the text has the shape of a multiplication
/// there, be it with factors that do not fit.
pub fn read_mul(text: &[u8], at: usize) -> (read: (Option<Mul>, bool))
    requires
        at <= text@.len(),
    ensures
        read.0 == mul_at(text@, at as int),
        read.1 == mul_shape(text@, at as int),
{
    let word = mul_bytes();
    if !starts_with(text, at, &word) {
        return (None, false);
    }
    assert(word@.len() == 4 && at + 4 <= text.len());
    let first = at + 4;
    let comma = skip_digits(text, first, text.len());
    if !(first < comma && comma < text.len() && text[comma] == 44) {
        return (None, false);
    }
    let second = comma + 1;
    let close = skip_digits(text, second, text.len());
    if !(second < close && close < text.len() && text[close] == 41) {
        return (None, false);
    }
    match (parse_number(text, first, comma), parse_number(text, second, close)) {
        (Some(n), Some(m)) => (Some(Mul { n: n, m: m, end: close + 1 }), true),
        _ => (None, true),
    }
}

/// The sum of the products of the multiplications in the text from the
/// position on, found one after the other; nothing where a factor, a
/// product or the sum does not fit 64 bits.
pub open spec fn mul_sum(text: Seq<u8>, from: int) -> Option<u64>
    decreases text.len() - from,
{
    if from >= text.len() {
        Some(0)
    } else if mul_shape(text, from) {
        match mul_at(text, from) {
            Some(found) => if from < found.end <= text.len() {
                match mul_sum(text, found.end as int) {
                    Some(rest) => if found.n * found.m + rest <= u64::MAX {
                        Some((found.n * found.m + rest) as u64)
                    } else {
                        None
                    },
                    None => None,
                }
            } else {
                None
            },
            None => None,
        }
    } else {
        mul_sum(text, from + 1)
    }
}

/// A sum so far with what is still to come added; nothing where that
/// does not fit 64 bits.
pub open spec fn with_rest(sum: u64, rest: Option<u64>) -> Option<u64> {
    match rest {
        Some(more) => if sum + more <= u64::MAX {
            Some((sum + more) as u64)
        } else {
            None
        },
        None => None,
    }
}

/// The sum of the products of all multiplications in the text; nothing
/// where a factor, a product or the sum does not fit 64 bits.
pub fn solve_a(input: &[u8]) -> (sum: Option<u64>)
    ensures
        sum == mul_sum(input@, 0),
{
    let mut sum: u64 = 0;
    let mut idx: usize = 0;
    while idx < input.len()
        invariant
            idx <= input@.len(),
            mul_sum(input@, 0) == with_rest(sum, mul_sum(input@, idx as int)),
        decreases input@.len() - idx,
    {
        let (found, shaped) = read_mul(input, idx);
        if !shaped {
            idx += 1;
        } else {
            match found {
                None => {
                    return None;
                },
                Some(mul) => {
                    proof {
                        lemma_first_where(input@, idx + 4, input@.len() as int, past_digits());
                        lemma_first_where(
                            input@,
                            digits_end(input@, idx + 4) + 1,
                            input@.len() as int,
                            past_digits(),
                        );
                    }
                    match mul.n.checked_mul(mul.m) {
                        None => {
                            return None;
                        },
                        Some(product) => match sum.checked_add(product) {
                            None => {
                                return None;
                            },
                            Some(next) => {
                                sum = next;
                            },
                        },
                    }
                    idx = mul.end;
                },
            }
        }
    }
    Some(sum)
}

/// The sum of the products of the multiplications that are switched on,
/// from the position on. `don't` switches off and `do` switches on. A
/// multiplication is passed over by three bytes, any other byte by one.
pub open spec fn switched_sum(text: Seq<u8>, from: int, enabled: bool) -> Option<u64>
    decreases text.len() - from,
{
    if from >= text.len() {
        Some(0)
    } else if reads(text, from, dont_word()) {
        switched_sum(text, from + 5, false)
    } else if reads(text, from, do_word()) {
        switched_sum(text, from + 2, true)
    } else if enabled && mul_shape(text, from) {
        match mul_at(text, from) {
            Some(found) => match switched_sum(text, from + 3, enabled) {
                Some(rest) => if found.n * found.m + rest <= u64::MAX {
                    Some((found.n * found.m + rest) as u64)
                } else {
                    None
                },
                None => None,
            },
            None => None,
        }
    } else {
        switched_sum(text, from + 1, enabled)
    }
}

/// The sum of the products of the multiplications in the text that are
/// switched on; nothing where a factor, a product or the sum does not fit
/// 64 bits.
pub fn solve_b(input: &[u8]) -> (sum: Option<u64>)
    ensures
        sum == switched_sum(input@, 0, true),
{
    let mut enabled = true;
    let mut idx: usize = 0;

    let mut sum: u64 = 0;
    let dont: [u8; 5] = [100, 111, 110, 39, 116];
    let doit: [u8; 2] = [100, 111];
    assert(dont@ =~= dont_word());
    assert(doit@ =~= do_word());

    while idx < input.len()
        invariant
            idx <= input@.len(),
            dont@ == dont_word(),
            doit@ == do_word(),
            switched_sum(input@, 0, true) == with_rest(sum, switched_sum(input@, idx as int, enabled)),
        decreases input@.len() - idx,
    {
        if starts_with(input, idx, &dont) {
            enabled = false;
            idx += 5;
            continue ;
        }
        if starts_with(input, idx, &doit) {
            enabled = true;
            idx += 2;
            continue ;
        }
        if enabled {
            let (found, shaped) = read_mul(input, idx);
            if shaped {
                match found {
                    None => {
                        return None;
                    },
                    Some(mul) => {
                        match mul.n.checked_mul(mul.m) {
                            None => {
                                return None;
                            },
                            Some(product) => match sum.checked_add(product) {
                                None => {
                                    return None;
                                },
                                Some(next) => {
                                    sum = next;
                                },
                            },
                        }
                        assert(reads(input@, idx as int, mul_word()));
                        idx += 3;
                        continue ;
                    },
                }
            }
        }
        idx += 1;
    }

    Some(sum)
}

} // verus!
