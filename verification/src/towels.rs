//! Towels with striped patterns: in how many ways can a design be laid out
//! from the towels at hand?

use vstd::prelude::*;
use vstd::slice::slice_subrange;
use crate::counting::{
    count_below,
    lemma_sum_over_concat, lemma_sum_over_push, lemma_sum_over_take, sum_over,
};
use radix_trie::{Trie, TrieCommon};

use crate::text::{block_end, find_block_end, lines_of, split_lines};

verus! {

/// The colour of a stripe.
#[derive(Clone, Copy, PartialEq, Eq, Debug, PartialOrd, Ord, Hash, Structural)]
pub enum Color {
    White,
    Blue,
    Black,
    Red,
    Green,
}

/// The letter that stands for a colour.
pub open spec fn letter_of(color: Color) -> u8 {
    match color {
        Color::White => 119,
        Color::Blue => 117,
        Color::Black => 98,
        Color::Red => 114,
        Color::Green => 103,
    }
}

/// The number under which a colour is filed.
pub open spec fn code_of(color: Color) -> u8 {
    match color {
        Color::White => 0,
        Color::Blue => 1,
        Color::Black => 2,
        Color::Red => 3,
        Color::Green => 4,
    }
}

impl Color {
    /// The colour that a letter stands for, or the letter itself where it
    /// stands for none.
    pub fn try_from(value: u8) -> (color: Result<Color, u8>)
        ensures
            match color {
                Ok(found) => letter_of(found) == value,
                Err(letter) => letter == value && forall|any: Color| letter_of(any) != value,
            },
    {
        if value == 119 {
            Ok(Self::White)
        } else if value == 117 {
            Ok(Self::Blue)
        } else if value == 98 {
            Ok(Self::Black)
        } else if value == 114 {
            Ok(Self::Red)
        } else if value == 103 {
            Ok(Self::Green)
        } else {
            Err(value)
        }
    }

    /// The letter that stands for the colour.
    pub fn letter(self) -> (letter: u8)
        ensures
            letter == letter_of(self),
    {
        match self {
            Color::White => 119,
            Color::Blue => 117,
            Color::Black => 98,
            Color::Red => 114,
            Color::Green => 103,
        }
    }

    /// The number under which the colour is filed.
    pub fn code(self) -> (code: u8)
        ensures
            code == code_of(self),
    {
        match self {
            Color::White => 0,
            Color::Blue => 1,
            Color::Black => 2,
            Color::Red => 3,
            Color::Green => 4,
        }
    }
}

/// A pattern of stripes.
#[derive(Clone, PartialEq, Eq, Debug)]
pub struct StripePattern(pub Vec<Color>);

/// The numbers of the colours of a pattern.
pub open spec fn codes_of(colors: Seq<Color>) -> Seq<u8> {
    Seq::new(colors.len(), |i: int| code_of(colors[i]))
}

impl StripePattern {
    /// The numbers of the colours of the pattern.
    pub fn encode_bytes(&self) -> (bytes: Vec<u8>)
        ensures
            bytes@ == codes_of(self.0@),
    {
        encode_colors(self.0.as_slice())
    }
}

/// The numbers of the colours of a pattern.
pub fn encode_colors(colors: &[Color]) -> (bytes: Vec<u8>)
    ensures
        bytes@ == codes_of(colors@),
{
    let mut bytes: Vec<u8> = Vec::new();
    let mut at: usize = 0;
    while at < colors.len()
        invariant
            at <= colors.len(),
            bytes@ == codes_of(colors@.take(at as int)),
        decreases colors.len() - at,
    {
        bytes.push(colors[at].code());
        at += 1;
        proof {
            assert(bytes@ =~= codes_of(colors@.take(at as int)));
        }
    }
    proof {
        assert(colors@.take(at as int) =~= colors@);
    }
    bytes
}

/// The trie of `radix_trie`.
#[verifier::external_type_specification]
#[verifier::external_body]
#[verifier::reject_recursive_types(K)]
#[verifier::reject_recursive_types(V)]
pub struct ExTrie<K, V>(Trie<K, V>);

/// The towels at hand, filed by the numbers of their colours.
pub type Towels = Trie<Vec<u8>, ()>;

/// The keys that a trie of towels holds.
pub uninterp spec fn towel_keys(towels: Towels) -> Set<Seq<u8>>;

/// `Trie::new`: a trie without keys.
#[verifier::external_body]
fn towels_new() -> (towels: Towels)
    ensures
        towel_keys(towels) == Set::<Seq<u8>>::empty(),
{
    Trie::new()
}

/// `Trie::insert`: the key is one of the keys afterwards, beside those
/// that were there.
#[verifier::external_body]
fn towels_insert(towels: &mut Towels, key: Vec<u8>)
    ensures
        towel_keys(*final(towels)) == towel_keys(*old(towels)).insert(key@),
{
    towels.insert(key, ());
}

/// `len` is the length of the longest key that the bytes begin with, or
/// nothing where they begin with no key.
pub open spec fn is_longest(keys: Set<Seq<u8>>, bytes: Seq<u8>, len: Option<usize>) -> bool {
    match len {
        Some(longest) => {
            &&& longest <= bytes.len()
            &&& keys.contains(bytes.take(longest as int))
            &&& forall|longer: int|
                longest < longer <= bytes.len() ==> !keys.contains(#[trigger] bytes.take(longer))
        },
        None => forall|any: int| 0 <= any <= bytes.len() ==> !keys.contains(#[trigger] bytes.take(any)),
    }
}

/// `Trie::get_ancestor` and the length of the key that it finds: the
/// longest key of the trie with which the bytes begin.
#[verifier::external_body]
fn longest_towel(towels: &Towels, bytes: &Vec<u8>) -> (len: Option<usize>)
    ensures
        is_longest(towel_keys(*towels), bytes@, len),
{
    match towels.get_ancestor(bytes) {
        Some(found) => Some(found.key().unwrap().len()),
        None => None,
    }
}

/// The number of ways to lay out the stripes from the towels at hand,
/// when the first towel is one of at most `upto` stripes.
pub open spec fn ways_upto(keys: Set<Seq<u8>>, stripes: Seq<u8>, upto: nat) -> nat
    decreases stripes.len(), upto,
{
    if upto == 0 || upto > stripes.len() {
        0
    } else {
        ways_upto(keys, stripes, (upto - 1) as nat) + (if keys.contains(stripes.take(upto as int)) {
            ways(keys, stripes.skip(upto as int))
        } else {
            0nat
        })
    }
}

/// The number of ways to lay out the stripes from the towels at hand.
pub open spec fn ways(keys: Set<Seq<u8>>, stripes: Seq<u8>) -> nat
    decreases stripes.len(), stripes.len() + 1,
{
    if stripes.len() == 0 {
        1
    } else {
        ways_upto(keys, stripes, stripes.len())
    }
}

/// Where no towel of a length between `from` and `upto` lies at the
/// beginning of the stripes, the ways with a first towel of at most `upto`
/// stripes are those with one of fewer than `from`.
pub proof fn lemma_ways_gap(keys: Set<Seq<u8>>, stripes: Seq<u8>, from: nat, upto: nat)
    requires
        from <= upto <= stripes.len(),
        forall|len: int| from <= len <= upto ==> !keys.contains(#[trigger] stripes.take(len)),
        from >= 1,
    ensures
        ways_upto(keys, stripes, upto) == ways_upto(keys, stripes, (from - 1) as nat),
    decreases upto,
{
    if upto >= from {
        if upto > from {
            lemma_ways_gap(keys, stripes, from, (upto - 1) as nat);
        }
    }
}

/// The ways with a shorter first towel are no more.
pub proof fn lemma_ways_mono(keys: Set<Seq<u8>>, stripes: Seq<u8>, fewer: nat, more: nat)
    requires
        fewer <= more <= stripes.len(),
    ensures
        ways_upto(keys, stripes, fewer) <= ways_upto(keys, stripes, more),
    decreases more,
{
    if fewer < more {
        lemma_ways_mono(keys, stripes, fewer, (more - 1) as nat);
    }
}

/// What the cache holds: for lengths of ends of the design, the number of
/// ways to lay out that end.
pub open spec fn ways_cached(keys: Set<Seq<u8>>, design: Seq<u8>, cache: Seq<Option<u64>>) -> bool {
    &&& cache.len() == design.len() + 1
    &&& forall|len: int|
        0 <= len <= design.len() ==> ((#[trigger] cache[len]) matches Some(count) ==> count
            == ways(keys, design.skip(design.len() - len)))
}

/// The number of ways to lay out a pattern from the towels at hand. The
/// pattern is the end of a design, and the cache holds what has been
/// counted for ends of that design, by their lengths.
fn find_num_ways(
    towels: &Towels,
    pattern: &[Color],
    cache: &mut Vec<Option<u64>>,
    Ghost(design): Ghost<Seq<u8>>,
) -> (num_ways: u64)
    requires
        !towel_keys(*towels).contains(Seq::<u8>::empty()),
        pattern@.len() <= design.len(),
        codes_of(pattern@) == design.skip(design.len() - pattern@.len()),
        ways_cached(towel_keys(*towels), design, old(cache)@),
        forall|len: int|
            0 <= len <= design.len() ==> #[trigger] ways(
                towel_keys(*towels),
                design.skip(design.len() - len),
            ) <= u64::MAX,
    ensures
        num_ways == ways(towel_keys(*towels), codes_of(pattern@)),
        ways_cached(towel_keys(*towels), design, final(cache)@),
    decreases pattern@.len(),
{
    let ghost keys = towel_keys(*towels);
    let ghost stripes = codes_of(pattern@);
    if pattern.len() == 0 {
        return 1;
    }
    if let Some(cached) = cache[pattern.len()] {
        return cached;
    }
    proof {
        assert(ways(keys, design.skip(design.len() - pattern@.len())) <= u64::MAX);
    }
    let mut num_ways: u64 = 0;
    let mut prev_len = pattern.len();
    while prev_len > 0
        invariant
            prev_len <= pattern@.len(),
            pattern@.len() > 0,
            keys == towel_keys(*towels),
            stripes == codes_of(pattern@),
            !keys.contains(Seq::<u8>::empty()),
            pattern@.len() <= design.len(),
            stripes == design.skip(design.len() - pattern@.len()),
            ways_cached(keys, design, cache@),
            forall|len: int|
                0 <= len <= design.len() ==> #[trigger] ways(keys, design.skip(design.len() - len))
                    <= u64::MAX,
            ways(keys, stripes) <= u64::MAX,
            num_ways + ways_upto(keys, stripes, prev_len as nat) == ways(keys, stripes),
        decreases prev_len,
    {
        let front = encode_colors(slice_subrange(pattern, 0, prev_len));
        proof {
            assert(front@ =~= stripes.take(prev_len as int));
        }
        if let Some(prefix_len) = longest_towel(towels, &front) {
            proof {
                assert(front@.take(prefix_len as int) =~= stripes.take(prefix_len as int));
                assert(prefix_len > 0) by {
                    if prefix_len == 0 {
                        assert(stripes.take(0) =~= Seq::<u8>::empty());
                    }
                }
                assert forall|len: int| prefix_len < len <= prev_len implies !keys.contains(
                    #[trigger] stripes.take(len),
                ) by {
                    assert(front@.take(len) =~= stripes.take(len));
                }
                if prefix_len < prev_len {
                    lemma_ways_gap(keys, stripes, (prefix_len + 1) as nat, prev_len as nat);
                }
                lemma_ways_mono(keys, stripes, prefix_len as nat, pattern@.len());
                let end = stripes.skip(prefix_len as int);
                assert(end =~= design.skip(design.len() - (pattern@.len() - prefix_len)));
                assert(ways(keys, design.skip(design.len() - (pattern@.len() - prefix_len)))
                    <= u64::MAX);
                assert(codes_of(pattern@.subrange(prefix_len as int, pattern@.len() as int))
                    =~= end);
            }
            let rest = slice_subrange(pattern, prefix_len, pattern.len());
            let found = find_num_ways(towels, rest, cache, Ghost(design));
            num_ways += found;
            prev_len = prefix_len;
        } else {
            proof {
                assert forall|len: int| 1 <= len <= prev_len implies !keys.contains(
                    #[trigger] stripes.take(len),
                ) by {
                    assert(front@.take(len) =~= stripes.take(len));
                }
                lemma_ways_gap(keys, stripes, 1, prev_len as nat);
                if prev_len > 1 {
                    lemma_ways_gap(keys, stripes, 1, (prev_len - 1) as nat);
                }
            }
        }
        prev_len -= 1;
    }
    let ghost before = cache@;
    cache[pattern.len()] = Some(num_ways);
    proof {
        assert forall|len: int| 0 <= len <= design.len() implies ((#[trigger] cache@[len]) matches Some(
            count,
        ) ==> count == ways(keys, design.skip(design.len() - len))) by {
            if len != pattern@.len() {
                assert(cache@[len] == before[len]);
            }
        }
    }
    return num_ways;
}

/// Every end of the design can be laid out in no more ways than 64 bits
/// can count.
pub open spec fn ways_fit(keys: Set<Seq<u8>>, design: Seq<u8>) -> bool {
    forall|len: int|
        0 <= len <= design.len() ==> #[trigger] ways(keys, design.skip(design.len() - len))
            <= u64::MAX
}

/// The number of ways to lay out a design from the towels at hand.
pub fn count_ways(towels: &Towels, design: &Vec<Color>) -> (num_ways: u64)
    requires
        !towel_keys(*towels).contains(Seq::<u8>::empty()),
        ways_fit(towel_keys(*towels), codes_of(design@)),
    ensures
        num_ways == ways(towel_keys(*towels), codes_of(design@)),
{
    let mut cache: Vec<Option<u64>> = Vec::new();
    let mut at: usize = 0;
    cache.push(None);
    while at < design.len()
        invariant
            at <= design.len(),
            cache@.len() == at + 1,
            forall|i: int| 0 <= i <= at ==> (#[trigger] cache@[i]) is None,
        decreases design.len() - at,
    {
        cache.push(None);
        at += 1;
    }
    proof {
        assert(codes_of(design@).skip(0) =~= codes_of(design@));
    }
    find_num_ways(towels, design.as_slice(), &mut cache, Ghost(codes_of(design@)))
}

/// The sum of the numbers of ways to lay out the designs.
pub open spec fn total_ways(keys: Set<Seq<u8>>, designs: Seq<StripePattern>) -> nat {
    sum_over(designs, |design: StripePattern| ways(keys, codes_of(design.0@)))
}

/// The sum of the numbers of ways to lay out each of the designs from the
/// towels at hand.
pub fn count_all_ways(towels: &Towels, designs: &Vec<StripePattern>) -> (sum: u64)
    requires
        !towel_keys(*towels).contains(Seq::<u8>::empty()),
        forall|i: int|
            0 <= i < designs@.len() ==> ways_fit(
                towel_keys(*towels),
                codes_of((#[trigger] designs@[i]).0@),
            ),
        total_ways(towel_keys(*towels), designs@) <= u64::MAX,
    ensures
        sum == total_ways(towel_keys(*towels), designs@),
{
    let ghost keys = towel_keys(*towels);
    let ghost term = |design: StripePattern| ways(keys, codes_of(design.0@));
    let mut sum: u64 = 0;
    let mut at: usize = 0;
    proof {
        assert(designs@.take(0) =~= Seq::<StripePattern>::empty());
    }
    while at < designs.len()
        invariant
            at <= designs.len(),
            keys == towel_keys(*towels),
            term == (|design: StripePattern| ways(keys, codes_of(design.0@))),
            !keys.contains(Seq::<u8>::empty()),
            forall|i: int|
                0 <= i < designs@.len() ==> ways_fit(keys, codes_of((#[trigger] designs@[i]).0@)),
            sum_over(designs@, term) <= u64::MAX,
            sum == sum_over(designs@.take(at as int), term),
        decreases designs.len() - at,
    {
        proof {
            let next = designs@.take(at + 1);
            assert(next.drop_last() =~= designs@.take(at as int));
            assert(next.last() == designs@[at as int]);
            lemma_sum_over_take(designs@, term, at + 1);
        }
        sum += count_ways(towels, &designs[at].0);
        at += 1;
    }
    proof {
        assert(designs@.take(at as int) =~= designs@);
    }
    sum
}

/// The walk over a design may go on by `step` stripes from `pos`: a towel
/// lies at the beginning of those stripes, and the longest towel that lies
/// at `pos` has at least that many.
pub open spec fn may_step(keys: Set<Seq<u8>>, stripes: Seq<u8>, pos: int, step: int) -> bool {
    &&& 1 <= step <= stripes.len() - pos
    &&& exists|short: int|
        0 <= short <= step && keys.contains(#[trigger] stripes.subrange(pos, pos + short))
    &&& exists|long: int|
        step <= long <= stripes.len() - pos && keys.contains(
            #[trigger] stripes.subrange(pos, pos + long),
        )
}

/// The walk gets from `pos` to the end of the design, its first step being
/// one of at most `upto` stripes.
pub open spec fn walks_over(keys: Set<Seq<u8>>, stripes: Seq<u8>, pos: int, upto: nat) -> bool
    decreases stripes.len() - pos, upto,
{
    if upto == 0 || pos < 0 || pos >= stripes.len() {
        false
    } else {
        walks_over(keys, stripes, pos, (upto - 1) as nat) || (may_step(keys, stripes, pos, upto as int)
            && walks(keys, stripes, pos + upto))
    }
}

/// The walk gets from `pos` to the end of the design.
pub open spec fn walks(keys: Set<Seq<u8>>, stripes: Seq<u8>, pos: int) -> bool
    decreases stripes.len() - pos, stripes.len() + 1,
{
    if pos == stripes.len() {
        true
    } else if pos < 0 || pos > stripes.len() {
        false
    } else {
        walks_over(keys, stripes, pos, (stripes.len() - pos) as nat)
    }
}

/// Where the stripes can be laid out with a first towel of at most `upto`
/// stripes, there is such a first towel with a way to lay out the rest.
pub proof fn lemma_ways_first(keys: Set<Seq<u8>>, stripes: Seq<u8>, upto: nat) -> (step: int)
    requires
        ways_upto(keys, stripes, upto) > 0,
    ensures
        1 <= step <= upto,
        step <= stripes.len(),
        keys.contains(stripes.take(step)),
        ways(keys, stripes.skip(step)) > 0,
    decreases upto,
{
    if keys.contains(stripes.take(upto as int)) && ways(keys, stripes.skip(upto as int)) > 0 {
        upto as int
    } else {
        lemma_ways_first(keys, stripes, (upto - 1) as nat)
    }
}

/// The walk gets on from `pos` where one of its first steps of at most
/// `upto` stripes may be taken and the walk gets on from there.
pub proof fn lemma_walks_step(keys: Set<Seq<u8>>, stripes: Seq<u8>, pos: int, step: int, upto: nat)
    requires
        0 <= pos < stripes.len(),
        1 <= step <= upto,
        may_step(keys, stripes, pos, step),
        walks(keys, stripes, pos + step),
    ensures
        walks_over(keys, stripes, pos, upto),
    decreases upto,
{
    if step < upto {
        lemma_walks_step(keys, stripes, pos, step, (upto - 1) as nat);
    }
}

/// The walk gets through every design that can be laid out from the
/// towels: from every position from which the rest of the stripes can be
/// laid out, the walk gets to the end.
pub proof fn lemma_laid_out_walks(keys: Set<Seq<u8>>, stripes: Seq<u8>, pos: int)
    requires
        0 <= pos <= stripes.len(),
        ways(keys, stripes.skip(pos)) > 0,
    ensures
        walks(keys, stripes, pos),
    decreases stripes.len() - pos,
{
    if pos < stripes.len() {
        let rest = stripes.skip(pos);
        let step = lemma_ways_first(keys, rest, rest.len());
        assert(rest.take(step) =~= stripes.subrange(pos, pos + step));
        assert(rest.skip(step) =~= stripes.skip(pos + step));
        lemma_laid_out_walks(keys, stripes, pos + step);
        assert(may_step(keys, stripes, pos, step));
        lemma_walks_step(keys, stripes, pos, step, (stripes.len() - pos) as nat);
    }
}

/// The number of steps that the walk spends from `pos` on, its first step
/// being one of at most `upto` stripes.
pub open spec fn walk_work_over(keys: Set<Seq<u8>>, stripes: Seq<u8>, pos: int, upto: nat) -> nat
    decreases stripes.len() - pos, upto,
{
    if upto == 0 || pos < 0 || pos >= stripes.len() {
        0
    } else {
        walk_work_over(keys, stripes, pos, (upto - 1) as nat) + (if may_step(
            keys,
            stripes,
            pos,
            upto as int,
        ) {
            walk_work(keys, stripes, pos + upto)
        } else {
            0nat
        })
    }
}

/// The number of steps that the walk spends from `pos` on.
pub open spec fn walk_work(keys: Set<Seq<u8>>, stripes: Seq<u8>, pos: int) -> nat
    decreases stripes.len() - pos, stripes.len() + 1,
{
    if pos < 0 || pos >= stripes.len() {
        1
    } else {
        1 + walk_work_over(keys, stripes, pos, (stripes.len() - pos) as nat)
    }
}

/// The positions to which the walk may step from `pos` with a step of at
/// most `upto` stripes.
pub open spec fn steps_from(keys: Set<Seq<u8>>, stripes: Seq<u8>, pos: int, upto: nat) -> Seq<usize>
    decreases upto,
{
    if upto == 0 {
        Seq::empty()
    } else if may_step(keys, stripes, pos, upto as int) {
        steps_from(keys, stripes, pos, (upto - 1) as nat).push((pos + upto) as usize)
    } else {
        steps_from(keys, stripes, pos, (upto - 1) as nat)
    }
}

/// What the positions to which the walk may step add up to.
pub proof fn lemma_steps_from(keys: Set<Seq<u8>>, stripes: Seq<u8>, pos: int, upto: nat)
    requires
        0 <= pos < stripes.len(),
        upto <= stripes.len() - pos,
        stripes.len() <= usize::MAX,
    ensures
        sum_over(
            steps_from(keys, stripes, pos, upto),
            |at: usize| walk_work(keys, stripes, at as int),
        ) == walk_work_over(keys, stripes, pos, upto),
        walks_over(keys, stripes, pos, upto) <==> exists|i: int|
            0 <= i < steps_from(keys, stripes, pos, upto).len() && walks(
                keys,
                stripes,
                (#[trigger] steps_from(keys, stripes, pos, upto)[i]) as int,
            ),
        forall|i: int|
            0 <= i < steps_from(keys, stripes, pos, upto).len() ==> (#[trigger] steps_from(
                keys,
                stripes,
                pos,
                upto,
            )[i]) <= stripes.len(),
    decreases upto,
{
    let work = |at: usize| walk_work(keys, stripes, at as int);
    if upto > 0 {
        let fewer = (upto - 1) as nat;
        lemma_steps_from(keys, stripes, pos, fewer);
        let before = steps_from(keys, stripes, pos, fewer);
        let after = steps_from(keys, stripes, pos, upto);
        let next = (pos + upto) as usize;
        if may_step(keys, stripes, pos, upto as int) {
            lemma_sum_over_push(before, next, work);
            assert(after[after.len() - 1] == next);
        }
        if walks_over(keys, stripes, pos, fewer) {
            let i = choose|i: int|
                0 <= i < before.len() && walks(keys, stripes, (#[trigger] before[i]) as int);
            assert(after[i] == before[i]);
        }
        if exists|i: int|
            0 <= i < after.len() && walks(keys, stripes, (#[trigger] after[i]) as int) {
            let i = choose|i: int|
                0 <= i < after.len() && walks(keys, stripes, (#[trigger] after[i]) as int);
            if i < before.len() {
                assert(after[i] == before[i]);
            }
        }
        assert forall|i: int| 0 <= i < after.len() implies (#[trigger] after[i])
            <= stripes.len() by {
            if i < before.len() {
                assert(after[i] == before[i]);
            }
        }
    }
}

/// Whether the walk over a design gets to its end. The walk goes from a
/// position to every position that is at least as far as the shortest and
/// at most as far as the longest towel that lies there.
pub fn is_possible(towels: &Towels, pattern: &Vec<Color>) -> (possible: bool)
    requires
        !towel_keys(*towels).contains(Seq::<u8>::empty()),
    ensures
        possible == walks(towel_keys(*towels), codes_of(pattern@), 0),
{
    let ghost keys = towel_keys(*towels);
    let ghost stripes = codes_of(pattern@);
    let ghost work = |at: usize| walk_work(keys, stripes, at as int);
    let mut queue: Vec<usize> = Vec::new();
    queue.push(0);
    let mut possible = false;
    proof {
        lemma_sum_over_push(Seq::<usize>::empty(), 0usize, work);
        assert(queue@ =~= Seq::<usize>::empty().push(0usize));
    }

    while queue.len() > 0
        invariant_except_break
            !possible,
            walks(keys, stripes, 0) <==> exists|i: int|
                0 <= i < queue@.len() && walks(keys, stripes, (#[trigger] queue@[i]) as int),
        invariant
            keys == towel_keys(*towels),
            !keys.contains(Seq::<u8>::empty()),
            stripes == codes_of(pattern@),
            work == (|at: usize| walk_work(keys, stripes, at as int)),
            forall|i: int| 0 <= i < queue@.len() ==> (#[trigger] queue@[i]) <= stripes.len(),
        ensures
            possible == walks(keys, stripes, 0),
        decreases sum_over(queue@, work),
    {
        let ghost stack = queue@;
        let unconvered_pos = queue.pop().unwrap();
        let ghost rest = queue@;
        proof {
            assert(stack.last() == unconvered_pos);
            assert(rest == stack.drop_last());
            assert(stack[stack.len() - 1] <= stripes.len());
        }
        if unconvered_pos == pattern.len() {
            possible = true;
            proof {
                assert(walks(keys, stripes, stack[stack.len() - 1] as int));
            }
            break ;
        }
        let ghost room = (stripes.len() - unconvered_pos) as nat;
        let tail = encode_colors(slice_subrange(pattern.as_slice(), unconvered_pos, pattern.len()));
        proof {
            assert(tail@ =~= stripes.subrange(unconvered_pos as int, stripes.len() as int));
        }
        let sub = longest_towel(towels, &tail);
        if let Some(matched_len) = sub {
            proof {
                assert(tail@.take(matched_len as int) =~= stripes.subrange(
                    unconvered_pos as int,
                    unconvered_pos + matched_len,
                ));
                if matched_len == 0 {
                    assert(tail@.take(0) =~= Seq::<u8>::empty());
                }
                assert(!may_step(keys, stripes, unconvered_pos as int, 0));
            }
            let mut k: usize = 1;
            while k < matched_len
                invariant
                    1 <= k <= matched_len,
                    matched_len <= stripes.len() - unconvered_pos,
                    unconvered_pos < stripes.len(),
                    stripes.len() <= usize::MAX,
                    keys == towel_keys(*towels),
                    stripes == codes_of(pattern@),
                    tail@ == stripes.subrange(unconvered_pos as int, stripes.len() as int),
                    keys.contains(
                        stripes.subrange(unconvered_pos as int, unconvered_pos + matched_len),
                    ),
                    queue@ == rest + steps_from(
                        keys,
                        stripes,
                        unconvered_pos as int,
                        (k - 1) as nat,
                    ),
                decreases matched_len - k,
            {
                let front = encode_colors(
                    slice_subrange(pattern.as_slice(), unconvered_pos, unconvered_pos + k),
                );
                proof {
                    assert(front@ =~= stripes.subrange(
                        unconvered_pos as int,
                        unconvered_pos + k,
                    ));
                }
                let found = longest_towel(towels, &front);
                proof {
                    let here = unconvered_pos as int;
                    if found is Some {
                        let short = found->0 as int;
                        assert(front@.take(short) =~= stripes.subrange(here, here + short));
                        assert(keys.contains(stripes.subrange(here, here + short)));
                        assert(keys.contains(stripes.subrange(here, here + matched_len)));
                        assert(may_step(keys, stripes, here, k as int));
                    } else {
                        assert forall|short: int| 0 <= short <= k implies !keys.contains(
                            #[trigger] stripes.subrange(here, here + short),
                        ) by {
                            assert(front@.take(short) =~= stripes.subrange(here, here + short));
                        }
                        assert(!may_step(keys, stripes, here, k as int));
                    }
                }
                if found.is_some() {
                    queue.push(unconvered_pos + k);
                }
                proof {
                    assert(queue@ =~= rest + steps_from(
                        keys,
                        stripes,
                        unconvered_pos as int,
                        k as nat,
                    ));
                }
                k += 1;
            }
            proof {
                let here = unconvered_pos as int;
                assert(keys.contains(stripes.subrange(here, here + matched_len)));
                assert(may_step(keys, stripes, here, matched_len as int));
            }
            queue.push(unconvered_pos + matched_len);
            proof {
                let here = unconvered_pos as int;
                assert(queue@ =~= rest + steps_from(keys, stripes, here, matched_len as nat));
                assert forall|long: int| matched_len < long <= room implies !keys.contains(
                    #[trigger] stripes.subrange(here, here + long),
                ) by {
                    assert(tail@.take(long) =~= stripes.subrange(here, here + long));
                }
                lemma_no_steps_beyond(keys, stripes, here, matched_len as nat, room);
            }
        } else {
            proof {
                let here = unconvered_pos as int;
                assert forall|long: int| 0 < long <= room implies !keys.contains(
                    #[trigger] stripes.subrange(here, here + long),
                ) by {
                    assert(tail@.take(long) =~= stripes.subrange(here, here + long));
                }
                lemma_no_steps_beyond(keys, stripes, here, 0, room);
                assert(queue@ =~= rest + steps_from(keys, stripes, here, 0));
            }
        }
        proof {
            let here = unconvered_pos as int;
            let pushed = steps_from(keys, stripes, here, room);
            lemma_steps_from(keys, stripes, here, room);
            lemma_sum_over_concat(rest, pushed, work);
            assert(queue@ =~= rest + pushed);
            assert forall|i: int| 0 <= i < queue@.len() implies (#[trigger] queue@[i])
                <= stripes.len() by {
                if i < rest.len() {
                    assert(queue@[i] == stack[i]);
                } else {
                    assert(queue@[i] == pushed[i - rest.len()]);
                }
            }
            if walks(keys, stripes, 0) {
                let i = choose|i: int|
                    0 <= i < stack.len() && walks(keys, stripes, (#[trigger] stack[i]) as int);
                if i < rest.len() {
                    assert(queue@[i] == stack[i]);
                } else {
                    assert(walks_over(keys, stripes, here, room));
                    let j = choose|j: int|
                        0 <= j < pushed.len() && walks(keys, stripes, (#[trigger] pushed[j]) as int);
                    assert(queue@[rest.len() + j] == pushed[j]);
                }
            }
            if exists|i: int|
                0 <= i < queue@.len() && walks(keys, stripes, (#[trigger] queue@[i]) as int) {
                let i = choose|i: int|
                    0 <= i < queue@.len() && walks(keys, stripes, (#[trigger] queue@[i]) as int);
                if i < rest.len() {
                    assert(queue@[i] == stack[i]);
                } else {
                    assert(queue@[i] == pushed[i - rest.len()]);
                    assert(walks_over(keys, stripes, here, room));
                    assert(walks(keys, stripes, stack[stack.len() - 1] as int));
                }
            }
        }
    }

    possible
}

/// Beyond the longest towel that lies at a position the walk may not step.
pub proof fn lemma_no_steps_beyond(
    keys: Set<Seq<u8>>,
    stripes: Seq<u8>,
    pos: int,
    longest: nat,
    upto: nat,
)
    requires
        longest <= upto,
        forall|long: int|
            longest < long <= stripes.len() - pos ==> !keys.contains(
                #[trigger] stripes.subrange(pos, pos + long),
            ),
    ensures
        steps_from(keys, stripes, pos, upto) == steps_from(keys, stripes, pos, longest),
        walk_work_over(keys, stripes, pos, upto) == walk_work_over(keys, stripes, pos, longest)
            || pos < 0 || pos >= stripes.len(),
    decreases upto,
{
    if longest < upto {
        lemma_no_steps_beyond(keys, stripes, pos, longest, (upto - 1) as nat);
        assert(!may_step(keys, stripes, pos, upto as int));
    }
}

/// The towels of a list as a trie: its keys are the colour codes of the
/// towels.
pub fn build_towels(list: &Vec<StripePattern>) -> (towels: Towels)
    ensures
        forall|key: Seq<u8>|
            towel_keys(towels).contains(key) <==> exists|i: int|
                0 <= i < list@.len() && codes_of((#[trigger] list@[i]).0@) == key,
{
    let mut towels = towels_new();
    let mut at: usize = 0;
    while at < list.len()
        invariant
            at <= list.len(),
            forall|key: Seq<u8>|
                towel_keys(towels).contains(key) <==> exists|i: int|
                    0 <= i < at && codes_of((#[trigger] list@[i]).0@) == key,
        decreases list.len() - at,
    {
        let bytes = list[at].encode_bytes();
        let ghost before = towel_keys(towels);
        towels_insert(&mut towels, bytes);
        proof {
            assert forall|key: Seq<u8>|
                towel_keys(towels).contains(key) <==> exists|i: int|
                    0 <= i < at + 1 && codes_of((#[trigger] list@[i]).0@) == key by {
                if before.contains(key) {
                    let i = choose|i: int| 0 <= i < at && codes_of((#[trigger] list@[i]).0@) == key;
                    assert(codes_of(list@[i].0@) == key);
                }
                if key == codes_of(list@[at as int].0@) {
                    assert(towel_keys(towels).contains(key));
                }
                if exists|i: int| 0 <= i < at + 1 && codes_of((#[trigger] list@[i]).0@) == key {
                    let i = choose|i: int|
                        0 <= i < at + 1 && codes_of((#[trigger] list@[i]).0@) == key;
                    if i < at {
                        assert(before.contains(key));
                    }
                }
            }
        }
        at += 1;
    }
    towels
}

/// How many of the designs the walk over the towels gets through.
pub open spec fn possible_count(keys: Set<Seq<u8>>, designs: Seq<StripePattern>) -> nat {
    count_below(designs.len(), |i: int| walks(keys, codes_of(designs[i].0@), 0))
}

/// How many of the designs the walk over the towels gets through.
pub fn count_possible(towels: &Towels, designs: &Vec<StripePattern>) -> (count: u64)
    requires
        !towel_keys(*towels).contains(Seq::<u8>::empty()),
    ensures
        count == possible_count(towel_keys(*towels), designs@),
{
    let ghost keys = towel_keys(*towels);
    let ghost through = |i: int| walks(keys, codes_of(designs@[i].0@), 0);
    let mut possible_patterns: u64 = 0;
    let mut at: usize = 0;
    while at < designs.len()
        invariant
            at <= designs.len(),
            keys == towel_keys(*towels),
            !keys.contains(Seq::<u8>::empty()),
            through == (|i: int| walks(keys, codes_of(designs@[i].0@), 0)),
            possible_patterns == count_below(at as nat, through),
            possible_patterns <= at,
        decreases designs.len() - at,
    {
        if is_possible(towels, &designs[at].0) {
            possible_patterns += 1;
        }
        at += 1;
    }
    possible_patterns
}

/// Where a comma that a blank follows stands first from `from` on and
/// before `to`; `to` where there is none.
pub open spec fn first_comma(text: Seq<u8>, from: int, to: int) -> int
    decreases to - from,
{
    if from + 1 >= to {
        to
    } else if text[from] == 0x2c && text[from + 1] == 0x20 {
        from
    } else {
        first_comma(text, from + 1, to)
    }
}

/// The parts of the text between `from` and `to` that a comma and a blank
/// part from each other.
pub open spec fn comma_parts(text: Seq<u8>, from: int, to: int) -> Seq<(usize, usize)>
    decreases to - from,
{
    let at = first_comma(text, from, to);
    if from > to {
        Seq::empty()
    } else if at >= to || at < from || at + 2 > to {
        seq![(from as usize, to as usize)]
    } else {
        seq![(from as usize, at as usize)] + comma_parts(text, at + 2, to)
    }
}

/// The pattern is spelled by the part of the text: letter by letter.
pub open spec fn pattern_spelled(text: Seq<u8>, part: (usize, usize), pattern: StripePattern) -> bool {
    &&& pattern.0@.len() == part.1 - part.0
    &&& forall|k: int|
        0 <= k < part.1 - part.0 ==> letter_of(#[trigger] pattern.0@[k]) == text[part.0 + k]
}

/// The byte is the letter of a colour.
pub open spec fn coloured(byte: u8) -> bool {
    exists|color: Color| letter_of(color) == byte
}

/// Every byte of the part is the letter of a colour.
pub open spec fn part_coloured(text: Seq<u8>, part: (usize, usize)) -> bool {
    forall|at: int| part.0 <= at < part.1 ==> coloured(#[trigger] text[at])
}

/// The patterns are spelled by the parts, one by one.
pub open spec fn patterns_spelled(
    text: Seq<u8>,
    parts: Seq<(usize, usize)>,
    patterns: Seq<StripePattern>,
) -> bool {
    &&& patterns.len() == parts.len()
    &&& forall|i: int| 0 <= i < parts.len() ==> pattern_spelled(text, parts[i], #[trigger] patterns[i])
}

/// Every part holds letters of colours only.
pub open spec fn parts_coloured(text: Seq<u8>, parts: Seq<(usize, usize)>) -> bool {
    forall|i: int| 0 <= i < parts.len() ==> part_coloured(text, #[trigger] parts[i])
}

/// Finds the parts of the text that a comma and a blank part from each
/// other.
fn split_commas(text: &[u8], from: usize, to: usize) -> (parts: Vec<(usize, usize)>)
    requires
        from <= to <= text@.len(),
    ensures
        parts@ == comma_parts(text@, from as int, to as int),
        forall|i: int| 0 <= i < parts@.len() ==> from <= (#[trigger] parts@[i]).0 <= parts@[i].1 <= to,
    decreases to - from,
{
    let mut at = from;
    while to - at > 1 && !(text[at] == 0x2c && text[at + 1] == 0x20)
        invariant
            from <= at <= to <= text@.len(),
            first_comma(text@, at as int, to as int) == first_comma(text@, from as int, to as int),
        decreases to - at,
    {
        at += 1;
    }
    if to - at <= 1 {
        let parts = vec![(from, to)];
        assert(parts@ =~= comma_parts(text@, from as int, to as int));
        parts
    } else {
        let mut parts = split_commas(text, at + 2, to);
        let ghost rest = parts@;
        parts.insert(0, (from, at));
        proof {
            assert(parts@ =~= seq![(from, at)] + rest);
            assert forall|i: int| 0 <= i < parts@.len() implies from <= (#[trigger] parts@[i]).0
                <= parts@[i].1 <= to by {
                if i > 0 {
                    assert(parts@[i] == rest[i - 1]);
                }
            }
        }
        parts
    }
}

/// Reads the pattern that each of the parts spells; nothing where a part
/// holds a byte that is the letter of no colour.
fn read_patterns(text: &[u8], parts: &Vec<(usize, usize)>) -> (patterns: Option<Vec<StripePattern>>)
    requires
        forall|i: int| 0 <= i < parts@.len() ==> (#[trigger] parts@[i]).0 <= parts@[i].1 <= text@.len(),
    ensures
        patterns is Some == parts_coloured(text@, parts@),
        patterns matches Some(found) ==> patterns_spelled(text@, parts@, found@),
{
    let mut patterns: Vec<StripePattern> = Vec::new();
    let mut at: usize = 0;
    while at < parts.len()
        invariant
            at <= parts.len(),
            forall|i: int|
                0 <= i < parts@.len() ==> (#[trigger] parts@[i]).0 <= parts@[i].1 <= text@.len(),
            patterns@.len() == at,
            forall|i: int| 0 <= i < at ==> part_coloured(text@, #[trigger] parts@[i]),
            forall|i: int| 0 <= i < at ==> pattern_spelled(text@, parts@[i], #[trigger] patterns@[i]),
        decreases parts.len() - at,
    {
        let (from, to) = parts[at];
        let mut colors: Vec<Color> = Vec::new();
        let mut pos = from;
        while pos < to
            invariant
                from <= pos <= to <= text@.len(),
                at < parts@.len(),
                parts@[at as int] == (from, to),
                colors@.len() == pos - from,
                forall|k: int| 0 <= k < pos - from ==> letter_of(#[trigger] colors@[k]) == text@[from + k],
            decreases to - pos,
        {
            match Color::try_from(text[pos]) {
                Ok(color) => {
                    colors.push(color);
                },
                Err(_) => {
                    proof {
                        assert(!coloured(text@[pos as int]));
                        assert(!part_coloured(text@, parts@[at as int]));
                    }
                    return None;
                },
            }
            pos += 1;
        }
        proof {
            assert forall|p: int| from <= p < to implies coloured(#[trigger] text@[p]) by {
                assert(letter_of(colors@[p - from]) == text@[from + (p - from)]);
            }
            assert(part_coloured(text@, parts@[at as int]));
            assert(pattern_spelled(text@, parts@[at as int], StripePattern(colors)));
        }
        patterns.push(StripePattern(colors));
        at += 1;
    }
    Some(patterns)
}

/// The text holds towels and designs: a first block with the towels, parted
/// by a comma and a blank, a second block with one design on each line,
/// and no third block; all of them in letters of colours.
pub open spec fn towels_text(text: Seq<u8>) -> bool {
    let end = block_end(text, 0);
    let from = end + 2;
    let to = block_end(text, from);
    &&& from <= text.len()
    &&& to + 2 > text.len()
    &&& parts_coloured(text, comma_parts(text, 0, end))
    &&& parts_coloured(text, lines_of(text, from, to))
}

/// Reads the towels and the designs. Nothing is read where the text has
/// not the shape of such a text.
pub fn read_towels(text: &[u8]) -> (read: Option<(Vec<StripePattern>, Vec<StripePattern>)>)
    ensures
        read is Some == towels_text(text@),
        read matches Some(found) ==> {
            let end = block_end(text@, 0);
            &&& patterns_spelled(text@, comma_parts(text@, 0, end), found.0@)
            &&& patterns_spelled(
                text@,
                lines_of(text@, end + 2, block_end(text@, end + 2)),
                found.1@,
            )
        },
{
    let end = find_block_end(text, 0);
    if text.len() - end < 2 {
        return None;
    }
    let from = end + 2;
    let to = find_block_end(text, from);
    if text.len() - to >= 2 {
        return None;
    }
    let parts = split_commas(text, 0, end);
    let towels = match read_patterns(text, &parts) {
        Some(towels) => towels,
        None => {
            return None;
        },
    };
    let lines = split_lines(text, from, to);
    let designs = match read_patterns(text, &lines) {
        Some(designs) => designs,
        None => {
            return None;
        },
    };
    Some((towels, designs))
}

} // verus!
