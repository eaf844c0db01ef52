//! Counting stones that change with every blink.
//!
//! On a blink a stone marked 0 becomes 1, a stone with an even number of
//! digits splits into its left and right half, and any other stone is
//! multiplied by 2024. The solvers here differ in how they walk that tree;
//! all of them return the number of stones after a given number of blinks.

use vstd::prelude::*;
use vstd::arithmetic::power::pow;
use vstd::pervasive::unreached;
use crate::int_ops::floor_log10;
use crate::counting::{sum_over, lemma_sum_over_push};
use crate::text::{digit_runs, find_digit_runs, is_ascii_text, numbers_at, parse_numbers};
use rustc_hash::FxHashMap;

verus! {

pub type StoneT = u64;

/// Number of decimal digits of a positive stone.
pub open spec fn stone_digits(stone: nat) -> nat {
    floor_log10(stone) + 1
}

/// The stone splits in two on the next blink.
pub open spec fn splits(stone: nat) -> bool {
    stone != 0 && stone_digits(stone) % 2 == 0
}

/// The power of ten that separates the two halves of a splitting stone.
pub open spec fn split_pow(stone: nat) -> nat {
    pow(10, stone_digits(stone) / 2) as nat
}

/// The stone, or the left one of the two stones, that a stone becomes.
pub open spec fn first_stone(stone: nat) -> nat {
    if stone == 0 {
        1
    } else if splits(stone) {
        stone / split_pow(stone)
    } else {
        stone * 2024
    }
}

/// The right one of the two stones that a splitting stone becomes.
pub open spec fn second_stone(stone: nat) -> nat {
    stone % split_pow(stone)
}

/// How many stones a single stone has become after `blinks` blinks.
pub open spec fn blink_count(stone: nat, blinks: nat) -> nat
    decreases blinks,
{
    if blinks == 0 {
        1
    } else if splits(stone) {
        blink_count(first_stone(stone), (blinks - 1) as nat) + blink_count(
            second_stone(stone),
            (blinks - 1) as nat,
        )
    } else {
        blink_count(first_stone(stone), (blinks - 1) as nat)
    }
}

/// How many stones a row of stones has become after `blinks` blinks.
pub open spec fn stone_count(stones: Seq<u64>, blinks: nat) -> nat
    decreases stones.len(),
{
    if stones.len() == 0 {
        0
    } else {
        stone_count(stones.drop_last(), blinks) + blink_count(stones.last() as nat, blinks)
    }
}

/// Every stone that arises from `stone` within `blinks` blinks fits 64 bits.
pub open spec fn blink_fits(stone: nat, blinks: nat) -> bool
    decreases blinks,
{
    blinks == 0 || {
        &&& first_stone(stone) <= u64::MAX
        &&& blink_fits(first_stone(stone), (blinks - 1) as nat)
        &&& splits(stone) ==> blink_fits(second_stone(stone), (blinks - 1) as nat)
    }
}

/// Every stone of the row satisfies `blink_fits`.
pub open spec fn row_fits(stones: Seq<u64>, blinks: nat) -> bool {
    forall|i: int| 0 <= i < stones.len() ==> blink_fits(#[trigger] stones[i] as nat, blinks)
}

/// What one stone becomes on a blink, as a row.
pub open spec fn blink_one(stone: u64) -> Seq<u64> {
    if splits(stone as nat) {
        seq![first_stone(stone as nat) as u64, second_stone(stone as nat) as u64]
    } else {
        seq![first_stone(stone as nat) as u64]
    }
}

/// What a row of stones becomes on a blink: the order is kept.
pub open spec fn blink_row(stones: Seq<u64>) -> Seq<u64>
    decreases stones.len(),
{
    if stones.len() == 0 {
        Seq::empty()
    } else {
        blink_row(stones.drop_last()) + blink_one(stones.last())
    }
}

/// The powers of ten up to the tenth.
pub proof fn lemma_pow10_values()
    ensures
        pow(10, 0) == 1,
        pow(10, 1) == 10,
        pow(10, 2) == 100,
        pow(10, 3) == 1000,
        pow(10, 4) == 10000,
        pow(10, 5) == 100000,
        pow(10, 6) == 1000000,
        pow(10, 7) == 10000000,
        pow(10, 8) == 100000000,
        pow(10, 9) == 1000000000,
        pow(10, 10) == 10000000000,
{
    reveal_with_fuel(pow, 12);
}

/// A 64-bit number has at most twenty digits.
pub proof fn lemma_digits_bound(stone: u64)
    ensures
        floor_log10(stone as nat) <= 19,
{
    reveal_with_fuel(floor_log10, 21);
}

/// The halves of a splitting stone are no larger than the stone.
pub proof fn lemma_split_in_range(stone: u64)
    requires
        splits(stone as nat),
    ensures
        0 < split_pow(stone as nat) <= 10000000000,
        first_stone(stone as nat) <= stone,
        second_stone(stone as nat) < split_pow(stone as nat),
{
    lemma_digits_bound(stone);
    lemma_pow10_values();
    let p = split_pow(stone as nat);
    assert(stone as nat / p <= stone) by (nonlinear_arith)
        requires
            p > 0,
    ;
    assert(stone as nat % p < p) by (nonlinear_arith)
        requires
            p > 0,
    ;
}

/// The stones written in a text: every run of digits is a stone. `None`
/// where a run of digits spells no 64-bit number.
pub fn parse_stones(input: &[u8]) -> (stones: Option<Vec<StoneT>>)
    requires
        is_ascii_text(input@),
    ensures
        match stones {
            Some(read) => numbers_at(input@, digit_runs(input@, 0, input@.len() as int)) == Some(
                read@,
            ),
            None => numbers_at(input@, digit_runs(input@, 0, input@.len() as int)) is None,
        },
{
    let runs = find_digit_runs(input, 0, input.len());
    parse_numbers(input, &runs)
}

/// Blinking a row and counting for one blink less counts the same stones.
pub proof fn lemma_blink_row_count(stones: Seq<u64>, blinks: nat)
    requires
        row_fits(stones, blinks + 1),
    ensures
        stone_count(blink_row(stones), blinks) == stone_count(stones, blinks + 1),
        row_fits(blink_row(stones), blinks),
    decreases stones.len(),
{
    if stones.len() > 0 {
        let front = stones.drop_last();
        let last = stones.last();
        assert forall|i: int| 0 <= i < front.len() implies blink_fits(
            #[trigger] front[i] as nat,
            blinks + 1,
        ) by {
            assert(front[i] == stones[i]);
        }
        lemma_blink_row_count(front, blinks);
        assert(blink_fits(stones[stones.len() - 1] as nat, blinks + 1));
        if splits(last as nat) {
            lemma_split_in_range(last);
        }
        let row = blink_row(front);
        let one = blink_one(last);
        lemma_count_concat(row, one, blinks);
        reveal_with_fuel(stone_count, 3);
        if splits(last as nat) {
            assert(one.drop_last() =~= seq![first_stone(last as nat) as u64]);
            assert(one.drop_last().drop_last() =~= Seq::<u64>::empty());
        } else {
            assert(one.drop_last() =~= Seq::<u64>::empty());
        }
        assert(stone_count(one, blinks) == blink_count(last as nat, blinks + 1));
        assert forall|i: int| 0 <= i < (row + one).len() implies blink_fits(
            #[trigger] (row + one)[i] as nat,
            blinks,
        ) by {
            if i < row.len() {
                assert((row + one)[i] == row[i]);
            } else {
                assert((row + one)[i] == one[i - row.len()]);
            }
        }
    }
}

/// The count of a row made of two parts is the sum of the parts' counts.
pub proof fn lemma_count_concat(a: Seq<u64>, b: Seq<u64>, blinks: nat)
    ensures
        stone_count(a + b, blinks) == stone_count(a, blinks) + stone_count(b, blinks),
    decreases b.len(),
{
    if b.len() == 0 {
        assert(a + b =~= a);
    } else {
        lemma_count_concat(a, b.drop_last(), blinks);
        assert((a + b).drop_last() =~= a + b.drop_last());
    }
}

/// With no blink left every stone counts once.
pub proof fn lemma_count_zero_blinks(stones: Seq<u64>)
    ensures
        stone_count(stones, 0) == stones.len(),
    decreases stones.len(),
{
    if stones.len() > 0 {
        lemma_count_zero_blinks(stones.drop_last());
    }
}

/// Replaces the row by what it becomes on one blink.
fn perform_iteration(stones: &mut Vec<StoneT>)
    requires
        row_fits(old(stones)@, 1),
    ensures
        final(stones)@ == blink_row(old(stones)@),
{
    let ghost orig = stones@;
    let ghost mut done: int = 0;
    let mut idx: usize = 0;
    proof {
        assert(orig.take(0) =~= Seq::<u64>::empty());
        assert(orig.skip(0) =~= orig);
        assert(blink_row(orig.take(0)) + orig.skip(0) =~= orig);
    }
    while idx < stones.len()
        invariant
            0 <= done <= orig.len(),
            row_fits(orig, 1),
            stones@ == blink_row(orig.take(done)) + orig.skip(done),
            idx == blink_row(orig.take(done)).len(),
        decreases orig.len() - done,
    {
        let ghost row = blink_row(orig.take(done));
        assert(stones@[idx as int] == orig.skip(done)[0]);
        assert(done < orig.len());
        let stone = stones[idx];
        proof {
            assert(stone == orig[done]);
            assert(blink_fits(orig[done] as nat, 1));
            assert(orig.take(done + 1).drop_last() =~= orig.take(done));
            assert(orig.take(done + 1).last() == stone);
            lemma_digits_bound(stone);
            lemma_pow10_values();
        }
        if stone == 0 {
            stones[idx] = 1;
            proof {
                assert(stones@ =~= row + blink_one(stone) + orig.skip(done + 1));
            }
        } else {
            let num_digits = stone.ilog10() + 1;

            if num_digits % 2 == 0 {
                proof {
                    lemma_split_in_range(stone);
                }
                let split_pow = StoneT::pow(10, num_digits / 2);
                stones[idx] = stone / split_pow;
                idx += 1;
                stones.insert(idx, stone % split_pow);
                proof {
                    assert(stones@ =~= row + blink_one(stone) + orig.skip(done + 1));
                }
            } else {
                stones[idx] = stone * 2024;
                proof {
                    assert(stones@ =~= row + blink_one(stone) + orig.skip(done + 1));
                }
            }
        }

        assert(idx < stones.len());
        idx += 1;
        proof {
            done = done + 1;
        }
    }
    proof {
        assert(orig.take(done) =~= orig);
        assert(stones@ =~= blink_row(orig));
    }
}

/// Counts the stones after `NUM_ITER` blinks by blinking the whole row, one
/// blink at a time.
pub fn solve_stupid<const NUM_ITER: u32>(stones: Vec<StoneT>) -> (count: u64)
    requires
        row_fits(stones@, NUM_ITER as nat),
    ensures
        count == stone_count(stones@, NUM_ITER as nat),
{
    let ghost orig = stones@;
    let mut stones = stones;
    let mut round: u32 = 0;
    while round < NUM_ITER
        invariant
            round <= NUM_ITER,
            row_fits(stones@, (NUM_ITER - round) as nat),
            stone_count(stones@, (NUM_ITER - round) as nat) == stone_count(orig, NUM_ITER as nat),
        decreases NUM_ITER - round,
    {
        proof {
            lemma_blink_row_count(stones@, (NUM_ITER - round - 1) as nat);
            assert forall|i: int| 0 <= i < stones@.len() implies blink_fits(
                #[trigger] stones@[i] as nat,
                1,
            ) by {
                reveal_with_fuel(blink_fits, 2);
                assert(blink_fits(stones@[i] as nat, (NUM_ITER - round) as nat));
            }
        }
        perform_iteration(&mut stones);
        round += 1;
    }
    proof {
        lemma_count_zero_blinks(stones@);
    }
    stones.len() as u64
}

/// The table of depth `depth` and width `size` answers for this stone.
pub open spec fn table_covers(stone: nat, blinks: nat, size: nat, depth: nat) -> bool {
    stone < size && blinks <= depth
}

/// What the table-driven walk needs of a stone: wherever no table answers,
/// a stone that splits has at most eighteen digits, and what the stone
/// becomes fits 64 bits and satisfies the same.
pub open spec fn lookup_fits(stone: nat, blinks: nat, size: nat, depth: nat) -> bool
    decreases blinks,
{
    blinks == 0 || table_covers(stone, blinks, size, depth) || {
        &&& first_stone(stone) <= u64::MAX
        &&& splits(stone) ==> stone_digits(stone) <= 18
        &&& lookup_fits(first_stone(stone), (blinks - 1) as nat, size, depth)
        &&& splits(stone) ==> lookup_fits(second_stone(stone), (blinks - 1) as nat, size, depth)
    }
}

/// Every stone of the row satisfies `lookup_fits`.
pub open spec fn row_lookup_fits(stones: Seq<u64>, blinks: nat, size: nat, depth: nat) -> bool {
    forall|i: int|
        0 <= i < stones.len() ==> lookup_fits(#[trigger] stones[i] as nat, blinks, size, depth)
}

/// Number of steps that the walk spends below one stone.
pub open spec fn walk_steps(stone: nat, blinks: nat, size: nat, depth: nat) -> nat
    decreases blinks,
{
    if blinks == 0 || table_covers(stone, blinks, size, depth) {
        1
    } else if splits(stone) {
        1 + walk_steps(first_stone(stone), (blinks - 1) as nat, size, depth) + walk_steps(
            second_stone(stone),
            (blinks - 1) as nat,
            size,
            depth,
        )
    } else {
        1 + walk_steps(first_stone(stone), (blinks - 1) as nat, size, depth)
    }
}

/// Counts the stones after `NUM_ITER` blinks, following one stone at a time
/// and keeping the stones still to follow on a stack.
pub fn solve_smart<const NUM_ITER: u32>(stones: Vec<StoneT>) -> (count: u64)
    requires
        row_fits(stones@, NUM_ITER as nat),
        stone_count(stones@, NUM_ITER as nat) <= u64::MAX,
    ensures
        count == stone_count(stones@, NUM_ITER as nat),
{
    let ghost total = stone_count(stones@, NUM_ITER as nat);
    let ghost cnt = |e: (StoneT, u32)| blink_count(e.0 as nat, (NUM_ITER - e.1) as nat);
    let ghost work = |e: (StoneT, u32)| walk_steps(e.0 as nat, (NUM_ITER - e.1) as nat, 0, 0);
    let mut count_stones: u64 = 0;
    let mut stack: Vec<(StoneT, u32)> = Vec::new();
    let mut k: usize = 0;
    while k < stones.len()
        invariant
            k <= stones.len(),
            stack@.len() == k,
            cnt == (|e: (StoneT, u32)| blink_count(e.0 as nat, (NUM_ITER - e.1) as nat)),
            sum_over(stack@, cnt) == stone_count(stones@.take(k as int), NUM_ITER as nat),
            forall|i: int| 0 <= i < k ==> #[trigger] stack@[i] == (stones@[i], 0u32),
        decreases stones.len() - k,
    {
        proof {
            lemma_sum_over_push(stack@, (stones@[k as int], 0u32), cnt);
            assert(stones@.take(k + 1).drop_last() =~= stones@.take(k as int));
        }
        stack.push((stones[k], 0));
        k += 1;
    }
    proof {
        assert(stones@.take(k as int) =~= stones@);
    }

    while stack.len() > 0
        invariant
            cnt == (|e: (StoneT, u32)| blink_count(e.0 as nat, (NUM_ITER - e.1) as nat)),
            work == (|e: (StoneT, u32)| walk_steps(e.0 as nat, (NUM_ITER - e.1) as nat, 0, 0)),
            total <= u64::MAX,
            count_stones + sum_over(stack@, cnt) == total,
            forall|i: int|
                0 <= i < stack@.len() ==> (#[trigger] stack@[i]).1 <= NUM_ITER && blink_fits(
                    stack@[i].0 as nat,
                    (NUM_ITER - stack@[i].1) as nat,
                ),
        decreases sum_over(stack@, work),
    {
        let ghost before = stack@;
        let (stone, iteration) = stack.pop().unwrap();
        proof {
            assert(before.last() == (stone, iteration));
            assert(stack@ == before.drop_last());
            assert(before[before.len() - 1].1 <= NUM_ITER);
            lemma_digits_bound(stone);
            lemma_pow10_values();
        }
        let ghost rest = stack@;
        if iteration == NUM_ITER {
            count_stones += 1;
        } else if stone == 0 {
            proof {
                lemma_sum_over_push(rest, (1u64, (iteration + 1) as u32), cnt);
                lemma_sum_over_push(rest, (1u64, (iteration + 1) as u32), work);
            }
            stack.push((1, iteration + 1));
        } else {
            let num_digits = stone.ilog10() + 1;

            if num_digits % 2 == 0 {
                proof {
                    lemma_split_in_range(stone);
                }
                let split_pow = StoneT::pow(10, num_digits / 2);
                let ghost left = (stone / split_pow, (iteration + 1) as u32);
                let ghost right = (stone % split_pow, (iteration + 1) as u32);
                proof {
                    lemma_sum_over_push(rest, left, cnt);
                    lemma_sum_over_push(rest.push(left), right, cnt);
                    lemma_sum_over_push(rest, left, work);
                    lemma_sum_over_push(rest.push(left), right, work);
                }
                stack.push((stone / split_pow, iteration + 1));
                stack.push((stone % split_pow, iteration + 1));
            } else {
                proof {
                    lemma_sum_over_push(rest, ((stone * 2024) as u64, (iteration + 1) as u32), cnt);
                    lemma_sum_over_push(rest, ((stone * 2024) as u64, (iteration + 1) as u32), work);
                }
                stack.push((stone * 2024, iteration + 1));
            }
        }
    }

    count_stones
}

/// Remainder by a divisor fixed at compile time.
fn compute_mod<const MOD: u64>(val: StoneT) -> (rem: StoneT)
    requires
        MOD > 0,
    ensures
        rem == val % MOD,
{
    val % MOD
}

/// Quotient by a divisor fixed at compile time.
fn compute_div<const DIV: u64>(val: StoneT) -> (quot: StoneT)
    requires
        DIV > 0,
    ensures
        quot == val / DIV,
{
    val / DIV
}

/// Counts the stones after `NUM_ITER` blinks like `solve_smart`, keeping the
/// stone that is being followed out of the stack and dividing by constants.
///
/// The row must not be empty, and a stone that splits may have at most
/// eighteen digits.
pub fn solve_smart_fast<const NUM_ITER: u32>(stones: Vec<StoneT>) -> (count: u64)
    requires
        stones.len() > 0,
        row_lookup_fits(stones@, NUM_ITER as nat, 0, 0),
        stone_count(stones@, NUM_ITER as nat) <= u64::MAX,
    ensures
        count == stone_count(stones@, NUM_ITER as nat),
{
    let ghost total = stone_count(stones@, NUM_ITER as nat);
    let ghost cnt = |e: (StoneT, u32)| blink_count(e.0 as nat, (NUM_ITER - e.1) as nat);
    let ghost work = |e: (StoneT, u32)| walk_steps(e.0 as nat, (NUM_ITER - e.1) as nat, 0, 0);
    let mut count_stones: u64 = 0;
    let mut stack: Vec<(StoneT, u32)> = Vec::new();
    let mut k: usize = 0;
    while k < stones.len()
        invariant
            k <= stones.len(),
            stack@.len() == k,
            cnt == (|e: (StoneT, u32)| blink_count(e.0 as nat, (NUM_ITER - e.1) as nat)),
            sum_over(stack@, cnt) == stone_count(stones@.take(k as int), NUM_ITER as nat),
            forall|i: int| 0 <= i < k ==> #[trigger] stack@[i] == (stones@[i], 0u32),
        decreases stones.len() - k,
    {
        proof {
            lemma_sum_over_push(stack@, (stones@[k as int], 0u32), cnt);
            assert(stones@.take(k + 1).drop_last() =~= stones@.take(k as int));
        }
        stack.push((stones[k], 0));
        k += 1;
    }
    proof {
        assert(stones@.take(k as int) =~= stones@);
    }

    let ghost filled = stack@;
    let (mut stone, mut iteration) = stack.pop().unwrap();
    proof {
        assert(filled.last() == (stone, iteration));
        assert(stack@ == filled.drop_last());
    }

    loop
        invariant_except_break
            count_stones + blink_count(stone as nat, (NUM_ITER - iteration) as nat) + sum_over(
                stack@,
                cnt,
            ) == total,
        invariant
            cnt == (|e: (StoneT, u32)| blink_count(e.0 as nat, (NUM_ITER - e.1) as nat)),
            work == (|e: (StoneT, u32)| walk_steps(e.0 as nat, (NUM_ITER - e.1) as nat, 0, 0)),
            total <= u64::MAX,
            iteration <= NUM_ITER,
            lookup_fits(stone as nat, (NUM_ITER - iteration) as nat, 0, 0),
            forall|i: int|
                0 <= i < stack@.len() ==> (#[trigger] stack@[i]).1 <= NUM_ITER && lookup_fits(
                    stack@[i].0 as nat,
                    (NUM_ITER - stack@[i].1) as nat,
                    0,
                    0,
                ),
        ensures
            count_stones == total,
        decreases
            walk_steps(stone as nat, (NUM_ITER - iteration) as nat, 0, 0) + sum_over(stack@, work),
    {
        if iteration == NUM_ITER {
            count_stones += 1;
            let ghost before = stack@;
            if let Some((n_stone, n_iteration)) = stack.pop() {
                proof {
                    assert(before.last() == (n_stone, n_iteration));
                    assert(stack@ == before.drop_last());
                }
                stone = n_stone;
                iteration = n_iteration;
                continue ;
            }
            break ;
        }
        if stone == 0 {
            stone = 1;
            iteration += 1;
            continue ;
        }
        proof {
            lemma_digits_bound(stone);
            lemma_pow10_values();
        }

        let num_digits = stone.ilog10() + 1;

        if num_digits % 2 == 0 {
            proof {
                lemma_split_in_range(stone);
            }
            let first = match num_digits {
                2 => compute_div::<10>(stone),
                4 => compute_div::<100>(stone),
                6 => compute_div::<1000>(stone),
                8 => compute_div::<10000>(stone),
                10 => compute_div::<100000>(stone),
                12 => compute_div::<1000000>(stone),
                14 => compute_div::<10000000>(stone),
                16 => compute_div::<100000000>(stone),
                18 => compute_div::<1000000000>(stone),
                _ => unreached(),
            };
            proof {
                lemma_sum_over_push(stack@, (first, (iteration + 1) as u32), cnt);
                lemma_sum_over_push(stack@, (first, (iteration + 1) as u32), work);
            }
            stack.push((first, iteration + 1));
            stone =
            match num_digits {
                2 => compute_mod::<10>(stone),
                4 => compute_mod::<100>(stone),
                6 => compute_mod::<1000>(stone),
                8 => compute_mod::<10000>(stone),
                10 => compute_mod::<100000>(stone),
                12 => compute_mod::<1000000>(stone),
                14 => compute_mod::<10000000>(stone),
                16 => compute_mod::<100000000>(stone),
                18 => compute_mod::<1000000000>(stone),
                _ => unreached(),
            };
        } else {
            stone *= 2024;
        }

        iteration += 1;
    }

    count_stones
}

/// Table `k` holds, for every stone below the table's width, how many stones
/// it has become after `k + 1` blinks.
pub open spec fn tables_valid<const LOOKUP_TABLE_SIZE: usize>(
    tables: Seq<[u64; LOOKUP_TABLE_SIZE]>,
) -> bool {
    forall|k: int, stone: int|
        0 <= k < tables.len() && 0 <= stone < LOOKUP_TABLE_SIZE ==> #[trigger] tables[k]@[stone]
            == blink_count(stone as nat, (k + 1) as nat)
}

/// Counts the stones after `num_iter` blinks like `solve_smart_fast`, taking
/// the answer from the tables for small stones with few blinks left.
///
/// The row must not be empty.
pub fn solve_lookup<const LOOKUP_TABLE_SIZE: usize>(
    stones: Vec<StoneT>,
    num_iter: usize,
    lookup_tables: &Vec<[u64; LOOKUP_TABLE_SIZE]>,
) -> (count: u64)
    requires
        stones.len() > 0,
        tables_valid(lookup_tables@),
        row_lookup_fits(
            stones@,
            num_iter as nat,
            LOOKUP_TABLE_SIZE as nat,
            lookup_tables.len() as nat,
        ),
        stone_count(stones@, num_iter as nat) <= u64::MAX,
    ensures
        count == stone_count(stones@, num_iter as nat),
{
    let ghost total = stone_count(stones@, num_iter as nat);
    let ghost size = LOOKUP_TABLE_SIZE as nat;
    let ghost depth = lookup_tables.len() as nat;
    let ghost cnt = |e: (StoneT, usize)| blink_count(e.0 as nat, e.1 as nat);
    let ghost work = |e: (StoneT, usize)| walk_steps(e.0 as nat, e.1 as nat, size, depth);
    let mut count_stones: u64 = 0;
    let mut stack: Vec<(StoneT, usize)> = Vec::new();
    let mut k: usize = 0;
    while k < stones.len()
        invariant
            k <= stones.len(),
            stack@.len() == k,
            cnt == (|e: (StoneT, usize)| blink_count(e.0 as nat, e.1 as nat)),
            sum_over(stack@, cnt) == stone_count(stones@.take(k as int), num_iter as nat),
            forall|i: int| 0 <= i < k ==> #[trigger] stack@[i] == (stones@[i], num_iter),
        decreases stones.len() - k,
    {
        proof {
            lemma_sum_over_push(stack@, (stones@[k as int], num_iter), cnt);
            assert(stones@.take(k + 1).drop_last() =~= stones@.take(k as int));
        }
        stack.push((stones[k], num_iter));
        k += 1;
    }
    proof {
        assert(stones@.take(k as int) =~= stones@);
    }

    let ghost filled = stack@;
    let (mut stone, mut iter_left) = stack.pop().unwrap();
    proof {
        assert(filled.last() == (stone, iter_left));
        assert(stack@ == filled.drop_last());
    }

    loop
        invariant_except_break
            count_stones + blink_count(stone as nat, iter_left as nat) + sum_over(stack@, cnt)
                == total,
        invariant
            cnt == (|e: (StoneT, usize)| blink_count(e.0 as nat, e.1 as nat)),
            work == (|e: (StoneT, usize)| walk_steps(e.0 as nat, e.1 as nat, size, depth)),
            size == LOOKUP_TABLE_SIZE,
            depth == lookup_tables.len(),
            tables_valid(lookup_tables@),
            total <= u64::MAX,
            lookup_fits(stone as nat, iter_left as nat, size, depth),
            forall|i: int|
                0 <= i < stack@.len() ==> lookup_fits(
                    (#[trigger] stack@[i]).0 as nat,
                    stack@[i].1 as nat,
                    size,
                    depth,
                ),
        ensures
            count_stones == total,
        decreases walk_steps(stone as nat, iter_left as nat, size, depth) + sum_over(stack@, work),
    {
        if iter_left == 0 {
            count_stones += 1;
            let ghost before = stack@;
            if let Some((n_stone, n_iter_left)) = stack.pop() {
                proof {
                    assert(before.last() == (n_stone, n_iter_left));
                    assert(stack@ == before.drop_last());
                }
                stone = n_stone;
                iter_left = n_iter_left;
                continue ;
            }
            break ;
        }
        if stone < (LOOKUP_TABLE_SIZE as StoneT) && iter_left <= lookup_tables.len() {
            proof {
                assert(lookup_tables@[iter_left - 1]@[stone as int] == blink_count(
                    stone as nat,
                    iter_left as nat,
                ));
            }
            count_stones += lookup_tables[iter_left - 1][stone as usize];
            let ghost before = stack@;
            if let Some((n_stone, n_iter_left)) = stack.pop() {
                proof {
                    assert(before.last() == (n_stone, n_iter_left));
                    assert(stack@ == before.drop_last());
                }
                stone = n_stone;
                iter_left = n_iter_left;
                continue ;
            }
            break ;
        }
        if stone == 0 {
            stone = 1;
            iter_left -= 1;
            continue ;
        }
        proof {
            lemma_digits_bound(stone);
            lemma_pow10_values();
        }

        let num_digits = stone.ilog10() + 1;

        if num_digits % 2 == 0 {
            proof {
                lemma_split_in_range(stone);
            }
            let first = match num_digits {
                2 => compute_div::<10>(stone),
                4 => compute_div::<100>(stone),
                6 => compute_div::<1000>(stone),
                8 => compute_div::<10000>(stone),
                10 => compute_div::<100000>(stone),
                12 => compute_div::<1000000>(stone),
                14 => compute_div::<10000000>(stone),
                16 => compute_div::<100000000>(stone),
                18 => compute_div::<1000000000>(stone),
                _ => unreached(),
            };
            proof {
                lemma_sum_over_push(stack@, (first, (iter_left - 1) as usize), cnt);
                lemma_sum_over_push(stack@, (first, (iter_left - 1) as usize), work);
            }
            stack.push((first, iter_left - 1));
            stone =
            match num_digits {
                2 => compute_mod::<10>(stone),
                4 => compute_mod::<100>(stone),
                6 => compute_mod::<1000>(stone),
                8 => compute_mod::<10000>(stone),
                10 => compute_mod::<100000>(stone),
                12 => compute_mod::<1000000>(stone),
                14 => compute_mod::<10000000>(stone),
                16 => compute_mod::<100000000>(stone),
                18 => compute_mod::<1000000000>(stone),
                _ => unreached(),
            };
        } else {
            stone *= 2024;
        }

        iter_left -= 1;
    }

    count_stones
}

/// What building the tables up to `num_iter` blinks needs: for every number
/// of blinks below `num_iter` and every stone below the width, the walk with
/// the tables built so far stays within 64 bits.
pub open spec fn tables_buildable(num_iter: nat, size: nat) -> bool {
    forall|iter: nat, stone: nat|
        1 <= iter < num_iter && stone < size ==> #[trigger] entry_computable(stone, iter, size)
}

/// The entry for `stone` of the table for `iter` blinks can be computed from
/// the tables for fewer blinks within 64 bits.
pub open spec fn entry_computable(stone: nat, iter: nat, size: nat) -> bool {
    &&& lookup_fits(stone, iter, size, (iter - 1) as nat)
    &&& blink_count(stone, iter) <= u64::MAX
}

/// Builds the tables for 1, 2, .. `num_iter - 1` blinks, each from the ones
/// before it.
pub fn calc_lookup_tables<const LOOKUP_TABLE_SIZE: usize>(num_iter: usize) -> (tables: Vec<
    [u64; LOOKUP_TABLE_SIZE],
>)
    requires
        tables_buildable(num_iter as nat, LOOKUP_TABLE_SIZE as nat),
    ensures
        tables.len() == (if num_iter == 0 { 0 } else { num_iter - 1 }),
        tables_valid(tables@),
{
    let mut lookup_tables: Vec<[u64; LOOKUP_TABLE_SIZE]> = Vec::new();

    let mut iter: usize = 1;
    while iter < num_iter
        invariant
            1 <= iter,
            iter <= num_iter || iter == 1,
            lookup_tables.len() == iter - 1,
            tables_valid(lookup_tables@),
            tables_buildable(num_iter as nat, LOOKUP_TABLE_SIZE as nat),
        decreases num_iter - iter,
    {
        let mut new_lookup_table = [0u64;LOOKUP_TABLE_SIZE];
        let mut stone: usize = 0;
        while stone < LOOKUP_TABLE_SIZE
            invariant
                stone <= LOOKUP_TABLE_SIZE,
                1 <= iter < num_iter,
                lookup_tables.len() == iter - 1,
                tables_valid(lookup_tables@),
                tables_buildable(num_iter as nat, LOOKUP_TABLE_SIZE as nat),
                forall|s: int|
                    0 <= s < stone ==> #[trigger] new_lookup_table@[s] == blink_count(
                        s as nat,
                        iter as nat,
                    ),
            decreases LOOKUP_TABLE_SIZE - stone,
        {
            let single = vec![stone as StoneT];
            proof {
                assert(entry_computable(stone as nat, iter as nat, LOOKUP_TABLE_SIZE as nat));
                assert(single@.drop_last() =~= Seq::<u64>::empty());
                assert(stone_count(single@, iter as nat) == blink_count(stone as nat, iter as nat))
                    by {
                    reveal_with_fuel(stone_count, 2);
                }
            }
            let produced = solve_lookup::<LOOKUP_TABLE_SIZE>(single, iter, &lookup_tables);
            new_lookup_table[stone] = produced;
            stone += 1;
        }
        let ghost before = lookup_tables@;
        lookup_tables.push(new_lookup_table);
        proof {
            assert forall|k: int, s: int|
                0 <= k < lookup_tables@.len() && 0 <= s < LOOKUP_TABLE_SIZE implies #[trigger] lookup_tables@[k]@[s]
                == blink_count(s as nat, (k + 1) as nat) by {
                if k < before.len() {
                    assert(lookup_tables@[k] == before[k]);
                }
            }
        }
        iter += 1;
    }

    lookup_tables
}

/// The hasher state of `rustc_hash`, carried by the cache below.
#[verifier::external_type_specification]
#[verifier::external_body]
pub struct ExFxBuildHasher(rustc_hash::FxBuildHasher);

/// Counts already computed, by stone and number of blinks.
pub type CountCache = FxHashMap<(u64, u64), u64>;

/// `FxHashMap::default`: a map without entries.
#[verifier::external_body]
fn cache_new() -> (cache: CountCache)
    ensures
        forall|key: (u64, u64)| !cache@.contains_key(key),
{
    FxHashMap::default()
}

/// `HashMap::get` on a map hashed by `rustc_hash`: the value stored under
/// the pair, if there is one.
#[verifier::external_body]
fn cache_get(cache: &CountCache, stone: u64, num_iter: u64) -> (found: Option<u64>)
    ensures
        found == (if cache@.contains_key((stone, num_iter)) {
            Some(cache@[(stone, num_iter)])
        } else {
            None
        }),
{
    match cache.get(&(stone, num_iter)) {
        Some(value) => Some(*value),
        None => None,
    }
}

/// `HashMap::insert` on a map hashed by `rustc_hash`: the pair now maps to
/// the value, and every other entry stays.
#[verifier::external_body]
fn cache_insert(cache: &mut CountCache, stone: u64, num_iter: u64, value: u64)
    ensures
        final(cache)@ == old(cache)@.insert((stone, num_iter), value),
{
    cache.insert((stone, num_iter), value);
}

/// Every entry of the cache holds the count for its stone and blinks.
pub open spec fn cache_valid(cache: Map<(u64, u64), u64>) -> bool {
    forall|key: (u64, u64)| #[trigger]
        cache.contains_key(key) ==> cache[key] == blink_count(key.0 as nat, key.1 as nat)
}

/// Counts what one stone becomes, remembering every count it has computed.
fn solve_memoization_rec(
    stone: StoneT,
    num_iter: u64,
    cache: &mut CountCache,
) -> (count: u64)
    requires
        cache_valid(old(cache)@),
        blink_fits(stone as nat, num_iter as nat),
        blink_count(stone as nat, num_iter as nat) <= u64::MAX,
    ensures
        cache_valid(final(cache)@),
        count == blink_count(stone as nat, num_iter as nat),
    decreases num_iter,
{
    if num_iter == 0 {
        return 1;
    }
    if let Some(prod_stones) = cache_get(cache, stone, num_iter) {
        return prod_stones;
    }
    let prod_stones = if stone == 0 {
        solve_memoization_rec(1, num_iter - 1, cache)
    } else {
        proof {
            lemma_digits_bound(stone);
            lemma_pow10_values();
        }
        let num_digits = stone.ilog10() + 1;

        if num_digits % 2 == 0 {
            proof {
                lemma_split_in_range(stone);
            }
            let split_pow = StoneT::pow(10, num_digits / 2);
            let left = solve_memoization_rec(stone / split_pow, num_iter - 1, cache);
            let right = solve_memoization_rec(stone % split_pow, num_iter - 1, cache);
            left + right
        } else {
            solve_memoization_rec(stone * 2024, num_iter - 1, cache)
        }
    };

    cache_insert(cache, stone, num_iter, prod_stones);
    return prod_stones;
}

/// Counts the stones after `num_iter` blinks with a cache shared by all
/// stones of the row.
pub fn solve_memoization(stones: Vec<StoneT>, num_iter: u64) -> (count: u64)
    requires
        row_fits(stones@, num_iter as nat),
        stone_count(stones@, num_iter as nat) <= u64::MAX,
    ensures
        count == stone_count(stones@, num_iter as nat),
{
    let mut cache = cache_new();

    let mut count_stones: u64 = 0;
    let mut k: usize = 0;
    while k < stones.len()
        invariant
            k <= stones.len(),
            cache_valid(cache@),
            row_fits(stones@, num_iter as nat),
            stone_count(stones@, num_iter as nat) <= u64::MAX,
            count_stones == stone_count(stones@.take(k as int), num_iter as nat),
        decreases stones.len() - k,
    {
        proof {
            assert(stones@.take(k + 1).drop_last() =~= stones@.take(k as int));
            assert(stones@.take(k + 1) + stones@.skip(k + 1) =~= stones@);
            lemma_count_concat(stones@.take(k + 1), stones@.skip(k + 1), num_iter as nat);
        }
        count_stones += solve_memoization_rec(stones[k], num_iter, &mut cache);
        k += 1;
    }
    proof {
        assert(stones@.take(k as int) =~= stones@);
    }
    count_stones
}

} // verus!
