//! Pseudo-random secret numbers: each one is made from the one before it by
//! three rounds of multiplying or dividing, mixing and pruning.

use vstd::prelude::*;
use crate::counting::{lemma_sum_over_bound, lemma_sum_over_push, lemma_sum_over_take, sum_over};
use std::collections::{HashMap, HashSet};

verus! {

/// The modulus by which a secret is pruned.
pub const PRUNE: u64 = 0x1000000;

/// The product of two numbers as 64 bits hold it.
pub open spec fn wrapped_product(a: u64, b: u64) -> u64 {
    ((a * b) % 0x1_0000_0000_0000_0000) as u64
}

/// The secret that follows a secret.
pub open spec fn next_secret(secret: u64) -> u64 {
    let first = secret ^ (wrapped_product(secret, 64) % PRUNE);
    let second = first ^ (first / 32);
    (second ^ wrapped_product(second, 2048)) % PRUNE
}

/// The secret that follows a secret.
pub fn next_secret_number(secret: u64) -> (next: u64)
    ensures
        next == next_secret(secret),
        next < PRUNE,
{
    let mut secret = secret;
    secret ^= (secret.wrapping_mul(64)) % 0x1000000;
    secret ^= secret / 32;
    (secret ^ secret.wrapping_mul(2048)) % 0x1000000
}

/// The secret `rounds` secrets after a secret.
pub open spec fn secret_after(secret: u64, rounds: nat) -> u64
    decreases rounds,
{
    if rounds == 0 {
        secret
    } else {
        next_secret(secret_after(secret, (rounds - 1) as nat))
    }
}

/// The sum of the secrets that come `rounds` secrets after the given ones.
pub open spec fn later_secrets_sum(secrets: Seq<u64>, rounds: nat) -> nat {
    sum_over(secrets, |secret: u64| secret_after(secret, rounds) as nat)
}

/// The secret `rounds` secrets after a secret.
pub fn advance(initial_secret: u64, rounds: u32) -> (secret: u64)
    ensures
        secret == secret_after(initial_secret, rounds as nat),
{
    let mut secret = initial_secret;
    let mut round: u32 = 0;
    while round < rounds
        invariant
            round <= rounds,
            secret == secret_after(initial_secret, round as nat),
        decreases rounds - round,
    {
        secret = next_secret_number(secret);
        round += 1;
    }
    secret
}

/// The sum of the 2000th secrets after the given ones.
pub fn sum_of_secrets(secret_nums: &Vec<u64>) -> (sum: u64)
    requires
        later_secrets_sum(secret_nums@, 2000) <= u64::MAX,
    ensures
        sum == later_secrets_sum(secret_nums@, 2000),
{
    let ghost later = |secret: u64| secret_after(secret, 2000) as nat;
    let mut sum: u64 = 0;
    let mut at: usize = 0;
    proof {
        assert(secret_nums@.take(0) =~= Seq::<u64>::empty());
    }
    while at < secret_nums.len()
        invariant
            at <= secret_nums.len(),
            later == (|secret: u64| secret_after(secret, 2000) as nat),
            sum_over(secret_nums@, later) <= u64::MAX,
            sum == sum_over(secret_nums@.take(at as int), later),
        decreases secret_nums.len() - at,
    {
        proof {
            let next = secret_nums@.take(at + 1);
            assert(next.drop_last() =~= secret_nums@.take(at as int));
            assert(next.last() == secret_nums@[at as int]);
            lemma_sum_over_take(secret_nums@, later, at + 1);
        }
        sum += advance(secret_nums[at], 2000);
        at += 1;
    }
    proof {
        assert(secret_nums@.take(at as int) =~= secret_nums@);
    }
    sum
}

/// Four changes of price in a row.
pub type Changes = (int, int, int, int);

/// How many prices each buyer offers.
pub const PRICES: u32 = 2000;

/// The price that a buyer offers with the secret `at` secrets after the
/// first: its last digit.
#[verifier::opaque]
pub open spec fn price(secret: u64, at: int) -> int {
    secret_after(secret, at as nat) as int % 10
}

/// A price is a digit.
pub proof fn lemma_price_digit(secret: u64, at: int)
    ensures
        0 <= price(secret, at) <= 9,
{
    reveal(price);
}

/// The four changes that lead to the price at `at`.
pub open spec fn window(secret: u64, at: int) -> Changes {
    (
        price(secret, at - 3) - price(secret, at - 4),
        price(secret, at - 2) - price(secret, at - 3),
        price(secret, at - 1) - price(secret, at - 2),
        price(secret, at) - price(secret, at - 1),
    )
}

/// The changes lead to one of the first `upto` prices of the buyer.
pub open spec fn seen(secret: u64, seq: Changes, upto: int) -> bool
    decreases upto,
{
    if upto <= 4 {
        false
    } else {
        seen(secret, seq, upto - 1) || window(secret, upto - 1) == seq
    }
}

/// What the buyer pays among the first `upto` prices: the first price that
/// the changes lead to, and nothing where they lead to none.
pub open spec fn sale(secret: u64, seq: Changes, upto: int) -> nat
    decreases upto,
{
    if upto <= 4 {
        0
    } else if seen(secret, seq, upto - 1) {
        sale(secret, seq, upto - 1)
    } else if window(secret, upto - 1) == seq {
        price(secret, upto - 1) as nat
    } else {
        0
    }
}

/// What all buyers pay for the changes.
pub open spec fn payout(buyers: Seq<u64>, seq: Changes) -> nat {
    sum_over(buyers, |secret: u64| sale(secret, seq, 2000))
}

/// The four changes as numbers.
pub open spec fn changes_of(seq: [i8; 4]) -> Changes {
    (seq@[0] as int, seq@[1] as int, seq@[2] as int, seq@[3] as int)
}

/// Each change is one that two digits can make.
pub open spec fn in_range(seq: Changes) -> bool {
    &&& -9 <= seq.0 <= 9
    &&& -9 <= seq.1 <= 9
    &&& -9 <= seq.2 <= 9
    &&& -9 <= seq.3 <= 9
}

/// The number under which the sums of the changes are kept.
pub open spec fn code(seq: Changes) -> int {
    (((seq.0 + 9) * 19 + (seq.1 + 9)) * 19 + (seq.2 + 9)) * 19 + (seq.3 + 9)
}

/// No buyer pays more than 9.
pub proof fn lemma_sale_small(secret: u64, seq: Changes, upto: int)
    ensures
        sale(secret, seq, upto) <= 9,
    decreases upto,
{
    if upto > 4 {
        lemma_sale_small(secret, seq, upto - 1);
        lemma_price_digit(secret, upto - 1);
    }
}

/// The changes that lead to a price are changes that two digits can make.
pub proof fn lemma_window_in_range(secret: u64, at: int)
    ensures
        in_range(window(secret, at)),
{
    lemma_price_digit(secret, at - 4);
    lemma_price_digit(secret, at - 3);
    lemma_price_digit(secret, at - 2);
    lemma_price_digit(secret, at - 1);
    lemma_price_digit(secret, at);
}

/// Changes that lead to no price sell nothing.
pub proof fn lemma_unseen_sells_nothing(secret: u64, seq: Changes, upto: int)
    requires
        !seen(secret, seq, upto),
    ensures
        sale(secret, seq, upto) == 0,
    decreases upto,
{
    if upto > 4 {
        lemma_unseen_sells_nothing(secret, seq, upto - 1);
    }
}

/// The sum that the table holds under a number.
pub open spec fn sum_at(sums: Map<u64, u64>, key: int) -> nat {
    if 0 <= key <= u64::MAX && sums.contains_key(key as u64) {
        sums[key as u64] as nat
    } else {
        0
    }
}

/// What the buyers before and the first `upto` prices of the present buyer
/// pay for the changes.
pub open spec fn part(buyers: Seq<u64>, secret: u64, upto: int, seq: Changes) -> nat {
    payout(buyers, seq) + sale(secret, seq, upto)
}

/// The table holds what has been paid so far for all changes, and the best
/// of it is known.
pub open spec fn tallied(
    sums: Map<u64, u64>,
    best: (u64, Option<[i8; 4]>),
    buyers: Seq<u64>,
    secret: u64,
    upto: int,
) -> bool {
    &&& forall|seq: Changes|
        in_range(seq) ==> sum_at(sums, code(seq)) == #[trigger] part(buyers, secret, upto, seq)
    &&& forall|seq: Changes| #[trigger] part(buyers, secret, upto, seq) <= best.0
    &&& best.1 is None ==> best.0 == 0
    &&& best.1 matches Some(seq) ==> best.0 > 0 && part(buyers, secret, upto, changes_of(seq))
        == best.0
}

/// The number under which the sums of four changes are kept.
fn code_of(seq: &[i8; 4]) -> (key: u64)
    requires
        in_range(changes_of(*seq)),
    ensures
        key == code(changes_of(*seq)),
{
    let a = (seq[0] + 9) as u64;
    let b = (seq[1] + 9) as u64;
    let c = (seq[2] + 9) as u64;
    let d = (seq[3] + 9) as u64;
    ((a * 19 + b) * 19 + c) * 19 + d
}

/// The change from one secret's price to the next one's.
fn change(from: u64, to: u64) -> (diff: i8)
    ensures
        diff == to as int % 10 - from as int % 10,
        -9 <= diff <= 9,
{
    ((to % 10) as i8) - ((from % 10) as i8)
}

/// Different changes are kept under different numbers.
pub proof fn lemma_code_apart(a: Changes, b: Changes)
    requires
        in_range(a),
        in_range(b),
        a != b,
    ensures
        code(a) != code(b),
        0 <= code(a) < 130321,
{
}

/// The set holds the numbers of the changes that lead to one of the first
/// `upto` prices.
pub open spec fn marked(visited: Set<u64>, secret: u64, upto: int) -> bool {
    forall|seq: Changes|
        in_range(seq) ==> visited.contains(code(seq) as u64) == #[trigger] seen(secret, seq, upto)
}

/// The changes that lead to a price were seen before: nothing is sold.
proof fn lemma_tally_skip(
    visited: Set<u64>,
    sums: Map<u64, u64>,
    best: (u64, Option<[i8; 4]>),
    buyers: Seq<u64>,
    secret: u64,
    at: int,
)
    requires
        at >= 4,
        marked(visited, secret, at),
        tallied(sums, best, buyers, secret, at),
        seen(secret, window(secret, at), at),
    ensures
        marked(visited, secret, at + 1),
        tallied(sums, best, buyers, secret, at + 1),
{
    let shown = window(secret, at);
    assert forall|other: Changes| #[trigger]
        part(buyers, secret, at + 1, other) == part(buyers, secret, at, other) by {
        if !seen(secret, other, at) {
            assert(other != shown);
        }
    }
    assert forall|other: Changes| in_range(other) implies sum_at(sums, code(other))
        == #[trigger] part(buyers, secret, at + 1, other) by {
        assert(sum_at(sums, code(other)) == part(buyers, secret, at, other));
    }
    assert forall|other: Changes| #[trigger] part(buyers, secret, at + 1, other) <= best.0 by {
        assert(part(buyers, secret, at, other) <= best.0);
    }
    assert forall|other: Changes| in_range(other) implies visited.contains(code(other) as u64)
        == #[trigger] seen(secret, other, at + 1) by {
        assert(visited.contains(code(other) as u64) == seen(secret, other, at));
    }
    if let Some(kept) = best.1 {
        assert(part(buyers, secret, at + 1, changes_of(kept)) == part(
            buyers,
            secret,
            at,
            changes_of(kept),
        ));
    }
}

/// The changes that lead to a price are new: the price is added to their
/// sum, and the best is the larger of that sum and the best before.
proof fn lemma_tally_add(
    visited: Set<u64>,
    sums: Map<u64, u64>,
    best: (u64, Option<[i8; 4]>),
    buyers: Seq<u64>,
    secret: u64,
    at: int,
    seq: [i8; 4],
    value: u64,
)
    requires
        at >= 4,
        marked(visited, secret, at),
        tallied(sums, best, buyers, secret, at),
        changes_of(seq) == window(secret, at),
        !seen(secret, window(secret, at), at),
        value == sum_at(sums, code(window(secret, at))) + price(secret, at),
    ensures
        in_range(window(secret, at)),
        marked(visited.insert(code(window(secret, at)) as u64), secret, at + 1),
        tallied(
            sums.insert(code(window(secret, at)) as u64, value),
            if best.0 < value {
                (value, Some(seq))
            } else {
                best
            },
            buyers,
            secret,
            at + 1,
        ),
{
    let shown = window(secret, at);
    let key = code(shown) as u64;
    let after = sums.insert(key, value);
    let top = if best.0 < value {
        (value, Some(seq))
    } else {
        best
    };
    lemma_window_in_range(secret, at);
    lemma_price_digit(secret, at);
    lemma_unseen_sells_nothing(secret, shown, at);
    assert(0 <= code(shown) < 130321);
    assert(part(buyers, secret, at + 1, shown) == value) by {
        assert(sum_at(sums, code(shown)) == part(buyers, secret, at, shown));
    }
    assert forall|other: Changes| other != shown implies #[trigger] part(
        buyers,
        secret,
        at + 1,
        other,
    ) == part(buyers, secret, at, other) by {}
    assert forall|other: Changes| in_range(other) implies visited.insert(key).contains(
        code(other) as u64,
    ) == #[trigger] seen(secret, other, at + 1) by {
        assert(visited.contains(code(other) as u64) == seen(secret, other, at));
        if other != shown {
            lemma_code_apart(other, shown);
            lemma_code_apart(shown, other);
        }
    }
    assert forall|other: Changes| in_range(other) implies sum_at(after, code(other))
        == #[trigger] part(buyers, secret, at + 1, other) by {
        assert(sum_at(sums, code(other)) == part(buyers, secret, at, other));
        if other != shown {
            lemma_code_apart(other, shown);
            lemma_code_apart(shown, other);
        }
    }
    assert forall|other: Changes| #[trigger] part(buyers, secret, at + 1, other) <= top.0 by {
        assert(part(buyers, secret, at, other) <= best.0);
    }
    if best.0 >= value {
        if let Some(kept) = best.1 {
            let chosen = changes_of(kept);
            assert(part(buyers, secret, at, chosen) == best.0);
            assert(part(buyers, secret, at + 1, chosen) <= top.0);
        }
    }
}

/// One buyer: adds to the table what the buyer pays for each four changes,
/// at the first price that they lead to, and keeps the best sum.
fn sell_to(
    initial_secret: u64,
    sequence_sums: &mut HashMap<u64, u64>,
    best: &mut (u64, Option<[i8; 4]>),
    Ghost(buyers): Ghost<Seq<u64>>,
)
    requires
        buyers.len() < 0x0fff_ffff_ffff_ffff,
        tallied(old(sequence_sums)@, *old(best), buyers, initial_secret, 4),
    ensures
        tallied(final(sequence_sums)@, *final(best), buyers, initial_secret, 2000),
{
    broadcast use vstd::std_specs::hash::group_hash_axioms;

    let mut visited: HashSet<u64> = HashSet::new();
    let mut first;
    let mut second = initial_secret;
    let mut third = next_secret_number(second);
    let mut fourth = next_secret_number(third);
    let mut fifth = next_secret_number(fourth);
    assert(second == secret_after(initial_secret, 0));
    assert(third == secret_after(initial_secret, 1)) by {
        reveal_with_fuel(secret_after, 2);
    }
    assert(fourth == secret_after(initial_secret, 2)) by {
        reveal_with_fuel(secret_after, 3);
    }
    assert(fifth == secret_after(initial_secret, 3)) by {
        reveal_with_fuel(secret_after, 4);
    }
    let mut at: u32 = 4;
    while at < PRICES
        invariant
            4 <= at <= 2000,
            buyers.len() < 0x0fff_ffff_ffff_ffff,
            second == secret_after(initial_secret, (at - 4) as nat),
            third == secret_after(initial_secret, (at - 3) as nat),
            fourth == secret_after(initial_secret, (at - 2) as nat),
            fifth == secret_after(initial_secret, (at - 1) as nat),
            marked(visited@, initial_secret, at as int),
            tallied(sequence_sums@, *best, buyers, initial_secret, at as int),
        decreases 2000 - at,
    {
        first = second;
        second = third;
        third = fourth;
        fourth = fifth;
        fifth = next_secret_number(fifth);
        let change_a = change(first, second);
        let change_b = change(second, third);
        let change_c = change(third, fourth);
        let change_d = change(fourth, fifth);
        let seq = [change_a, change_b, change_c, change_d];
        let ghost shown = window(initial_secret, at as int);
        proof {
            reveal(price);
            assert(changes_of(seq) == shown);
            lemma_window_in_range(initial_secret, at as int);
            assert(0 <= code(shown) < 130321);
        }
        let key = code_of(&seq);
        if visited.contains(&key) {
            proof {
                lemma_tally_skip(
                    visited@,
                    sequence_sums@,
                    *best,
                    buyers,
                    initial_secret,
                    at as int,
                );
            }
        } else {
            let price_now = fifth % 10;
            let held = match sequence_sums.get(&key) {
                Some(sum) => *sum,
                None => 0,
            };
            proof {
                reveal(price);
                assert(price_now == price(initial_secret, at as int));
                assert(!seen(initial_secret, shown, at as int));
                assert forall|i: int| 0 <= i < buyers.len() implies sale(
                    #[trigger] buyers[i],
                    shown,
                    2000,
                ) <= 9 by {
                    lemma_sale_small(buyers[i], shown, 2000);
                }
                lemma_sum_over_bound(buyers, |secret: u64| sale(secret, shown, 2000), 9);
                lemma_sale_small(initial_secret, shown, at as int);
                assert(held == part(buyers, initial_secret, at as int, shown));
                assert(held <= 9 * buyers.len() + 9) by (nonlinear_arith)
                    requires
                        held == payout(buyers, shown) + sale(initial_secret, shown, at as int),
                        payout(buyers, shown) <= buyers.len() * 9,
                        sale(initial_secret, shown, at as int) <= 9,
                {
                }
                lemma_tally_add(
                    visited@,
                    sequence_sums@,
                    *best,
                    buyers,
                    initial_secret,
                    at as int,
                    seq,
                    (held + price_now) as u64,
                );
            }
            visited.insert(key);
            let seq_val = held + price_now;
            sequence_sums.insert(key, seq_val);
            if best.0 < seq_val {
                *best = (seq_val, Some(seq));
            }
        }
        at += 1;
    }
}

/// The most that any four changes of price bring in from all buyers, and
/// four changes that bring it in; none where nothing is to be had.
pub fn best_sequence(secret_nums: &Vec<u64>) -> (best: (u64, Option<[i8; 4]>))
    requires
        secret_nums.len() < 0x0fff_ffff_ffff_ffff,
    ensures
        forall|seq: Changes| #[trigger] payout(secret_nums@, seq) <= best.0,
        best.1 is None ==> best.0 == 0,
        best.1 matches Some(seq) ==> best.0 > 0 && payout(secret_nums@, changes_of(seq))
            == best.0,
{
    let mut best: (u64, Option<[i8; 4]>) = (0, None);
    let mut sequence_sums: HashMap<u64, u64> = HashMap::new();
    let mut at: usize = 0;
    proof {
        assert(secret_nums@.take(0) =~= Seq::<u64>::empty());
    }
    while at < secret_nums.len()
        invariant
            at <= secret_nums.len() < 0x0fff_ffff_ffff_ffff,
            forall|seq: Changes|
                in_range(seq) ==> sum_at(sequence_sums@, code(seq)) == #[trigger] payout(
                    secret_nums@.take(at as int),
                    seq,
                ),
            forall|seq: Changes| #[trigger] payout(secret_nums@.take(at as int), seq) <= best.0,
            best.1 is None ==> best.0 == 0,
            best.1 matches Some(seq) ==> best.0 > 0 && payout(
                secret_nums@.take(at as int),
                changes_of(seq),
            ) == best.0,
        decreases secret_nums.len() - at,
    {
        let ghost buyers = secret_nums@.take(at as int);
        let secret = secret_nums[at];
        proof {
            assert forall|seq: Changes| #[trigger]
                part(buyers, secret, 4, seq) == payout(buyers, seq) by {}
            assert(tallied(sequence_sums@, best, buyers, secret, 4));
        }
        sell_to(secret, &mut sequence_sums, &mut best, Ghost(buyers));
        proof {
            let next = secret_nums@.take(at + 1);
            assert(next =~= buyers.push(secret));
            assert forall|seq: Changes| #[trigger]
                payout(next, seq) == part(buyers, secret, 2000, seq) by {
                lemma_sum_over_push(buyers, secret, |secret: u64| sale(secret, seq, 2000));
            }
            assert forall|seq: Changes| in_range(seq) implies sum_at(sequence_sums@, code(seq))
                == #[trigger] payout(next, seq) by {
                assert(sum_at(sequence_sums@, code(seq)) == part(buyers, secret, 2000, seq));
            }
            assert forall|seq: Changes| #[trigger] payout(next, seq) <= best.0 by {
                assert(part(buyers, secret, 2000, seq) <= best.0);
            }
        }
        at += 1;
    }
    proof {
        assert(secret_nums@.take(at as int) =~= secret_nums@);
    }
    best
}

} // verus!
