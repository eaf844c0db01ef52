//! Two lists of location numbers: how far apart they are when both are put
//! in order, and how similar they are.

use vstd::prelude::*;
use vstd::relations::{sorted_by, total_ordering};
use vstd::seq_lib::lemma_sorted_unique;
use std::collections::HashMap;

verus! {

/// The order of numbers by size.
pub open spec fn by_size() -> spec_fn(u64, u64) -> bool {
    |a: u64, b: u64| a <= b
}

/// The numbers in ascending order.
pub open spec fn in_order(list: Seq<u64>) -> Seq<u64> {
    list.sort_by(by_size())
}

/// `slice::sort` on numbers: afterwards the same numbers stand in ascending
/// order.
#[verifier::external_body]
fn sort_numbers(list: &mut Vec<u64>)
    ensures
        sorted_by(final(list)@, by_size()),
        final(list)@.to_multiset() == old(list)@.to_multiset(),
{
    list.sort();
}

/// The order by size is a total order.
pub proof fn lemma_by_size_total()
    ensures
        total_ordering(by_size()),
{
    let leq = by_size();
    assert(vstd::relations::reflexive(leq));
    assert(vstd::relations::antisymmetric(leq));
    assert(vstd::relations::transitive(leq));
    assert(vstd::relations::strongly_connected(leq));
}

/// A list that holds the same numbers in ascending order is the list in
/// order.
pub proof fn lemma_in_order(list: Seq<u64>, sorted: Seq<u64>)
    requires
        sorted_by(sorted, by_size()),
        sorted.to_multiset() == list.to_multiset(),
    ensures
        sorted == in_order(list),
{
    lemma_by_size_total();
    list.lemma_sort_by_ensures(by_size());
    lemma_sorted_unique(sorted, in_order(list), by_size());
}

/// The distance between two numbers.
pub open spec fn distance(a: u64, b: u64) -> nat {
    (if a < b {
        b - a
    } else {
        a - b
    }) as nat
}

/// The sum of the distances between the first `pairs` numbers of one list
/// and those of the other, position by position.
pub open spec fn distance_sum(a: Seq<u64>, b: Seq<u64>, pairs: nat) -> nat
    decreases pairs,
{
    if pairs == 0 {
        0
    } else {
        distance_sum(a, b, (pairs - 1) as nat) + distance(a[pairs - 1], b[pairs - 1])
    }
}

/// The number of pairs that two lists make.
pub open spec fn pair_count(a: Seq<u64>, b: Seq<u64>) -> nat {
    if a.len() < b.len() {
        a.len()
    } else {
        b.len()
    }
}

/// The total distance between two lists: the smallest number of one is
/// paired with the smallest of the other, and so on.
pub open spec fn total_distance(a: Seq<u64>, b: Seq<u64>) -> nat {
    distance_sum(in_order(a), in_order(b), pair_count(a, b))
}

/// The sum of the distances grows with the number of pairs.
pub proof fn lemma_distance_sum_mono(a: Seq<u64>, b: Seq<u64>, fewer: nat, more: nat)
    requires
        fewer <= more,
    ensures
        distance_sum(a, b, fewer) <= distance_sum(a, b, more),
    decreases more,
{
    if fewer < more {
        lemma_distance_sum_mono(a, b, fewer, (more - 1) as nat);
    }
}

/// The total distance between the two lists.
pub fn solve_a(a_list: Vec<u64>, b_list: Vec<u64>) -> (total: u64)
    requires
        total_distance(a_list@, b_list@) <= u64::MAX,
    ensures
        total == total_distance(a_list@, b_list@),
{
    let mut a_list = a_list;
    let mut b_list = b_list;
    let ghost a_before = a_list@;
    let ghost b_before = b_list@;
    sort_numbers(&mut a_list);
    sort_numbers(&mut b_list);
    proof {
        lemma_in_order(a_before, a_list@);
        lemma_in_order(b_before, b_list@);
        a_before.to_multiset_ensures();
        b_before.to_multiset_ensures();
        a_list@.to_multiset_ensures();
        b_list@.to_multiset_ensures();
    }
    let pairs = if a_list.len() < b_list.len() {
        a_list.len()
    } else {
        b_list.len()
    };
    let mut total: u64 = 0;
    let mut i: usize = 0;
    while i < pairs
        invariant
            i <= pairs,
            pairs <= a_list.len(),
            pairs <= b_list.len(),
            distance_sum(a_list@, b_list@, pairs as nat) <= u64::MAX,
            total == distance_sum(a_list@, b_list@, i as nat),
        decreases pairs - i,
    {
        proof {
            lemma_distance_sum_mono(a_list@, b_list@, (i + 1) as nat, pairs as nat);
        }
        total += a_list[i].abs_diff(b_list[i]);
        i += 1;
    }
    total
}

/// How often a number stands in a list.
pub open spec fn occurrences(list: Seq<u64>, number: u64) -> nat
    decreases list.len(),
{
    if list.len() == 0 {
        0
    } else {
        occurrences(list.drop_last(), number) + (if list.last() == number {
            1nat
        } else {
            0nat
        })
    }
}

/// The similarity of the first list to the second: every number of the
/// first counts as often as it stands in the second.
pub open spec fn similarity(a: Seq<u64>, b: Seq<u64>) -> nat
    decreases a.len(),
{
    if a.len() == 0 {
        0
    } else {
        similarity(a.drop_last(), b) + occurrences(b, a.last()) * (a.last() as nat)
    }
}

/// A number stands in a list no more often than the list is long.
pub proof fn lemma_occurrences_bound(list: Seq<u64>, number: u64)
    ensures
        occurrences(list, number) <= list.len(),
    decreases list.len(),
{
    if list.len() > 0 {
        lemma_occurrences_bound(list.drop_last(), number);
    }
}

/// The similarity of a part of the first list is no larger than that of the
/// whole.
pub proof fn lemma_similarity_mono(a: Seq<u64>, b: Seq<u64>, len: int)
    requires
        0 <= len <= a.len(),
    ensures
        similarity(a.take(len), b) <= similarity(a, b),
    decreases a.len(),
{
    if len == a.len() {
        assert(a.take(len) =~= a);
    } else {
        lemma_similarity_mono(a.drop_last(), b, len);
        assert(a.drop_last().take(len) =~= a.take(len));
    }
}

/// The similarity of the first list to the second.
pub fn solve_b(a_list: Vec<u64>, b_list: Vec<u64>) -> (sum: u64)
    requires
        similarity(a_list@, b_list@) <= u64::MAX,
    ensures
        sum == similarity(a_list@, b_list@),
{
    broadcast use vstd::std_specs::hash::group_hash_axioms;

    let mut b_counts: HashMap<u64, u64> = HashMap::new();
    let mut i: usize = 0;
    while i < b_list.len()
        invariant
            i <= b_list.len(),
            forall|number: u64|
                b_counts@.contains_key(number) <==> occurrences(
                    b_list@.take(i as int),
                    number,
                ) > 0,
            forall|number: u64| #[trigger]
                b_counts@.contains_key(number) ==> b_counts@[number] == occurrences(
                    b_list@.take(i as int),
                    number,
                ),
        decreases b_list.len() - i,
    {
        let b = b_list[i];
        let ghost seen = b_list@.take(i as int);
        let ghost next = b_list@.take(i + 1);
        proof {
            assert(next.drop_last() =~= seen);
            assert(next.last() == b);
            lemma_occurrences_bound(seen, b);
        }
        let count = match b_counts.get(&b) {
            Some(count) => *count,
            None => 0,
        };
        b_counts.insert(b, count + 1);
        i += 1;
    }
    proof {
        assert(b_list@.take(i as int) =~= b_list@);
    }

    let mut sum: u64 = 0;
    let mut k: usize = 0;
    proof {
        assert(a_list@.take(0) =~= Seq::<u64>::empty());
    }
    while k < a_list.len()
        invariant
            k <= a_list.len(),
            similarity(a_list@, b_list@) <= u64::MAX,
            forall|number: u64|
                b_counts@.contains_key(number) <==> occurrences(b_list@, number) > 0,
            forall|number: u64| #[trigger]
                b_counts@.contains_key(number) ==> b_counts@[number] == occurrences(
                    b_list@,
                    number,
                ),
            sum == similarity(a_list@.take(k as int), b_list@),
        decreases a_list.len() - k,
    {
        let a = a_list[k];
        proof {
            let next = a_list@.take(k + 1);
            assert(next.drop_last() =~= a_list@.take(k as int));
            assert(next.last() == a);
            lemma_similarity_mono(a_list@, b_list@, k + 1);
        }
        if b_counts.contains_key(&a) {
            let count = *b_counts.get(&a).unwrap();
            assert(count * a == occurrences(b_list@, a) * (a as nat));
            sum += count * a;
        } else {
            assert(occurrences(b_list@, a) * (a as nat) == 0) by (nonlinear_arith)
                requires
                    occurrences(b_list@, a) == 0,
            ;
        }
        k += 1;
    }
    proof {
        assert(a_list@.take(k as int) =~= a_list@);
    }

    sum
}

/// Parts the rows of two numbers into the list of the first numbers and the
/// list of the second ones. There are no lists where a row holds more or
/// fewer than two numbers.
pub fn split_lists(rows: &Vec<Vec<u64>>) -> (lists: Option<(Vec<u64>, Vec<u64>)>)
    ensures
        lists is Some == forall|i: int| 0 <= i < rows@.len() ==> (#[trigger] rows@[i])@.len() == 2,
        lists matches Some(found) ==> {
            &&& found.0@.len() == rows@.len()
            &&& found.1@.len() == rows@.len()
            &&& forall|i: int|
                0 <= i < rows@.len() ==> found.0@[i] == (#[trigger] rows@[i])@[0] && found.1@[i]
                    == rows@[i]@[1]
        },
{
    let mut a_list: Vec<u64> = Vec::new();
    let mut b_list: Vec<u64> = Vec::new();
    let mut at: usize = 0;
    while at < rows.len()
        invariant
            at <= rows.len(),
            a_list@.len() == at,
            b_list@.len() == at,
            forall|i: int| 0 <= i < at ==> (#[trigger] rows@[i])@.len() == 2,
            forall|i: int|
                0 <= i < at ==> a_list@[i] == (#[trigger] rows@[i])@[0] && b_list@[i] == rows@[i]@[1],
        decreases rows.len() - at,
    {
        let line = &rows[at];
        if line.len() != 2 {
            return None;
        }
        a_list.push(line[0]);
        b_list.push(line[1]);
        at += 1;
    }
    Some((a_list, b_list))
}

} // verus!
