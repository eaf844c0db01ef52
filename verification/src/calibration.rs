//! Calibration equations: can the numbers of an equation be combined, from
//! left to right, to its test value?

use vstd::prelude::*;
use crate::counting::{lemma_sum_over_take, sum_over};

use crate::text::{
    all_lines, digit_runs, find_digit_runs, lines_of, numbers_at, parse_numbers, parts_within,
};

verus! {

/// An equation: the value to reach and the numbers to combine.
#[derive(Clone)]
pub struct Calibration {
    pub test_value: u64,
    pub inputs: Vec<u64>,
}

/// The numbers can be combined by adding and multiplying, from left to
/// right, to the value. No number is the value of an empty list but zero.
pub open spec fn makes(inputs: Seq<u64>, value: nat) -> bool
    decreases inputs.len(),
{
    if inputs.len() == 0 {
        value == 0
    } else if inputs.len() == 1 {
        value == inputs[0]
    } else {
        exists|before: nat|
            makes(inputs.drop_last(), before) && #[trigger] joins(
                before,
                inputs.last() as nat,
                value,
            )
    }
}

/// The value is the product or the sum of the two numbers.
pub open spec fn joins(before: nat, last: nat, value: nat) -> bool {
    before * last == value || before + last == value
}

/// Every number is at least one.
pub open spec fn all_positive(inputs: Seq<u64>) -> bool {
    forall|i: int| 0 <= i < inputs.len() ==> #[trigger] inputs[i] >= 1
}

/// The front of a list of positive numbers is one.
pub proof fn lemma_front_positive(inputs: Seq<u64>)
    requires
        all_positive(inputs),
        inputs.len() > 0,
    ensures
        all_positive(inputs.drop_last()),
        inputs.last() >= 1,
{
    let front = inputs.drop_last();
    assert(inputs.last() == inputs[inputs.len() - 1]);
    assert forall|i: int| 0 <= i < front.len() implies #[trigger] front[i] >= 1 by {
        assert(front[i] == inputs[i]);
    }
}

/// What positive numbers combine to is at least one.
pub proof fn lemma_makes_positive(inputs: Seq<u64>, value: nat)
    requires
        all_positive(inputs),
        inputs.len() > 0,
        makes(inputs, value),
    ensures
        value >= 1,
    decreases inputs.len(),
{
    if inputs.len() > 1 {
        let front = inputs.drop_last();
        let last = inputs.last() as nat;
        lemma_front_positive(inputs);
        let before = choose|before: nat| makes(front, before) && #[trigger] joins(before, last, value);
        lemma_makes_positive(front, before);
        assert(before * last >= 1) by (nonlinear_arith)
            requires
                before >= 1,
                last >= 1,
        ;
    } else {
        assert(inputs[0] >= 1);
    }
}

/// Whether the numbers can be combined by adding and multiplying to the
/// value.
pub fn solve_a_helper(value_left: u64, inputs_left: &[u64]) -> (can: bool)
    requires
        all_positive(inputs_left@),
    ensures
        can == makes(inputs_left@, value_left as nat),
    decreases inputs_left@.len(),
{
    if inputs_left.len() == 0 {
        return value_left == 0;
    }
    if inputs_left.len() == 1 {
        return value_left == inputs_left[0];
    }
    let last_idx = inputs_left.len() - 1;
    let last_input = inputs_left[last_idx];
    let rest_inputs = slice_front(inputs_left, last_idx);
    let ghost front = inputs_left@.drop_last();
    let ghost last = last_input as nat;
    let ghost value = value_left as nat;
    proof {
        assert(rest_inputs@ =~= front);
        lemma_front_positive(inputs_left@);
    }

    if value_left % last_input == 0 {
        if solve_a_helper(value_left / last_input, rest_inputs) {
            proof {
                let before = (value_left / last_input) as nat;
                assert(before * last == value) by (nonlinear_arith)
                    requires
                        before == value / last,
                        value % last == 0,
                        last > 0,
                ;
                assert(makes(front, before) && joins(before, last, value));
            }
            return true;
        }
    }
    if value_left <= last_input {
        proof {
            assert forall|before: nat| makes(front, before) implies !#[trigger] joins(
                before,
                last,
                value,
            ) by {
                lemma_makes_positive(front, before);
                lemma_times_back(before, last, value);
            }
        }
        return false;
    }
    let found = solve_a_helper(value_left - last_input, rest_inputs);
    proof {
        if found {
            assert(makes(front, (value_left - last_input) as nat) && joins(
                (value_left - last_input) as nat,
                last,
                value,
            ));
        } else {
            assert forall|before: nat| makes(front, before) implies !#[trigger] joins(
                before,
                last,
                value,
            ) by {
                lemma_times_back(before, last, value);
            }
        }
    }
    found
}

/// A product divided by one of its factors gives the other.
pub proof fn lemma_times_back(before: nat, last: nat, value: nat)
    requires
        last > 0,
    ensures
        before * last == value ==> value % last == 0 && value / last == before,
{
    if before * last == value {
        assert(value % last == 0 && value / last == before) by (nonlinear_arith)
            requires
                before * last == value,
                last > 0,
        ;
    }
}

/// All of a slice but its last items, up to the given length.
fn slice_front(items: &[u64], len: usize) -> (front: &[u64])
    requires
        len <= items@.len(),
    ensures
        front@ == items@.subrange(0, len as int),
{
    vstd::slice::slice_subrange(items, 0, len)
}

/// The least power of ten above a number; one for zero.
pub open spec fn next_power_10(num: nat) -> nat
    decreases num,
{
    if num == 0 {
        1
    } else {
        10 * next_power_10(num / 10)
    }
}

/// A number is below the least power of ten above it.
pub proof fn lemma_next_power_above(num: nat)
    ensures
        num < next_power_10(num),
    decreases num,
{
    if num > 0 {
        lemma_next_power_above(num / 10);
    }
}

/// The least power of ten above a number that is not zero.
pub fn find_next_power_10(num: u64) -> (power: u64)
    requires
        num != 0,
        next_power_10(num as nat) <= u64::MAX,
    ensures
        power == next_power_10(num as nat),
{
    let ghost whole = num;
    let mut num = num;
    let mut power = 1u64;
    while num > 0
        invariant
            power * next_power_10(num as nat) == next_power_10(whole as nat),
            next_power_10(whole as nat) <= u64::MAX,
            power >= 1,
        decreases num,
    {
        proof {
            let rest = next_power_10((num / 10) as nat);
            assert(next_power_10(num as nat) == 10 * rest);
            lemma_next_power_above((num / 10) as nat);
            assert(power * (10 * rest) == (power * 10) * rest) by (nonlinear_arith);
            assert(power * 10 <= (power * 10) * rest) by (nonlinear_arith)
                requires
                    rest >= 1,
                    power >= 1,
            ;
        }
        num /= 10;
        power *= 10;
    }
    proof {
        assert(power * 1 == power) by (nonlinear_arith);
    }
    power
}

/// The value is the product or the sum of the two numbers, or the first
/// number with the digits of the second written behind it.
pub open spec fn joins_b(before: nat, last: nat, value: nat) -> bool {
    ||| before * last == value
    ||| before + last == value
    ||| before * next_power_10(last) + last == value
}

/// The numbers can be combined by adding, multiplying and writing one
/// behind the other, from left to right, to the value.
pub open spec fn makes_b(inputs: Seq<u64>, value: nat) -> bool
    decreases inputs.len(),
{
    if inputs.len() == 0 {
        value == 0
    } else if inputs.len() == 1 {
        value == inputs[0]
    } else {
        exists|before: nat|
            makes_b(inputs.drop_last(), before) && #[trigger] joins_b(
                before,
                inputs.last() as nat,
                value,
            )
    }
}

/// What positive numbers combine to is at least one.
pub proof fn lemma_makes_b_positive(inputs: Seq<u64>, value: nat)
    requires
        all_positive(inputs),
        inputs.len() > 0,
        makes_b(inputs, value),
    ensures
        value >= 1,
    decreases inputs.len(),
{
    if inputs.len() > 1 {
        let front = inputs.drop_last();
        let last = inputs.last() as nat;
        lemma_front_positive(inputs);
        let before = choose|before: nat|
            makes_b(front, before) && #[trigger] joins_b(before, last, value);
        lemma_makes_b_positive(front, before);
        assert(before * last >= 1) by (nonlinear_arith)
            requires
                before >= 1,
                last >= 1,
        ;
        assert(before * next_power_10(last) >= 0) by (nonlinear_arith);
    } else {
        assert(inputs[0] >= 1);
    }
}

/// Cutting the digits of the second number off the joined digits gives the
/// first number.
pub proof fn lemma_digits_back(before: nat, last: nat, value: nat)
    ensures
        before * next_power_10(last) + last == value ==> value % next_power_10(last) == last
            && value / next_power_10(last) == before,
{
    let power = next_power_10(last);
    lemma_next_power_above(last);
    if before * power + last == value {
        assert(value % power == last && value / power == before) by (nonlinear_arith)
            requires
                before * power + last == value,
                last < power,
        ;
    }
}

/// The numbers are positive and small enough for a power of ten above each
/// to fit 64 bits.
pub open spec fn all_joinable(inputs: Seq<u64>) -> bool {
    forall|i: int|
        0 <= i < inputs.len() ==> #[trigger] inputs[i] >= 1 && next_power_10(inputs[i] as nat)
            <= u64::MAX
}

/// Whether the numbers can be combined by adding, multiplying and writing
/// one behind the other to the value.
pub fn solve_b_helper(value_left: u64, inputs_left: &[u64]) -> (can: bool)
    requires
        all_joinable(inputs_left@),
    ensures
        can == makes_b(inputs_left@, value_left as nat),
    decreases inputs_left@.len(),
{
    if inputs_left.len() == 0 {
        return value_left == 0;
    }
    if inputs_left.len() == 1 {
        return value_left == inputs_left[0];
    }
    let last_idx = inputs_left.len() - 1;
    let last_input = inputs_left[last_idx];
    let rest_inputs = slice_front(inputs_left, last_idx);
    let ghost front = inputs_left@.drop_last();
    let ghost last = last_input as nat;
    let ghost value = value_left as nat;
    proof {
        assert(rest_inputs@ =~= front);
        assert(inputs_left@.last() == inputs_left@[inputs_left@.len() - 1]);
        assert forall|i: int| 0 <= i < front.len() implies #[trigger] front[i] >= 1
            && next_power_10(front[i] as nat) <= u64::MAX by {
            assert(front[i] == inputs_left@[i]);
        }
        assert(all_positive(front));
    }

    if value_left % last_input == 0 {
        if solve_b_helper(value_left / last_input, rest_inputs) {
            proof {
                let before = (value_left / last_input) as nat;
                assert(before * last == value) by (nonlinear_arith)
                    requires
                        before == value / last,
                        value % last == 0,
                        last > 0,
                ;
                assert(makes_b(front, before) && joins_b(before, last, value));
            }
            return true;
        }
    }
    if value_left > last_input {
        if solve_b_helper(value_left - last_input, rest_inputs) {
            proof {
                let before = (value_left - last_input) as nat;
                assert(makes_b(front, before) && joins_b(before, last, value));
            }
            return true;
        }
    }
    let next_power_10_last_input = find_next_power_10(last_input);
    proof {
        lemma_next_power_above(last);
    }
    if value_left % next_power_10_last_input == last_input {
        if solve_b_helper(value_left / next_power_10_last_input, rest_inputs) {
            proof {
                let before = (value_left / next_power_10_last_input) as nat;
                let power = next_power_10(last);
                assert(before * power + last == value) by (nonlinear_arith)
                    requires
                        before == value / power,
                        value % power == last,
                        power > 0,
                ;
                assert(makes_b(front, before) && joins_b(before, last, value));
            }
            return true;
        }
    }
    proof {
        assert forall|before: nat| makes_b(front, before) implies !#[trigger] joins_b(
            before,
            last,
            value,
        ) by {
            lemma_makes_b_positive(front, before);
            lemma_times_back(before, last, value);
            lemma_digits_back(before, last, value);
        }
    }
    false
}

/// The sum of the test values of the equations that hold for some way of
/// adding and multiplying.
pub open spec fn calibration_sum(calibrations: Seq<Calibration>) -> nat {
    sum_over(
        calibrations,
        |c: Calibration| if makes(c.inputs@, c.test_value as nat) { c.test_value as nat } else { 0nat },
    )
}

/// The sum of the test values of the equations that hold for some way of
/// adding, multiplying and writing one number behind the other.
pub open spec fn calibration_sum_b(calibrations: Seq<Calibration>) -> nat {
    sum_over(
        calibrations,
        |c: Calibration|
            if makes_b(c.inputs@, c.test_value as nat) {
                c.test_value as nat
            } else {
                0nat
            },
    )
}

/// The sum of the test values of the equations that can be made to hold
/// with `+` and `*`.
pub fn solve_a(calibrations: &Vec<Calibration>) -> (sum: u64)
    requires
        forall|i: int|
            0 <= i < calibrations.len() ==> all_positive((#[trigger] calibrations@[i]).inputs@),
        calibration_sum(calibrations@) <= u64::MAX,
    ensures
        sum == calibration_sum(calibrations@),
{
    let ghost term = |c: Calibration|
        if makes(c.inputs@, c.test_value as nat) {
            c.test_value as nat
        } else {
            0nat
        };
    let mut sum: u64 = 0;
    let mut at: usize = 0;
    proof {
        assert(calibrations@.take(0) =~= Seq::<Calibration>::empty());
    }
    while at < calibrations.len()
        invariant
            at <= calibrations.len(),
            term == (|c: Calibration|
                if makes(c.inputs@, c.test_value as nat) {
                    c.test_value as nat
                } else {
                    0nat
                }),
            forall|i: int|
                0 <= i < calibrations.len() ==> all_positive((#[trigger] calibrations@[i]).inputs@),
            sum_over(calibrations@, term) <= u64::MAX,
            sum == sum_over(calibrations@.take(at as int), term),
        decreases calibrations.len() - at,
    {
        let calibration = &calibrations[at];
        proof {
            let next = calibrations@.take(at + 1);
            assert(next.drop_last() =~= calibrations@.take(at as int));
            assert(next.last() == calibrations@[at as int]);
            lemma_sum_over_take(calibrations@, term, at + 1);
        }
        if solve_a_helper(calibration.test_value, calibration.inputs.as_slice()) {
            sum += calibration.test_value;
        }
        at += 1;
    }
    proof {
        assert(calibrations@.take(at as int) =~= calibrations@);
    }
    sum
}

/// The sum of the test values of the equations that can be made to hold
/// with `+`, `*` and `||`.
pub fn solve_b(calibrations: &Vec<Calibration>) -> (sum: u64)
    requires
        forall|i: int|
            0 <= i < calibrations.len() ==> all_joinable((#[trigger] calibrations@[i]).inputs@),
        calibration_sum_b(calibrations@) <= u64::MAX,
    ensures
        sum == calibration_sum_b(calibrations@),
{
    let ghost term = |c: Calibration|
        if makes_b(c.inputs@, c.test_value as nat) {
            c.test_value as nat
        } else {
            0nat
        };
    let mut sum: u64 = 0;
    let mut at: usize = 0;
    proof {
        assert(calibrations@.take(0) =~= Seq::<Calibration>::empty());
    }
    while at < calibrations.len()
        invariant
            at <= calibrations.len(),
            term == (|c: Calibration|
                if makes_b(c.inputs@, c.test_value as nat) {
                    c.test_value as nat
                } else {
                    0nat
                }),
            forall|i: int|
                0 <= i < calibrations.len() ==> all_joinable((#[trigger] calibrations@[i]).inputs@),
            sum_over(calibrations@, term) <= u64::MAX,
            sum == sum_over(calibrations@.take(at as int), term),
        decreases calibrations.len() - at,
    {
        let calibration = &calibrations[at];
        proof {
            let next = calibrations@.take(at + 1);
            assert(next.drop_last() =~= calibrations@.take(at as int));
            assert(next.last() == calibrations@[at as int]);
            lemma_sum_over_take(calibrations@, term, at + 1);
        }
        if solve_b_helper(calibration.test_value, calibration.inputs.as_slice()) {
            sum += calibration.test_value;
        }
        at += 1;
    }
    proof {
        assert(calibrations@.take(at as int) =~= calibrations@);
    }
    sum
}

/// The numbers that the runs of digits of a line spell, if all of them fit.
pub open spec fn line_numbers(text: Seq<u8>, line: (usize, usize)) -> Option<Seq<u64>> {
    numbers_at(text, digit_runs(text, line.0 as int, line.1 as int))
}

/// The calibration holds the numbers: the first is the value to reach.
pub open spec fn calibration_holds(calibration: Calibration, numbers: Option<Seq<u64>>) -> bool {
    numbers matches Some(list) && list.len() > 0 && list[0] == calibration.test_value
        && list.skip(1) == calibration.inputs@
}

/// Reads the equations, one from each line: the first number of a line is
/// the value to reach, the others are the numbers to combine. Nothing is
/// read where a line holds no number or one that is too large.
pub fn read_calibrations(text: &[u8]) -> (calibrations: Option<Vec<Calibration>>)
    ensures
        match calibrations {
            Some(found) => {
                &&& found@.len() == lines_of(text@, 0, text@.len() as int).len()
                &&& forall|i: int|
                    0 <= i < found@.len() ==> calibration_holds(
                        #[trigger] found@[i],
                        line_numbers(text@, lines_of(text@, 0, text@.len() as int)[i]),
                    )
            },
            None => exists|i: int|
                0 <= i < lines_of(text@, 0, text@.len() as int).len() && !(line_numbers(
                    text@,
                    #[trigger] lines_of(text@, 0, text@.len() as int)[i],
                ) matches Some(list) && list.len() > 0),
        },
{
    let lines = all_lines(text);
    let mut calibrations: Vec<Calibration> = Vec::new();
    let mut at: usize = 0;
    while at < lines.len()
        invariant
            at <= lines.len(),
            lines@ == lines_of(text@, 0, text@.len() as int),
            parts_within(text@, lines@),
            calibrations@.len() == at,
            forall|i: int|
                0 <= i < at ==> calibration_holds(
                    #[trigger] calibrations@[i],
                    line_numbers(text@, lines@[i]),
                ),
        decreases lines.len() - at,
    {
        let (from, to) = lines[at];
        let runs = find_digit_runs(text, from, to);
        let numbers = match parse_numbers(text, &runs) {
            Some(numbers) => numbers,
            None => {
                assert(line_numbers(text@, lines@[at as int]) is None);
                return None;
            },
        };
        if numbers.len() == 0 {
            assert(line_numbers(text@, lines@[at as int])->0.len() == 0);
            return None;
        }
        let test_value = numbers[0];
        let mut inputs: Vec<u64> = Vec::new();
        let mut k: usize = 1;
        while k < numbers.len()
            invariant
                1 <= k <= numbers.len(),
                inputs@ == numbers@.subrange(1, k as int),
            decreases numbers.len() - k,
        {
            inputs.push(numbers[k]);
            assert(numbers@.subrange(1, k + 1) =~= numbers@.subrange(1, k as int).push(
                numbers@[k as int],
            ));
            k += 1;
        }
        assert(numbers@.subrange(1, k as int) =~= numbers@.skip(1));
        calibrations.push(Calibration { test_value, inputs });
        at += 1;
    }
    Some(calibrations)
}

} // verus!
