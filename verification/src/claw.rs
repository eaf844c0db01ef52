//! Claw machines: button A moves the claw by one vector and costs three
//! tokens, button B moves it by another and costs one. What is the least
//! number of tokens that brings the claw to the prize?

use vstd::prelude::*;
use crate::counting::{lemma_sum_over_take, sum_over};

use crate::shapes::{figures_fit, find_shape, first_shape, read, Figure, Piece, Read};
use crate::text::{block_end, find_block_end};

verus! {

/// A claw machine.
pub struct Machine {
    pub button_a: [u64; 2],
    pub button_b: [u64; 2],
    pub prize: [u64; 2],
}

/// `a` presses of button A and `b` presses of button B bring the claw to
/// the prize.
pub open spec fn wins(machine: Machine, a: int, b: int) -> bool {
    &&& a * machine.button_a@[0] + b * machine.button_b@[0] == machine.prize@[0]
    &&& a * machine.button_a@[1] + b * machine.button_b@[1] == machine.prize@[1]
}

/// What `solution` says of the ways to win with fewer than 100 presses of
/// A and fewer than `limit` presses of B: nothing where there is no such
/// way, else the least number of tokens that one of them costs.
pub open spec fn is_cheapest(machine: Machine, limit: int, solution: Option<u64>) -> bool {
    match solution {
        Some(tokens) => {
            &&& exists|a: int, b: int|
                0 <= a < 100 && 0 <= b < limit && #[trigger] wins(machine, a, b) && 3 * a + b
                    == tokens
            &&& forall|a: int, b: int|
                0 <= a < 100 && 0 <= b < limit && #[trigger] wins(machine, a, b) ==> tokens <= 3
                    * a + b
        },
        None => forall|a: int, b: int| 0 <= a < 100 && 0 <= b < limit ==> !#[trigger] wins(machine, a, b),
    }
}

/// The tokens to spend on a machine: the least number that wins its prize
/// with fewer than 100 presses of either button, and none where it cannot
/// be won so.
pub open spec fn tokens_for(machine: Machine) -> nat {
    let solution = choose|solution: Option<u64>| is_cheapest(machine, 100, solution);
    match solution {
        Some(tokens) => tokens as nat,
        None => 0,
    }
}

/// The tokens to spend on all machines.
pub open spec fn tokens_total(machines: Seq<Machine>) -> nat {
    sum_over(machines, |machine: Machine| tokens_for(machine))
}

/// A hundred presses of both buttons move the claw no further than 64 bits
/// can tell.
pub open spec fn machine_small(machine: Machine) -> bool {
    &&& 100 * (machine.button_a@[0] + machine.button_b@[0]) <= u64::MAX
    &&& 100 * (machine.button_a@[1] + machine.button_b@[1]) <= u64::MAX
}

/// There is one cheapest solution at most.
pub proof fn lemma_cheapest_unique(machine: Machine, x: Option<u64>, y: Option<u64>)
    requires
        is_cheapest(machine, 100, x),
        is_cheapest(machine, 100, y),
    ensures
        x == y,
{
}

/// More presses move the claw no less far.
pub proof fn lemma_presses_mono(fewer: int, more: int, step: int)
    requires
        0 <= fewer <= more,
        0 <= step,
    ensures
        fewer * step <= more * step,
{
    assert(fewer * step <= more * step) by (nonlinear_arith)
        requires
            0 <= fewer <= more,
            0 <= step,
    ;
}

/// The least number of tokens that wins the prize of a machine with fewer
/// than 100 presses of either button, if it can be won so.
pub fn cheapest_win(machine: &Machine) -> (solution: Option<u64>)
    requires
        machine_small(*machine),
    ensures
        is_cheapest(*machine, 100, solution),
{
    let ghost m = *machine;
    let mut solution: Option<u64> = None;
    let mut num_b: u64 = 0;
    while num_b < 100
        invariant_except_break
            is_cheapest(m, num_b as int, solution),
        invariant
            num_b <= 100,
            m == *machine,
            machine_small(m),
        ensures
            is_cheapest(m, 100, solution),
        decreases 100 - num_b,
    {
        proof {
            lemma_presses_mono(num_b as int, 100, machine.button_b@[0] as int);
            lemma_presses_mono(num_b as int, 100, machine.button_b@[1] as int);
        }
        let b_x = num_b * machine.button_b[0];
        let b_y = num_b * machine.button_b[1];
        if b_x > machine.prize[0] || b_y > machine.prize[1] {
            proof {
                assert forall|a: int, b: int| 0 <= a < 100 && num_b <= b < 100 implies !#[trigger] wins(
                    m,
                    a,
                    b,
                ) by {
                    lemma_presses_mono(num_b as int, b, machine.button_b@[0] as int);
                    lemma_presses_mono(num_b as int, b, machine.button_b@[1] as int);
                    lemma_presses_mono(0, a, machine.button_a@[0] as int);
                    lemma_presses_mono(0, a, machine.button_a@[1] as int);
                }
            }
            break ;
        }
        let ghost before = solution;
        let mut num_a: u64 = 0;
        while num_a < 100
            invariant_except_break
                solution == before,
                forall|a: int| 0 <= a < num_a ==> !#[trigger] wins(m, a, num_b as int),
            invariant
                num_a <= 100,
                num_b < 100,
                m == *machine,
                machine_small(m),
                b_x == num_b * machine.button_b@[0],
                b_y == num_b * machine.button_b@[1],
                is_cheapest(m, num_b as int, before),
            ensures
                is_cheapest(m, num_b + 1, solution),
            decreases 100 - num_a,
        {
            proof {
                lemma_presses_mono(num_a as int, 100, machine.button_a@[0] as int);
                lemma_presses_mono(num_a as int, 100, machine.button_a@[1] as int);
                lemma_presses_mono(num_b as int, 100, machine.button_b@[0] as int);
                lemma_presses_mono(num_b as int, 100, machine.button_b@[1] as int);
            }
            let sum_x = b_x + num_a * machine.button_a[0];
            let sum_y = b_y + num_a * machine.button_a[1];

            if sum_x > machine.prize[0] || sum_y > machine.prize[1] {
                proof {
                    assert forall|a: int| num_a <= a < 100 implies !#[trigger] wins(
                        m,
                        a,
                        num_b as int,
                    ) by {
                        lemma_presses_mono(num_a as int, a, machine.button_a@[0] as int);
                        lemma_presses_mono(num_a as int, a, machine.button_a@[1] as int);
                    }
                    assert forall|a: int, b: int|
                        0 <= a < 100 && b == num_b implies !#[trigger] wins(m, a, b) by {}
                }
                break ;
            }
            if sum_x == machine.prize[0] && sum_y == machine.prize[1] {
                let presses = num_a * 3 + num_b;
                assert(wins(m, num_a as int, num_b as int));
                if let Some(sol_presses) = solution {
                    if sol_presses > presses {
                        solution = Some(presses);
                    }
                } else {
                    solution = Some(presses);
                }
                break ;
            }
            num_a += 1;
        }
        num_b += 1;
    }
    solution
}

/// The tokens to spend on all machines whose prize can be won with fewer
/// than 100 presses of either button.
pub fn solve_a(machines: &Vec<Machine>) -> (sum: u64)
    requires
        forall|i: int| 0 <= i < machines.len() ==> machine_small(#[trigger] machines@[i]),
        tokens_total(machines@) <= u64::MAX,
    ensures
        sum == tokens_total(machines@),
{
    let ghost term = |machine: Machine| tokens_for(machine);
    let mut sum: u64 = 0;
    let mut at: usize = 0;
    proof {
        assert(machines@.take(0) =~= Seq::<Machine>::empty());
    }
    while at < machines.len()
        invariant
            at <= machines.len(),
            term == (|machine: Machine| tokens_for(machine)),
            forall|i: int| 0 <= i < machines.len() ==> machine_small(#[trigger] machines@[i]),
            sum_over(machines@, term) <= u64::MAX,
            sum == sum_over(machines@.take(at as int), term),
        decreases machines.len() - at,
    {
        let machine = &machines[at];
        proof {
            let next = machines@.take(at + 1);
            assert(next.drop_last() =~= machines@.take(at as int));
            assert(next.last() == machines@[at as int]);
            lemma_sum_over_take(machines@, term, at + 1);
        }
        let solution = cheapest_win(machine);
        proof {
            let chosen = choose|chosen: Option<u64>| is_cheapest(*machine, 100, chosen);
            lemma_cheapest_unique(*machine, solution, chosen);
        }
        if let Some(presses) = solution {
            sum += presses;
        }
        at += 1;
    }
    proof {
        assert(machines@.take(at as int) =~= machines@);
    }
    sum
}

/// The shape of the text that tells of a machine: three lines, `Button A:
/// X+`, a number, `, Y+` and a number; the same for button B; and `Prize:
/// X=`, a number, `, Y=` and a number.
pub open spec fn machine_shape() -> Seq<Piece> {
    seq![
        Piece::Byte(0x42),
        Piece::Byte(0x75),
        Piece::Byte(0x74),
        Piece::Byte(0x74),
        Piece::Byte(0x6f),
        Piece::Byte(0x6e),
        Piece::Byte(0x20),
        Piece::Byte(0x41),
        Piece::Byte(0x3a),
        Piece::Byte(0x20),
        Piece::Byte(0x58),
        Piece::Byte(0x2b),
        Piece::Number,
        Piece::Byte(0x2c),
        Piece::Byte(0x20),
        Piece::Byte(0x59),
        Piece::Byte(0x2b),
        Piece::Number,
        Piece::Byte(0x0a),
        Piece::Byte(0x42),
        Piece::Byte(0x75),
        Piece::Byte(0x74),
        Piece::Byte(0x74),
        Piece::Byte(0x6f),
        Piece::Byte(0x6e),
        Piece::Byte(0x20),
        Piece::Byte(0x42),
        Piece::Byte(0x3a),
        Piece::Byte(0x20),
        Piece::Byte(0x58),
        Piece::Byte(0x2b),
        Piece::Number,
        Piece::Byte(0x2c),
        Piece::Byte(0x20),
        Piece::Byte(0x59),
        Piece::Byte(0x2b),
        Piece::Number,
        Piece::Byte(0x0a),
        Piece::Byte(0x50),
        Piece::Byte(0x72),
        Piece::Byte(0x69),
        Piece::Byte(0x7a),
        Piece::Byte(0x65),
        Piece::Byte(0x3a),
        Piece::Byte(0x20),
        Piece::Byte(0x58),
        Piece::Byte(0x3d),
        Piece::Number,
        Piece::Byte(0x2c),
        Piece::Byte(0x20),
        Piece::Byte(0x59),
        Piece::Byte(0x3d),
        Piece::Number,
    ]
}

/// The machine holds the six numbers.
pub open spec fn machine_holds(machine: Machine, figures: Seq<Figure>) -> bool {
    &&& figures.len() == 6
    &&& machine.button_a@ == seq![figures[0].1 as u64, figures[1].1 as u64]
    &&& machine.button_b@ == seq![figures[2].1 as u64, figures[3].1 as u64]
    &&& machine.prize@ == seq![figures[4].1 as u64, figures[5].1 as u64]
}

/// The numbers of the first place in the block at which the text has the
/// shape of a machine, where there is such a place and the numbers fit.
pub open spec fn machine_figures(text: Seq<u8>, from: int, to: int) -> Option<Seq<Figure>> {
    let start = first_shape(text, from, to, machine_shape());
    if start > to {
        None
    } else {
        match read(text, start, to, machine_shape()) {
            Some((figures, after)) => if figures.len() == 6 && figures_fit(figures) {
                Some(figures)
            } else {
                None
            },
            None => None,
        }
    }
}

/// Every block of the text from `from` on tells of a machine. Blocks are
/// parted by empty lines.
pub open spec fn blocks_ok(text: Seq<u8>, from: int) -> bool
    decreases text.len() - from,
{
    let end = block_end(text, from);
    if from > text.len() || end < from {
        false
    } else {
        machine_figures(text, from, end) is Some && (end + 2 <= text.len() ==> blocks_ok(
            text,
            end + 2,
        ))
    }
}

/// The machines are those of the blocks of the text from `from` on.
pub open spec fn machines_shown(text: Seq<u8>, from: int, machines: Seq<Machine>) -> bool
    decreases text.len() - from,
{
    let end = block_end(text, from);
    if from > text.len() || end < from {
        false
    } else {
        &&& machines.len() > 0
        &&& machine_figures(text, from, end) matches Some(figures) && machine_holds(
            machines[0],
            figures,
        )
        &&& if end + 2 <= text.len() {
            machines_shown(text, end + 2, machines.drop_first())
        } else {
            machines.len() == 1
        }
    }
}

/// Reads the machine of each block from `from` on.
fn read_machines_from(text: &[u8], from: usize, pieces: &Vec<Piece>) -> (machines: Option<
    Vec<Machine>,
>)
    requires
        from <= text@.len() < usize::MAX,
        pieces@ == machine_shape(),
    ensures
        machines is Some == blocks_ok(text@, from as int),
        machines matches Some(found) ==> machines_shown(text@, from as int, found@),
    decreases text@.len() - from,
{
    let end = find_block_end(text, from);
    let (start, result) = find_shape(text, from, end, pieces);
    let machine = match result {
        Read::Found(numbers, after) => {
            if numbers.len() == 6 {
                let ghost figures = crate::shapes::figures_of(numbers@);
                let machine = Machine {
                    button_a: [numbers[0].1, numbers[1].1],
                    button_b: [numbers[2].1, numbers[3].1],
                    prize: [numbers[4].1, numbers[5].1],
                };
                proof {
                    assert(machine.button_a@ =~= seq![figures[0].1 as u64, figures[1].1 as u64]);
                    assert(machine.button_b@ =~= seq![figures[2].1 as u64, figures[3].1 as u64]);
                    assert(machine.prize@ =~= seq![figures[4].1 as u64, figures[5].1 as u64]);
                }
                machine
            } else {
                return None;
            }
        },
        _ => {
            return None;
        },
    };
    if text.len() - end >= 2 {
        match read_machines_from(text, end + 2, pieces) {
            Some(mut rest) => {
                let ghost tail = rest@;
                rest.insert(0, machine);
                assert(rest@.drop_first() =~= tail);
                Some(rest)
            },
            None => None,
        }
    } else {
        let machines = vec![machine];
        Some(machines)
    }
}

/// Reads the machines, one from each block of the text; blocks are parted
/// by empty lines. Nothing is read where a block tells of no machine or a
/// number is too large.
pub fn read_machines(text: &[u8]) -> (machines: Option<Vec<Machine>>)
    requires
        text@.len() < usize::MAX,
    ensures
        machines is Some == blocks_ok(text@, 0),
        machines matches Some(found) ==> machines_shown(text@, 0, found@),
{
    let pieces = vec![
        Piece::Byte(0x42),
        Piece::Byte(0x75),
        Piece::Byte(0x74),
        Piece::Byte(0x74),
        Piece::Byte(0x6f),
        Piece::Byte(0x6e),
        Piece::Byte(0x20),
        Piece::Byte(0x41),
        Piece::Byte(0x3a),
        Piece::Byte(0x20),
        Piece::Byte(0x58),
        Piece::Byte(0x2b),
        Piece::Number,
        Piece::Byte(0x2c),
        Piece::Byte(0x20),
        Piece::Byte(0x59),
        Piece::Byte(0x2b),
        Piece::Number,
        Piece::Byte(0x0a),
        Piece::Byte(0x42),
        Piece::Byte(0x75),
        Piece::Byte(0x74),
        Piece::Byte(0x74),
        Piece::Byte(0x6f),
        Piece::Byte(0x6e),
        Piece::Byte(0x20),
        Piece::Byte(0x42),
        Piece::Byte(0x3a),
        Piece::Byte(0x20),
        Piece::Byte(0x58),
        Piece::Byte(0x2b),
        Piece::Number,
        Piece::Byte(0x2c),
        Piece::Byte(0x20),
        Piece::Byte(0x59),
        Piece::Byte(0x2b),
        Piece::Number,
        Piece::Byte(0x0a),
        Piece::Byte(0x50),
        Piece::Byte(0x72),
        Piece::Byte(0x69),
        Piece::Byte(0x7a),
        Piece::Byte(0x65),
        Piece::Byte(0x3a),
        Piece::Byte(0x20),
        Piece::Byte(0x58),
        Piece::Byte(0x3d),
        Piece::Number,
        Piece::Byte(0x2c),
        Piece::Byte(0x20),
        Piece::Byte(0x59),
        Piece::Byte(0x3d),
        Piece::Number,
    ];
    assert(pieces@ =~= machine_shape());
    read_machines_from(text, 0, &pieces)
}

} // verus!
