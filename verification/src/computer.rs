//! A computer with three registers and eight instructions on 3-bit
//! operands.

use vstd::prelude::*;
use vstd::arithmetic::power::pow;
use crate::counting::{lemma_sum_over_push, sum_over};
use vstd::arithmetic::power2::{lemma2_to64, lemma2_to64_rest, pow2};

use crate::shapes::{figures_fit, find_shape, first_shape, read, Piece, Read};
use crate::text::{block_end, find_block_end, same_bytes};

verus! {

/// An operand that stands for a small number or for a register.
#[derive(Clone, Copy, PartialEq, Eq, Debug, Structural)]
pub enum ComboOperand {
    Literal(u8),
    A,
    B,
    C,
}

/// An instruction.
#[derive(Clone, Copy, PartialEq, Eq, Debug, Structural)]
pub enum Instruction {
    Adv(ComboOperand),
    Bxl(u8),
    Bst(ComboOperand),
    Jnz(u8),
    Bxc,
    Out(ComboOperand),
    Bdv(ComboOperand),
    Cdv(ComboOperand),
}

/// The registers.
#[derive(Clone, Copy, Debug)]
#[allow(non_snake_case)]
pub struct State {
    pub A: u64,
    pub B: u64,
    pub C: u64,
}

/// The value of a combo operand.
pub open spec fn combo_value(state: State, combo: ComboOperand) -> u64 {
    match combo {
        ComboOperand::Literal(literal) => literal as u64,
        ComboOperand::A => state.A,
        ComboOperand::B => state.B,
        ComboOperand::C => state.C,
    }
}

/// Register A divided by two to the power of the operand.
pub open spec fn shifted(state: State, combo: ComboOperand) -> u64 {
    (state.A / (pow2(combo_value(state, combo) as nat) as u64)) as u64
}

/// What carrying out one instruction leads to.
pub enum Outcome {
    /// The instruction cannot be carried out: it divides by a power of two
    /// that 64 bits cannot hold.
    Fault,
    /// The registers and the next instruction, and what was put out.
    Next(State, nat, Option<u8>),
}

/// What carrying out an instruction does.
pub open spec fn execute(state: State, pc: nat, instr: Instruction) -> Outcome {
    match instr {
        Instruction::Adv(combo) => if combo_value(state, combo) >= 64 {
            Outcome::Fault
        } else {
            Outcome::Next(State { A: shifted(state, combo), ..state }, pc + 1, None)
        },
        Instruction::Bxl(literal) => Outcome::Next(
            State { B: state.B ^ (literal as u64), ..state },
            pc + 1,
            None,
        ),
        Instruction::Bst(combo) => Outcome::Next(
            State { B: combo_value(state, combo) % 8, ..state },
            pc + 1,
            None,
        ),
        Instruction::Jnz(literal) => if state.A != 0 {
            Outcome::Next(state, literal as nat, None)
        } else {
            Outcome::Next(state, pc + 1, None)
        },
        Instruction::Bxc => Outcome::Next(State { B: state.B ^ state.C, ..state }, pc + 1, None),
        Instruction::Out(combo) => Outcome::Next(
            state,
            pc + 1,
            Some((combo_value(state, combo) % 8) as u8),
        ),
        Instruction::Bdv(combo) => if combo_value(state, combo) >= 64 {
            Outcome::Fault
        } else {
            Outcome::Next(State { B: shifted(state, combo), ..state }, pc + 1, None)
        },
        Instruction::Cdv(combo) => if combo_value(state, combo) >= 64 {
            Outcome::Fault
        } else {
            Outcome::Next(State { C: shifted(state, combo), ..state }, pc + 1, None)
        },
    }
}

/// What the program puts out when it runs from the given instruction on
/// and comes to its end within `steps` instructions without a fault;
/// nothing where it does not.
pub open spec fn run(state: State, pc: nat, instrs: Seq<Instruction>, steps: nat) -> Option<Seq<u8>>
    decreases steps,
{
    if pc >= instrs.len() {
        Some(Seq::empty())
    } else if steps == 0 {
        None
    } else {
        match execute(state, pc, instrs[pc as int]) {
            Outcome::Fault => None,
            Outcome::Next(after, next, put) => match run(after, next, instrs, (steps - 1) as nat) {
                Some(rest) => Some(
                    (match put {
                        Some(byte) => seq![byte],
                        None => Seq::empty(),
                    }) + rest,
                ),
                None => None,
            },
        }
    }
}

/// The program comes to its end without a fault.
pub open spec fn halts(state: State, instrs: Seq<Instruction>) -> bool {
    exists|steps: nat| run(state, 0, instrs, steps) is Some
}

/// What the program puts out.
pub open spec fn output_of(state: State, instrs: Seq<Instruction>) -> Seq<u8> {
    run(state, 0, instrs, choose|steps: nat| run(state, 0, instrs, steps) is Some)->0
}

/// The value of a combo operand.
fn get_combo_val(state: &State, combo: ComboOperand) -> (value: u64)
    ensures
        value == combo_value(*state, combo),
{
    match combo {
        ComboOperand::Literal(literal) => literal as u64,
        ComboOperand::A => state.A,
        ComboOperand::B => state.B,
        ComboOperand::C => state.C,
    }
}

/// Two to the power of a number below 64.
fn power_of_two(exp: u64) -> (power: u64)
    requires
        exp < 64,
    ensures
        power == pow2(exp as nat),
        power > 0,
{
    proof {
        lemma2_to64();
        lemma2_to64_rest();
    }
    2u64.pow(exp as u32)
}

/// Runs the program and returns what it puts out.
pub fn simulate(state: State, instrs: &Vec<Instruction>) -> (outputs: Vec<u8>)
    requires
        halts(state, instrs@),
    ensures
        outputs@ == output_of(state, instrs@),
{
    let ghost start = state;
    let ghost total = choose|steps: nat| run(start, 0, instrs@, steps) is Some;
    let ghost mut steps = total;
    let mut state = state;
    let mut pc: usize = 0;
    let mut outputs: Vec<u8> = Vec::new();
    proof {
        assert(outputs@ + run(state, pc as nat, instrs@, steps)->0 =~= run(
            start,
            0,
            instrs@,
            total,
        )->0);
    }
    loop
        invariant
            run(state, pc as nat, instrs@, steps) is Some,
            outputs@ + run(state, pc as nat, instrs@, steps)->0 == run(start, 0, instrs@, total)->0,
        ensures
            outputs@ == run(start, 0, instrs@, total)->0,
        decreases steps,
    {
        if pc < instrs.len() {
            let instr = instrs[pc];
            let ghost before = outputs@;
            let ghost rest = run(state, pc as nat, instrs@, steps)->0;
            let ghost outcome = execute(state, pc as nat, instr);
            proof {
                assert(outcome is Next);
            }
            let mut jumped = false;
            match instr {
                Instruction::Adv(combo_operand) => {
                    state.A = state.A / power_of_two(get_combo_val(&state, combo_operand));
                },
                Instruction::Bxl(literal) => {
                    state.B = state.B ^ (literal as u64);
                },
                Instruction::Bst(combo_operand) => {
                    state.B = get_combo_val(&state, combo_operand) % 8;
                },
                Instruction::Jnz(literal) => {
                    if state.A != 0 {
                        pc = literal as usize;
                        jumped = true;
                    }
                },
                Instruction::Bxc => {
                    state.B = state.B ^ state.C;
                },
                Instruction::Out(combo_operand) => {
                    outputs.push((get_combo_val(&state, combo_operand) % 8) as u8);
                },
                Instruction::Bdv(combo_operand) => {
                    state.B = state.A / power_of_two(get_combo_val(&state, combo_operand));
                },
                Instruction::Cdv(combo_operand) => {
                    state.C = state.A / power_of_two(get_combo_val(&state, combo_operand));
                },
            }
            if !jumped {
                pc += 1;
            }
            proof {
                steps = (steps - 1) as nat;
                assert(outputs@ + run(state, pc as nat, instrs@, steps)->0 =~= before + rest);
            }
        } else {
            proof {
                assert(outputs@ + Seq::<u8>::empty() =~= outputs@);
            }
            break ;
        }
    }
    outputs
}

/// The state in which a search starts: `a` in register A, zero in the
/// others.
pub open spec fn start_with(a: u64) -> State {
    State { A: a, B: 0, C: 0 }
}

/// Started with `a`, the program puts out `wanted`.
pub open spec fn echoes(instrs: Seq<Instruction>, wanted: Seq<u8>, a: u64) -> bool {
    output_of(start_with(a), instrs) == wanted
}

/// Started with `a` the program puts out `wanted`, and started with any
/// smaller number it halts.
pub open spec fn searchable(instrs: Seq<Instruction>, wanted: Seq<u8>, a: u64) -> bool {
    &&& echoes(instrs, wanted, a)
    &&& forall|below: u64| below <= a ==> halts(#[trigger] start_with(below), instrs)
}

/// The least number in register A with which the program puts out the wanted
/// bytes, found by trying one number after the other.
pub fn find_initial_brute_force(instrs: &Vec<Instruction>, input_prog: &Vec<u8>) -> (state: State)
    requires
        exists|a: u64| #[trigger] searchable(instrs@, input_prog@, a),
    ensures
        state.B == 0,
        state.C == 0,
        echoes(instrs@, input_prog@, state.A),
        forall|below: u64| below < state.A ==> !#[trigger] echoes(instrs@, input_prog@, below),
{
    let ghost goal = choose|a: u64| #[trigger] searchable(instrs@, input_prog@, a);
    let mut a: u64 = 0;
    loop
        invariant
            a <= goal,
            searchable(instrs@, input_prog@, goal),
            forall|below: u64| below < a ==> !#[trigger] echoes(instrs@, input_prog@, below),
        ensures
            echoes(instrs@, input_prog@, a),
            forall|below: u64| below < a ==> !#[trigger] echoes(instrs@, input_prog@, below),
        decreases goal - a,
    {
        let state = State { A: a, B: 0, C: 0 };
        assert(state == start_with(a));
        let output = simulate(state, instrs);
        if same_bytes(&output, input_prog) {
            break ;
        }
        a += 1;
    }
    State { A: a, B: 0, C: 0 }
}

/// A number with three more bits at its low end.
pub open spec fn appended(a: u64, b: u8) -> u64 {
    (a << 3) | (b as u64)
}

/// With `new_a` in register A, whose lowest three bits are `b`, the program
/// that this search is made for puts out the wanted byte that stands `skip`
/// places from the end.
pub open spec fn step_ok(wanted: Seq<u8>, skip: int, new_a: u64, b: u8) -> bool {
    (b ^ 6) ^ wanted[wanted.len() - 1 - skip] ^ 7 == ((new_a >> ((b ^ 6) as u64)) % 8) as u8
}

/// `found` can be made from `a` by appending three bits for each wanted
/// byte but the last `skip`, each time so that the program puts out that
/// byte; the first three bits are a number below `upto`.
pub open spec fn search(wanted: Seq<u8>, a: u64, skip: nat, upto: nat, found: u64) -> bool
    decreases wanted.len() - skip, upto,
{
    if skip >= wanted.len() {
        found == a
    } else if upto == 0 || upto > 8 {
        false
    } else {
        let b = (upto - 1) as u8;
        ||| search(wanted, a, skip, (upto - 1) as nat, found)
        ||| (step_ok(wanted, skip as int, appended(a, b), b) && search(
            wanted,
            appended(a, b),
            skip + 1,
            8,
            found,
        ))
    }
}

/// A number made from zero in this way: with it in register A, the program
/// that this search is made for puts out the wanted bytes.
pub open spec fn solution(wanted: Seq<u8>, found: u64) -> bool {
    search(wanted, 0, 0, 8, found)
}

/// Some item of the stack leads to `found`.
pub open spec fn covered(wanted: Seq<u8>, stack: Seq<(u64, usize)>, found: u64) -> bool {
    exists|i: int|
        0 <= i < stack.len() && search(
            wanted,
            (#[trigger] stack[i]).0,
            stack[i].1 as nat,
            8,
            found,
        )
}

/// So few bytes are wanted that no bit is lost when three are appended for
/// each.
pub open spec fn lossless(wanted: Seq<u8>) -> bool {
    wanted.len() <= 21
}

/// Nine to the power `exp`, and one for an exponent below zero.
pub open spec fn pow9(exp: int) -> nat
    decreases exp,
{
    if exp <= 0 {
        1
    } else {
        9 * pow9(exp - 1)
    }
}

/// The weight of a stack item: nine times that of an item one step further.
pub open spec fn item_weight(len: int) -> spec_fn((u64, usize)) -> nat {
    |item: (u64, usize)| pow9(len - item.1)
}

/// Every item of the stack leads to solutions only, and where no bit is
/// lost it has three bits for each step made.
pub open spec fn stack_ok(wanted: Seq<u8>, stack: Seq<(u64, usize)>) -> bool {
    forall|i: int|
        0 <= i < stack.len() ==> item_ok(wanted, (#[trigger] stack[i]).0, stack[i].1)
}

/// The item leads to solutions only, and where no bit is lost it has three
/// bits for each step made.
pub open spec fn item_ok(wanted: Seq<u8>, a: u64, skip: usize) -> bool {
    &&& skip <= wanted.len()
    &&& lossless(wanted) ==> a >> ((3 * skip) as u64) == 0
    &&& forall|found: u64| #[trigger] search(wanted, a, skip as nat, 8, found) ==> solution(wanted, found)
}

/// Three more bits make a number no smaller, where room is left for them.
pub proof fn lemma_appended(a: u64, b: u8, skip: u64)
    requires
        skip <= 20,
        b < 8,
        a >> (3 * skip) == 0,
    ensures
        appended(a, b) >= a,
        appended(a, b) >> (3 * (skip + 1)) == 0,
{
    let wide = b as u64;
    assert(wide < 8);
    assert(((a << 3) | wide) >= a && ((a << 3) | wide) >> (3 * (skip + 1)) == 0) by (bit_vector)
        requires
            skip <= 20,
            wide < 8,
            a >> (3 * skip) == 0,
    ;
}

/// Where no bit is lost, what a number leads to is no smaller than the
/// number.
pub proof fn lemma_search_grows(wanted: Seq<u8>, a: u64, skip: nat, upto: nat, found: u64)
    requires
        lossless(wanted),
        skip <= wanted.len(),
        a >> ((3 * skip) as u64) == 0,
        search(wanted, a, skip, upto, found),
    ensures
        found >= a,
    decreases wanted.len() - skip, upto,
{
    if skip < wanted.len() {
        let b = (upto - 1) as u8;
        if search(wanted, a, skip, (upto - 1) as nat, found) {
            lemma_search_grows(wanted, a, skip, (upto - 1) as nat, found);
        } else {
            lemma_appended(a, b, skip as u64);
            lemma_search_grows(wanted, appended(a, b), skip + 1, 8, found);
        }
    }
}

/// The least number that the search of this program's own shape makes for
/// the wanted bytes. Where more bytes are wanted than the register has bits
/// for, the number is one that the search makes, not always the least.
pub fn find_initial_smart(input_prog: &Vec<u8>) -> (found: u64)
    requires
        exists|a: u64| #[trigger] solution(input_prog@, a),
    ensures
        solution(input_prog@, found),
        lossless(input_prog@) ==> forall|a: u64| #[trigger] solution(input_prog@, a) ==> found <= a,
{
    let ghost wanted = input_prog@;
    let ghost weight = item_weight(wanted.len() as int);
    let mut queue: Vec<(u64, usize)> = Vec::new();
    queue.push((0, 0));
    let mut min_initial: Option<u64> = None;
    proof {
        assert(queue@ =~= seq![(0u64, 0usize)]);
        assert(0u64 >> 0u64 == 0) by (bit_vector);
        assert forall|a: u64| #[trigger] solution(wanted, a) implies covered(wanted, queue@, a) by {
            assert(search(wanted, queue@[0].0, queue@[0].1 as nat, 8, a));
        }
    }
    while queue.len() > 0
        invariant
            wanted == input_prog@,
            weight == item_weight(wanted.len() as int),
            stack_ok(wanted, queue@),
            min_initial matches Some(least) ==> solution(wanted, least),
            forall|a: u64| #[trigger]
                solution(wanted, a) ==> covered(wanted, queue@, a) || (min_initial matches Some(
                    least,
                ) && (lossless(wanted) ==> least <= a)),
        decreases sum_over(queue@, weight),
    {
        let ghost before = queue@;
        let (a, skip) = queue.pop().unwrap();
        let ghost rest = queue@;
        proof {
            assert(before =~= rest.push((a, skip)));
            lemma_sum_over_push(rest, (a, skip), weight);
            assert(item_ok(wanted, before[before.len() - 1].0, before[before.len() - 1].1));
            assert forall|i: int| 0 <= i < rest.len() implies item_ok(
                wanted,
                (#[trigger] rest[i]).0,
                rest[i].1,
            ) by {
                assert(rest[i] == before[i]);
            }
        }
        let pruned = match min_initial {
            Some(least) => a >= least,
            None => false,
        };
        if pruned {
            proof {
                assert forall|s: u64| #[trigger] solution(wanted, s) implies covered(
                    wanted,
                    queue@,
                    s,
                ) || (min_initial matches Some(least) && (lossless(wanted) ==> least <= s)) by {
                    lemma_cover_popped(wanted, rest, a, skip, s);
                    if search(wanted, a, skip as nat, 8, s) && lossless(wanted) {
                        lemma_search_grows(wanted, a, skip as nat, 8, s);
                    }
                }
                assert(pow9(wanted.len() - skip) > 0) by {
                    lemma_pow9_positive(wanted.len() - skip);
                }
            }
            continue ;
        }
        if skip == input_prog.len() {
            min_initial = Some(a);
            proof {
                assert(search(wanted, a, skip as nat, 8, a));
                assert forall|s: u64| #[trigger] solution(wanted, s) implies covered(
                    wanted,
                    queue@,
                    s,
                ) || (min_initial matches Some(least) && (lossless(wanted) ==> least <= s)) by {
                    lemma_cover_popped(wanted, rest, a, skip, s);
                }
                assert(pow9(wanted.len() - skip) > 0) by {
                    lemma_pow9_positive(wanted.len() - skip);
                }
            }
            continue ;
        }
        let input_byte = input_prog[input_prog.len() - 1 - skip];
        let ghost child = pow9(wanted.len() - skip - 1);
        let ghost base = sum_over(rest, weight);
        let ghost mut pushed: nat = 0;
        let mut b: u8 = 0;
        while b < 8
            invariant
                b <= 8,
                wanted == input_prog@,
                weight == item_weight(wanted.len() as int),
                skip < wanted.len(),
                input_byte == wanted[wanted.len() - 1 - skip],
                item_ok(wanted, a, skip),
                stack_ok(wanted, queue@),
                child == pow9(wanted.len() - skip - 1),
                pushed <= b,
                sum_over(queue@, weight) == base + pushed * child,
                skip < input_prog.len(),
                rest.len() <= queue@.len(),
                forall|i: int| 0 <= i < rest.len() ==> #[trigger] queue@[i] == rest[i],
                forall|s: u64| #[trigger]
                    search(wanted, a, skip as nat, b as nat, s) ==> covered(wanted, queue@, s),
            decreases 8 - b,
        {
            let b_prime = b ^ 6;
            assert(b_prime < 8) by (bit_vector)
                requires
                    b < 8,
                    b_prime == b ^ 6,
            ;
            let new_a = (a << 3) | b as u64;
            let ghost held = queue@;
            let fits = (b_prime ^ input_byte ^ 7) == ((new_a >> (b_prime as u64)) % 8) as u8;
            assert(fits == step_ok(wanted, skip as int, appended(a, b), b));
            if fits {
                queue.push((new_a, skip + 1));
                proof {
                    lemma_sum_over_push(held, (new_a, (skip + 1) as usize), weight);
                    assert((pushed + 1) * child == pushed * child + child) by (nonlinear_arith);
                    pushed = pushed + 1;
                    assert(new_a == appended(a, b));
                    if lossless(wanted) {
                        assert((3 * skip) as u64 == 3 * (skip as u64));
                        assert((3 * (skip + 1)) as u64 == 3 * (skip as u64 + 1));
                        lemma_appended(a, b, skip as u64);
                        assert(new_a >> ((3 * (skip + 1)) as u64) == 0);
                    }
                    let next = (skip + 1) as usize;
                    assert forall|s: u64| #[trigger]
                        search(wanted, new_a, next as nat, 8, s) implies solution(wanted, s) by {
                        lemma_search_step(wanted, a, skip as nat, b, s);
                        assert(search(wanted, a, skip as nat, 8, s));
                    }
                    assert(item_ok(wanted, new_a, next));
                    assert forall|i: int| 0 <= i < queue@.len() implies item_ok(
                        wanted,
                        (#[trigger] queue@[i]).0,
                        queue@[i].1,
                    ) by {
                        if i < held.len() {
                            assert(queue@[i] == held[i]);
                        }
                    }
                }
            }
            proof {
                let upto = (b + 1) as u8;
                assert forall|s: u64| #[trigger]
                    search(wanted, a, skip as nat, upto as nat, s) implies covered(
                    wanted,
                    queue@,
                    s,
                ) by {
                    assert((upto - 1) as nat == b as nat);
                    assert((upto - 1) as u8 == b);
                    if search(wanted, a, skip as nat, b as nat, s) {
                        let i = choose|i: int|
                            0 <= i < held.len() && search(
                                wanted,
                                (#[trigger] held[i]).0,
                                held[i].1 as nat,
                                8,
                                s,
                            );
                        assert(queue@[i] == held[i]);
                    } else {
                        assert(fits);
                        assert(search(wanted, new_a, skip as nat + 1, 8, s));
                        let top = queue@[held.len() as int];
                        assert(top == (new_a, (skip + 1) as usize));
                        assert(search(wanted, top.0, top.1 as nat, 8, s));
                    }
                }
            }
            b += 1;
        }
        proof {
            assert forall|s: u64| #[trigger] solution(wanted, s) implies covered(wanted, queue@, s)
                || (min_initial matches Some(least) && (lossless(wanted) ==> least <= s)) by {
                lemma_cover_popped(wanted, rest, a, skip, s);
                if covered(wanted, rest, s) {
                    let i = choose|i: int|
                        0 <= i < rest.len() && search(
                            wanted,
                            (#[trigger] rest[i]).0,
                            rest[i].1 as nat,
                            8,
                            s,
                        );
                    assert(queue@[i] == rest[i]);
                }
            }
            assert(pushed * child <= 8 * child) by (nonlinear_arith)
                requires
                    pushed <= 8,
            ;
            assert(pow9(wanted.len() - skip) == 9 * child);
            lemma_pow9_positive(wanted.len() - skip - 1);
        }
    }
    proof {
        let a = choose|a: u64| #[trigger] solution(wanted, a);
        assert(!covered(wanted, queue@, a));
    }
    min_initial.unwrap()
}

/// What a stack led to before its top item was taken, the rest or that item
/// leads to.
pub proof fn lemma_cover_popped(
    wanted: Seq<u8>,
    rest: Seq<(u64, usize)>,
    a: u64,
    skip: usize,
    found: u64,
)
    ensures
        covered(wanted, rest.push((a, skip)), found) ==> covered(wanted, rest, found) || search(
            wanted,
            a,
            skip as nat,
            8,
            found,
        ),
{
    let whole = rest.push((a, skip));
    if covered(wanted, whole, found) {
        let i = choose|i: int|
            0 <= i < whole.len() && search(
                wanted,
                (#[trigger] whole[i]).0,
                whole[i].1 as nat,
                8,
                found,
            );
        if i < rest.len() {
            assert(rest[i] == whole[i]);
        }
    }
}

/// What a number leads to after three bits that fit are appended, the
/// number leads to.
pub proof fn lemma_search_step(wanted: Seq<u8>, a: u64, skip: nat, b: u8, found: u64)
    requires
        skip < wanted.len(),
        b < 8,
        step_ok(wanted, skip as int, appended(a, b), b),
        search(wanted, appended(a, b), skip + 1, 8, found),
    ensures
        search(wanted, a, skip, 8, found),
{
    lemma_search_more(wanted, a, skip, (b + 1) as nat, 8, found);
}

/// What a number leads to with fewer choices for the first three bits, it
/// leads to with more.
pub proof fn lemma_search_more(
    wanted: Seq<u8>,
    a: u64,
    skip: nat,
    fewer: nat,
    more: nat,
    found: u64,
)
    requires
        skip < wanted.len(),
        fewer <= more <= 8,
        search(wanted, a, skip, fewer, found),
    ensures
        search(wanted, a, skip, more, found),
    decreases more,
{
    if fewer < more {
        lemma_search_more(wanted, a, skip, fewer, (more - 1) as nat, found);
    }
}

/// A power of nine is not zero.
pub proof fn lemma_pow9_positive(exp: int)
    ensures
        pow9(exp) > 0,
    decreases exp,
{
    if exp > 0 {
        lemma_pow9_positive(exp - 1);
    }
}

/// The shape of the text that tells what the registers hold.
pub open spec fn register_shape() -> Seq<Piece> {
    seq![
        Piece::Byte(0x52),
        Piece::Byte(0x65),
        Piece::Byte(0x67),
        Piece::Byte(0x69),
        Piece::Byte(0x73),
        Piece::Byte(0x74),
        Piece::Byte(0x65),
        Piece::Byte(0x72),
        Piece::Byte(0x20),
        Piece::Byte(0x41),
        Piece::Byte(0x3a),
        Piece::Byte(0x20),
        Piece::Number,
        Piece::Byte(0x0a),
        Piece::Byte(0x52),
        Piece::Byte(0x65),
        Piece::Byte(0x67),
        Piece::Byte(0x69),
        Piece::Byte(0x73),
        Piece::Byte(0x74),
        Piece::Byte(0x65),
        Piece::Byte(0x72),
        Piece::Byte(0x20),
        Piece::Byte(0x42),
        Piece::Byte(0x3a),
        Piece::Byte(0x20),
        Piece::Number,
        Piece::Byte(0x0a),
        Piece::Byte(0x52),
        Piece::Byte(0x65),
        Piece::Byte(0x67),
        Piece::Byte(0x69),
        Piece::Byte(0x73),
        Piece::Byte(0x74),
        Piece::Byte(0x65),
        Piece::Byte(0x72),
        Piece::Byte(0x20),
        Piece::Byte(0x43),
        Piece::Byte(0x3a),
        Piece::Byte(0x20),
        Piece::Number,
    ]
}

/// The shape of an instruction: two numbers with a comma between them.
pub open spec fn pair_shape() -> Seq<Piece> {
    seq![Piece::Number, Piece::Byte(0x2c), Piece::Number]
}

/// The word that stands before a program.
pub open spec fn program_word() -> Seq<u8> {
    seq![0x50, 0x72, 0x6f, 0x67, 0x72, 0x61, 0x6d, 0x3a, 0x20]
}

/// What the registers hold, read at the first place in the block at which
/// the text has the shape.
pub open spec fn registers_of(text: Seq<u8>, from: int, to: int) -> Option<State> {
    let start = first_shape(text, from, to, register_shape());
    if start > to {
        None
    } else {
        match read(text, start, to, register_shape()) {
            Some((figures, after)) => if figures.len() == 3 && figures_fit(figures) {
                Some(State { A: figures[0].1 as u64, B: figures[1].1 as u64, C: figures[2].1 as u64 })
            } else {
                None
            },
            None => None,
        }
    }
}

/// The pairs of numbers in the text, each read at the first place after
/// the pair before it; none where a number is 8 or more.
pub open spec fn pairs_of(text: Seq<u8>, from: int, to: int) -> Option<Seq<(u8, u8)>>
    decreases to - from,
{
    let start = first_shape(text, from, to, pair_shape());
    if start > to || start < from {
        Some(Seq::empty())
    } else {
        match read(text, start, to, pair_shape()) {
            Some((figures, after)) => if figures.len() == 2 && figures[0].1 < 8 && figures[1].1 < 8
                && start < after <= to {
                match pairs_of(text, after, to) {
                    Some(rest) => Some(seq![(figures[0].1 as u8, figures[1].1 as u8)] + rest),
                    None => None,
                }
            } else {
                None
            },
            None => None,
        }
    }
}

/// The combo operand that a number below 7 stands for.
pub open spec fn combo_of(operand: u8) -> ComboOperand {
    if operand <= 3 {
        ComboOperand::Literal(operand)
    } else if operand == 4 {
        ComboOperand::A
    } else if operand == 5 {
        ComboOperand::B
    } else {
        ComboOperand::C
    }
}

/// The instruction that two numbers below 8 stand for.
pub open spec fn decoded(opcode: u8, operand: u8) -> Instruction {
    if opcode == 0 {
        Instruction::Adv(combo_of(operand))
    } else if opcode == 1 {
        Instruction::Bxl(operand)
    } else if opcode == 2 {
        Instruction::Bst(combo_of(operand))
    } else if opcode == 3 {
        Instruction::Jnz(operand / 2)
    } else if opcode == 4 {
        Instruction::Bxc
    } else if opcode == 5 {
        Instruction::Out(combo_of(operand))
    } else if opcode == 6 {
        Instruction::Bdv(combo_of(operand))
    } else {
        Instruction::Cdv(combo_of(operand))
    }
}

/// A pair can be decoded: no instruction but `Bxl`, `Jnz` and `Bxc` has 7
/// for its operand.
pub open spec fn decodable(pair: (u8, u8)) -> bool {
    pair.0 < 8 && pair.1 < 8 && (pair.1 == 7 ==> pair.0 == 1 || pair.0 == 3 || pair.0 == 4)
}

/// The instruction that two numbers stand for.
pub fn decode(opcode: u8, operand: u8) -> (instr: Instruction)
    requires
        decodable((opcode, operand)),
    ensures
        instr == decoded(opcode, operand),
{
    let combo = if operand <= 3 {
        ComboOperand::Literal(operand)
    } else if operand == 4 {
        ComboOperand::A
    } else if operand == 5 {
        ComboOperand::B
    } else {
        ComboOperand::C
    };
    match opcode {
        0 => Instruction::Adv(combo),
        1 => Instruction::Bxl(operand),
        2 => Instruction::Bst(combo),
        3 => Instruction::Jnz(operand / 2),
        4 => Instruction::Bxc,
        5 => Instruction::Out(combo),
        6 => Instruction::Bdv(combo),
        _ => Instruction::Cdv(combo),
    }
}

/// Reads the pairs of numbers in the text from `from` on and before `to`.
fn read_pairs(text: &[u8], from: usize, to: usize, pieces: &Vec<Piece>) -> (pairs: Option<
    Vec<(u8, u8)>,
>)
    requires
        from <= to <= text@.len(),
        to < usize::MAX,
        pieces@ == pair_shape(),
    ensures
        pairs is Some == pairs_of(text@, from as int, to as int) is Some,
        pairs matches Some(found) ==> found@ == pairs_of(text@, from as int, to as int)->0,
    decreases to - from,
{
    let (start, result) = find_shape(text, from, to, pieces);
    if start > to {
        return Some(Vec::new());
    }
    match result {
        Read::Found(numbers, after) => {
            if numbers.len() == 2 && numbers[0].1 < 8 && numbers[1].1 < 8 && start < after {
                let pair = (numbers[0].1 as u8, numbers[1].1 as u8);
                match read_pairs(text, after, to, pieces) {
                    Some(mut rest) => {
                        let ghost tail = rest@;
                        rest.insert(0, pair);
                        assert(rest@ =~= seq![pair] + tail);
                        Some(rest)
                    },
                    None => None,
                }
            } else {
                None
            }
        },
        _ => None,
    }
}

/// The text tells what the registers hold and, after an empty line and the
/// word `Program: `, the program: what it tells.
pub open spec fn program_text(text: Seq<u8>) -> Option<(State, Seq<(u8, u8)>)> {
    let end = block_end(text, 0);
    let from = end + 2;
    let to = block_end(text, from);
    if from > text.len() || to < from {
        None
    } else if !(to - from >= 9 && text.subrange(from, from + 9) == program_word()) {
        None
    } else {
        match (registers_of(text, 0, end), pairs_of(text, from, to)) {
            (Some(state), Some(pairs)) => if forall|i: int|
                0 <= i < pairs.len() ==> decodable(#[trigger] pairs[i]) {
                Some((state, pairs))
            } else {
                None
            },
            _ => None,
        }
    }
}

/// Reads what the registers hold and the program, as instructions and as
/// the numbers that stand for them. Nothing is read where the text has not
/// the shape of such a text.
pub fn read_program(text: &[u8]) -> (program: Option<(State, Vec<Instruction>, Vec<u8>)>)
    requires
        text@.len() < usize::MAX,
    ensures
        program is Some == program_text(text@) is Some,
        program matches Some(found) ==> {
            let told = program_text(text@)->0;
            &&& found.0 == told.0
            &&& found.1@.len() == told.1.len()
            &&& found.2@.len() == 2 * told.1.len()
            &&& forall|i: int|
                0 <= i < told.1.len() ==> #[trigger] found.1@[i] == decoded(told.1[i].0, told.1[i].1)
            &&& forall|i: int|
                0 <= i < told.1.len() ==> found.2@[2 * i] == (#[trigger] told.1[i]).0 && found.2@[2
                    * i + 1] == told.1[i].1
        },
{
    let end = find_block_end(text, 0);
    if text.len() - end < 2 {
        return None;
    }
    let from = end + 2;
    let to = find_block_end(text, from);
    let word: [u8; 9] = [0x50, 0x72, 0x6f, 0x67, 0x72, 0x61, 0x6d, 0x3a, 0x20];
    if to - from < 9 {
        return None;
    }
    let mut at: usize = 0;
    while at < 9
        invariant
            at <= 9,
            from + 9 <= to <= text@.len(),
            from == block_end(text@, 0) + 2,
            to == block_end(text@, from as int),
            word@ == program_word(),
            forall|i: int| 0 <= i < at ==> text@[from + i] == word@[i],
        decreases 9 - at,
    {
        if text[from + at] != word[at] {
            proof {
                let begins = text@.subrange(from as int, from + 9);
                assert(begins[at as int] == text@[from + at]);
                assert(begins[at as int] != program_word()[at as int]);
                assert(begins != program_word());
                assert(program_text(text@) is None);
            }
            return None;
        }
        at += 1;
    }
    assert(text@.subrange(from as int, from + 9) =~= program_word());
    let register_pieces = vec![
        Piece::Byte(0x52),
        Piece::Byte(0x65),
        Piece::Byte(0x67),
        Piece::Byte(0x69),
        Piece::Byte(0x73),
        Piece::Byte(0x74),
        Piece::Byte(0x65),
        Piece::Byte(0x72),
        Piece::Byte(0x20),
        Piece::Byte(0x41),
        Piece::Byte(0x3a),
        Piece::Byte(0x20),
        Piece::Number,
        Piece::Byte(0x0a),
        Piece::Byte(0x52),
        Piece::Byte(0x65),
        Piece::Byte(0x67),
        Piece::Byte(0x69),
        Piece::Byte(0x73),
        Piece::Byte(0x74),
        Piece::Byte(0x65),
        Piece::Byte(0x72),
        Piece::Byte(0x20),
        Piece::Byte(0x42),
        Piece::Byte(0x3a),
        Piece::Byte(0x20),
        Piece::Number,
        Piece::Byte(0x0a),
        Piece::Byte(0x52),
        Piece::Byte(0x65),
        Piece::Byte(0x67),
        Piece::Byte(0x69),
        Piece::Byte(0x73),
        Piece::Byte(0x74),
        Piece::Byte(0x65),
        Piece::Byte(0x72),
        Piece::Byte(0x20),
        Piece::Byte(0x43),
        Piece::Byte(0x3a),
        Piece::Byte(0x20),
        Piece::Number,
    ];
    assert(register_pieces@ =~= register_shape());
    let (start, result) = find_shape(text, 0, end, &register_pieces);
    let state = match result {
        Read::Found(numbers, after) => {
            if numbers.len() == 3 {
                State { A: numbers[0].1, B: numbers[1].1, C: numbers[2].1 }
            } else {
                return None;
            }
        },
        _ => {
            return None;
        },
    };
    let pair_pieces = vec![Piece::Number, Piece::Byte(0x2c), Piece::Number];
    assert(pair_pieces@ =~= pair_shape());
    let pairs = match read_pairs(text, from, to, &pair_pieces) {
        Some(pairs) => pairs,
        None => {
            return None;
        },
    };
    let mut instrs: Vec<Instruction> = Vec::new();
    let mut input_prog: Vec<u8> = Vec::new();
    let mut k: usize = 0;
    while k < pairs.len()
        invariant
            k <= pairs.len(),
            from == block_end(text@, 0) + 2,
            from <= text@.len(),
            to == block_end(text@, from as int),
            pairs_of(text@, from as int, to as int) is Some,
            pairs@ == pairs_of(text@, from as int, to as int)->0,
            instrs@.len() == k,
            input_prog@.len() == 2 * k,
            forall|i: int| 0 <= i < k ==> decodable(#[trigger] pairs@[i]),
            forall|i: int| 0 <= i < k ==> #[trigger] instrs@[i] == decoded(pairs@[i].0, pairs@[i].1),
            forall|i: int|
                0 <= i < k ==> input_prog@[2 * i] == (#[trigger] pairs@[i]).0 && input_prog@[2 * i
                    + 1] == pairs@[i].1,
        decreases pairs.len() - k,
    {
        let (opcode, operand) = pairs[k];
        if !(opcode < 8 && operand < 8 && (operand != 7 || opcode == 1 || opcode == 3 || opcode
            == 4)) {
            proof {
                let told = pairs_of(text@, from as int, to as int)->0;
                assert(!decodable(told[k as int]));
                assert(program_text(text@) is None);
            }
            return None;
        }
        input_prog.push(opcode);
        input_prog.push(operand);
        instrs.push(decode(opcode, operand));
        k += 1;
    }
    Some((state, instrs, input_prog))
}

} // verus!
