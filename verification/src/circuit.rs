//! A circuit of gates over wires. Wires are numbered; a table tells for
//! every wire which inputs of which gates it feeds, and another which gate
//! drives it.
//!
//! A circuit is run by passing values on from wire to gate until nothing
//! changes. `lemma_circuit_evaluated` and `lemma_circuit_settled` say what
//! the wires carry then: every gate whose two input wires carry values has
//! given its wire its operation on them.

use vstd::prelude::*;

verus! {

/// An input of a gate: the wire that feeds it, or, once that wire carries
/// one, its value.
#[derive(Clone, Copy, Debug, PartialEq, Eq, Structural)]
pub enum GateInput {
    Wire(usize),
    Value(bool),
}

impl GateInput {
    /// The wire that feeds the input.
    pub fn get_write_unchecked(&self) -> (wire: usize)
        requires
            self is Wire,
        ensures
            *self == GateInput::Wire(wire),
    {
        match self {
            GateInput::Wire(wire) => *wire,
            GateInput::Value(_) => vstd::pervasive::unreached(),
        }
    }
}

/// What a gate computes.
#[derive(Clone, Copy, PartialEq, Eq, Debug, Structural)]
pub enum Op {
    And,
    Or,
    Xor,
}

/// What the operation makes of two values.
pub open spec fn op_result(op: Op, a: bool, b: bool) -> bool {
    match op {
        Op::And => a && b,
        Op::Or => a || b,
        Op::Xor => a != b,
    }
}

/// The operation that a word names.
pub open spec fn op_named(word: Seq<u8>) -> Option<Op> {
    if word == seq![65u8, 78u8, 68u8] {
        Some(Op::And)
    } else if word == seq![79u8, 82u8] {
        Some(Op::Or)
    } else if word == seq![88u8, 79u8, 82u8] {
        Some(Op::Xor)
    } else {
        None
    }
}

impl Op {
    /// What the operation makes of two values.
    pub fn apply(self, a: bool, b: bool) -> (result: bool)
        ensures
            result == op_result(self, a, b),
    {
        match self {
            Self::And => a && b,
            Self::Or => a || b,
            Self::Xor => a != b,
        }
    }

    /// The operation that the word `AND`, `OR` or `XOR` names.
    pub fn try_from(value: &[u8]) -> (op: Option<Op>)
        ensures
            op == op_named(value@),
    {
        if value.len() == 3 && value[0] == 65 && value[1] == 78 && value[2] == 68 {
            assert(value@ =~= seq![65u8, 78u8, 68u8]);
            Some(Self::And)
        } else if value.len() == 2 && value[0] == 79 && value[1] == 82 {
            assert(value@ =~= seq![79u8, 82u8]);
            Some(Self::Or)
        } else if value.len() == 3 && value[0] == 88 && value[1] == 79 && value[2] == 82 {
            assert(value@ =~= seq![88u8, 79u8, 82u8]);
            Some(Self::Xor)
        } else {
            proof {
                let word = value@;
                if word == seq![65u8, 78u8, 68u8] {
                    assert(word[0] == 65 && word[1] == 78 && word[2] == 68);
                }
                if word == seq![79u8, 82u8] {
                    assert(word[0] == 79 && word[1] == 82);
                }
                if word == seq![88u8, 79u8, 82u8] {
                    assert(word[0] == 88 && word[1] == 79 && word[2] == 82);
                }
            }
            None
        }
    }
}

/// A gate: its two inputs, its operation and the wire that it drives.
pub type Gate = (GateInput, GateInput, Op, usize);

/// A gate with one of its inputs replaced.
pub open spec fn with_input(gate: Gate, input_idx: u8, input: GateInput) -> Gate {
    if input_idx == 0 {
        (input, gate.1, gate.2, gate.3)
    } else {
        (gate.0, input, gate.2, gate.3)
    }
}

/// The state of a circuit that is being run: the gates, the wires whose
/// values are still to be passed on, and the values that wires carry.
pub struct Running {
    pub gates: Seq<Gate>,
    pub queue: Seq<(usize, bool)>,
    pub wires: Seq<Option<bool>>,
}

/// The tables fit the circuit: every use names an input of a gate, and
/// every wire named is one of the wires.
pub open spec fn tables_fit(
    gates: Seq<Gate>,
    wire_usages: Seq<Vec<(usize, u8)>>,
    queue: Seq<(usize, bool)>,
) -> bool {
    &&& forall|w: int, k: int|
        0 <= w < wire_usages.len() && 0 <= k < wire_usages[w]@.len() ==> (
        #[trigger] wire_usages[w]@[k]).0 < gates.len() && wire_usages[w]@[k].1 < 2
    &&& forall|g: int| 0 <= g < gates.len() ==> (#[trigger] gates[g]).3 < wire_usages.len()
    &&& forall|i: int| 0 <= i < queue.len() ==> (#[trigger] queue[i]).0 < wire_usages.len()
}

/// What passing a value on to one use does: that input of its gate takes
/// the value; if both inputs of that gate then have values, the wire that
/// it drives takes the result and is put on the queue.
pub open spec fn feed(state: Running, usage: (usize, u8), value: bool) -> Running {
    let gate = with_input(state.gates[usage.0 as int], usage.1, GateInput::Value(value));
    let gates = state.gates.update(usage.0 as int, gate);
    match (gate.0, gate.1) {
        (GateInput::Value(a), GateInput::Value(b)) => Running {
            gates: gates,
            queue: state.queue.push((gate.3, op_result(gate.2, a, b))),
            wires: state.wires.update(gate.3 as int, Some(op_result(gate.2, a, b))),
        },
        _ => Running { gates: gates, ..state },
    }
}

/// What passing a value on to the first `upto` uses of a wire does.
pub open spec fn feed_all(state: Running, usages: Seq<(usize, u8)>, value: bool, upto: nat) -> Running
    decreases upto,
{
    if upto == 0 {
        state
    } else {
        feed(feed_all(state, usages, value, (upto - 1) as nat), usages[upto - 1], value)
    }
}

/// What taking the last wire off the queue does.
pub open spec fn settle_one(state: Running, wire_usages: Seq<Vec<(usize, u8)>>) -> Running {
    let (wire, value) = state.queue.last();
    let taken = Running {
        gates: state.gates,
        queue: state.queue.drop_last(),
        wires: state.wires.update(wire as int, Some(value)),
    };
    feed_all(taken, wire_usages[wire as int]@, value, wire_usages[wire as int]@.len())
}

/// The values of the wires once the queue is empty, where that happens
/// within `steps` steps.
pub open spec fn settle(state: Running, wire_usages: Seq<Vec<(usize, u8)>>, steps: nat) -> Option<
    Seq<Option<bool>>,
>
    decreases steps,
{
    if state.queue.len() == 0 {
        Some(state.wires)
    } else if steps == 0 {
        None
    } else {
        settle(settle_one(state, wire_usages), wire_usages, (steps - 1) as nat)
    }
}

/// The number that the values of the output wires spell, the first wire
/// giving the highest bit; bits above the 64th are lost.
pub open spec fn spelled_bits(wires: Seq<Option<bool>>, outputs: Seq<usize>) -> u64
    decreases outputs.len(),
{
    if outputs.len() == 0 {
        0
    } else {
        (spelled_bits(wires, outputs.drop_last()) << 1) | (if wires[outputs.last() as int]
            == Some(true) {
            1u64
        } else {
            0u64
        })
    }
}

/// The state in which a circuit starts to run.
pub open spec fn starting(
    gates: Seq<Gate>,
    initial_values: Seq<(usize, bool)>,
    wire_usages: Seq<Vec<(usize, u8)>>,
) -> Running {
    Running {
        gates: gates,
        queue: initial_values,
        wires: Seq::new(wire_usages.len(), |w: int| None::<bool>),
    }
}

/// The circuit comes to rest, with a value on every output wire.
pub open spec fn comes_to_rest(
    start: Running,
    wire_usages: Seq<Vec<(usize, u8)>>,
    outputs: Seq<usize>,
) -> bool {
    exists|steps: nat|
        (#[trigger] settle(start, wire_usages, steps)) matches Some(wires) && forall|i: int|
            0 <= i < outputs.len() ==> (#[trigger] outputs[i]) < wires.len()
                && wires[outputs[i] as int] is Some
}

/// The values of the wires when the circuit has come to rest.
pub open spec fn at_rest(start: Running, wire_usages: Seq<Vec<(usize, u8)>>) -> Seq<Option<bool>> {
    settle(start, wire_usages, choose|steps: nat| settle(start, wire_usages, steps) is Some)->0
}

/// A circuit that has come to rest stays as it is.
pub proof fn lemma_settle_more(
    state: Running,
    wire_usages: Seq<Vec<(usize, u8)>>,
    fewer: nat,
    more: nat,
)
    requires
        settle(state, wire_usages, fewer) is Some,
        fewer <= more,
    ensures
        settle(state, wire_usages, more) == settle(state, wire_usages, fewer),
    decreases fewer,
{
    if state.queue.len() > 0 {
        lemma_settle_more(
            settle_one(state, wire_usages),
            wire_usages,
            (fewer - 1) as nat,
            (more - 1) as nat,
        );
    }
}

/// Feeding a value to a use keeps the tables fitting and the number of
/// wires.
pub proof fn lemma_feed_fits(
    state: Running,
    wire_usages: Seq<Vec<(usize, u8)>>,
    usages: Seq<(usize, u8)>,
    value: bool,
    upto: nat,
)
    requires
        tables_fit(state.gates, wire_usages, state.queue),
        state.wires.len() == wire_usages.len(),
        upto <= usages.len(),
        forall|k: int| 0 <= k < usages.len() ==> (#[trigger] usages[k]).0 < state.gates.len(),
    ensures
        tables_fit(
            feed_all(state, usages, value, upto).gates,
            wire_usages,
            feed_all(state, usages, value, upto).queue,
        ),
        feed_all(state, usages, value, upto).wires.len() == wire_usages.len(),
        feed_all(state, usages, value, upto).gates.len() == state.gates.len(),
    decreases upto,
{
    if upto > 0 {
        lemma_feed_fits(state, wire_usages, usages, value, (upto - 1) as nat);
        let before = feed_all(state, usages, value, (upto - 1) as nat);
        let usage = usages[upto - 1];
        let after = feed(before, usage, value);
        assert(before.gates[usage.0 as int].3 < wire_usages.len());
        assert forall|g: int| 0 <= g < after.gates.len() implies (#[trigger] after.gates[g]).3
            < wire_usages.len() by {
            assert(before.gates[g].3 < wire_usages.len());
        }
        assert forall|i: int| 0 <= i < after.queue.len() implies (#[trigger] after.queue[i]).0
            < wire_usages.len() by {
            if i < before.queue.len() {
                assert(after.queue[i] == before.queue[i]);
            }
        }
    }
}

/// Runs the circuit: the initial values are passed on from wire to gate
/// and from gate to wire until nothing changes any more. Returns the
/// number that the output wires then spell.
pub fn run_circuit(
    gates: Vec<Gate>,
    initial_values: &Vec<(usize, bool)>,
    wire_usages: &Vec<Vec<(usize, u8)>>,
    outputs: &Vec<usize>,
) -> (output_val: u64)
    requires
        tables_fit(gates@, wire_usages@, initial_values@),
        comes_to_rest(starting(gates@, initial_values@, wire_usages@), wire_usages@, outputs@),
    ensures
        output_val == spelled_bits(
            at_rest(starting(gates@, initial_values@, wire_usages@), wire_usages@),
            outputs@,
        ),
{
    let ghost start = starting(gates@, initial_values@, wire_usages@);
    let ghost total = choose|steps: nat| settle(start, wire_usages@, steps) is Some;
    let ghost witness = choose|steps: nat|
        (#[trigger] settle(start, wire_usages@, steps)) matches Some(wires) && forall|i: int|
            0 <= i < outputs@.len() ==> (#[trigger] outputs@[i]) < wires.len()
                && wires[outputs@[i] as int] is Some;
    proof {
        if witness <= total {
            lemma_settle_more(start, wire_usages@, witness, total);
        } else {
            lemma_settle_more(start, wire_usages@, total, witness);
        }
    }
    let ghost mut steps = total;
    let mut gates = gates;
    let mut work_queue: Vec<(usize, bool)> = Vec::new();
    let mut k: usize = 0;
    while k < initial_values.len()
        invariant
            k <= initial_values.len(),
            work_queue@ == initial_values@.take(k as int),
        decreases initial_values.len() - k,
    {
        work_queue.push(initial_values[k]);
        k += 1;
        proof {
            assert(work_queue@ =~= initial_values@.take(k as int));
        }
    }
    proof {
        assert(initial_values@.take(k as int) =~= initial_values@);
    }

    let mut wires: Vec<Option<bool>> = Vec::new();
    let mut w: usize = 0;
    while w < wire_usages.len()
        invariant
            w <= wire_usages.len(),
            wires@.len() == w,
            forall|i: int| 0 <= i < w ==> (#[trigger] wires@[i]) is None,
        decreases wire_usages.len() - w,
    {
        wires.push(None);
        w += 1;
    }
    proof {
        assert(wires@ =~= start.wires);
    }

    while work_queue.len() > 0
        invariant
            tables_fit(gates@, wire_usages@, work_queue@),
            wires@.len() == wire_usages@.len(),
            settle(
                (Running { gates: gates@, queue: work_queue@, wires: wires@ }),
                wire_usages@,
                steps,
            ) == settle(start, wire_usages@, total),
            settle(start, wire_usages@, total) is Some,
        decreases steps,
    {
        let ghost state = Running { gates: gates@, queue: work_queue@, wires: wires@ };
        let (wire, value) = work_queue.pop().unwrap();
        assert(state.queue[state.queue.len() - 1].0 < wire_usages@.len());
        wires[wire] = Some(value);
        let usages = &wire_usages[wire];
        let ghost taken = Running { gates: gates@, queue: work_queue@, wires: wires@ };
        proof {
            assert forall|i: int| 0 <= i < taken.queue.len() implies (#[trigger] taken.queue[i]).0
                < wire_usages@.len() by {
                assert(taken.queue[i] == state.queue[i]);
            }
        }

        let mut u: usize = 0;
        while u < usages.len()
            invariant
                u <= usages.len(),
                *usages == wire_usages@[wire as int],
                wire < wire_usages@.len(),
                tables_fit(taken.gates, wire_usages@, taken.queue),
                taken.wires.len() == wire_usages@.len(),
                (Running { gates: gates@, queue: work_queue@, wires: wires@ }) == feed_all(
                    taken,
                    usages@,
                    value,
                    u as nat,
                ),
            decreases usages.len() - u,
        {
            let (usage_idx, input_idx) = usages[u];
            proof {
                assert(wire_usages@[wire as int]@[u as int].0 < taken.gates.len());
                lemma_feed_fits(taken, wire_usages@, usages@, value, u as nat);
                lemma_feed_fits(taken, wire_usages@, usages@, value, (u + 1) as nat);
            }
            let mut gate = gates[usage_idx];
            if input_idx == 0 {
                gate.0 = GateInput::Value(value);
            } else {
                gate.1 = GateInput::Value(value);
            }
            gates[usage_idx] = gate;

            match (gate.0, gate.1) {
                (GateInput::Value(a), GateInput::Value(b)) => {
                    let result = gate.2.apply(a, b);
                    wires[gate.3] = Some(result);
                    work_queue.push((gate.3, result));
                },
                _ => (),
            }
            u += 1;
        }
        proof {
            steps = (steps - 1) as nat;
            lemma_feed_fits(taken, wire_usages@, usages@, value, usages@.len());
        }
    }

    let ghost rest = wires@;
    let mut output_val = 0u64;
    let mut o: usize = 0;
    proof {
        assert(outputs@.take(0) =~= Seq::<usize>::empty());
    }
    while o < outputs.len()
        invariant
            o <= outputs.len(),
            rest == wires@,
            forall|i: int|
                0 <= i < outputs@.len() ==> (#[trigger] outputs@[i]) < rest.len()
                    && rest[outputs@[i] as int] is Some,
            output_val == spelled_bits(rest, outputs@.take(o as int)),
        decreases outputs.len() - o,
    {
        let output = outputs[o];
        proof {
            let next = outputs@.take(o + 1);
            assert(next.drop_last() =~= outputs@.take(o as int));
            assert(next.last() == output);
        }
        let bit: u64 = if wires[output].unwrap() {
            1
        } else {
            0
        };
        output_val = (output_val << 1) | bit;
        o += 1;
    }
    proof {
        assert(outputs@.take(o as int) =~= outputs@);
    }

    output_val
}

/// One of the two inputs of a gate.
pub open spec fn input_of(gate: Gate, idx: int) -> GateInput {
    if idx == 0 {
        gate.0
    } else {
        gate.1
    }
}

/// The circuit is well made: the tables fit it; every input of a gate is a
/// wire of the circuit; every use in the table of a wire names an input
/// that the wire feeds; and every wire is driven once at most.
pub open spec fn well_made(
    gates: Seq<Gate>,
    initial_values: Seq<(usize, bool)>,
    wire_usages: Seq<Vec<(usize, u8)>>,
) -> bool {
    &&& tables_fit(gates, wire_usages, initial_values)
    &&& all_wired(gates)
    &&& forall|g: int|
        0 <= g < gates.len() ==> wire_of((#[trigger] gates[g]).0) < wire_usages.len() && wire_of(
            gates[g].1,
        ) < wire_usages.len()
    &&& forall|w: int, k: int|
        0 <= w < wire_usages.len() && 0 <= k < wire_usages[w]@.len() ==> input_of(
            gates[(#[trigger] wire_usages[w]@[k]).0 as int],
            wire_usages[w]@[k].1 as int,
        ) == GateInput::Wire(w as usize)
    &&& driven_once(gates, initial_values)
}

/// No two gates drive one wire, no gate drives a wire that is given a
/// value at the start, and no wire is given two values.
pub open spec fn driven_once(gates: Seq<Gate>, initial_values: Seq<(usize, bool)>) -> bool {
    &&& forall|g: int, h: int|
        0 <= g < gates.len() && 0 <= h < gates.len() && g != h ==> (#[trigger] gates[g]).3 != (
        #[trigger] gates[h]).3
    &&& forall|g: int, i: int|
        0 <= g < gates.len() && 0 <= i < initial_values.len() ==> (#[trigger] gates[g]).3 != (
        #[trigger] initial_values[i]).0
    &&& forall|i: int, j: int|
        0 <= i < initial_values.len() && 0 <= j < initial_values.len() && (
        #[trigger] initial_values[i]).0 == (#[trigger] initial_values[j]).0
            ==> initial_values[i].1 == initial_values[j].1
}

/// The wire is given the value at the start.
pub open spec fn given(initial_values: Seq<(usize, bool)>, wire: usize, value: bool) -> bool {
    exists|i: int| 0 <= i < initial_values.len() && #[trigger] initial_values[i] == (wire, value)
}

/// This gate drives the wire, both of its inputs have values, and the
/// value is its operation on them.
pub open spec fn fired(gate: Gate, wire: usize, value: bool) -> bool {
    &&& gate.3 == wire
    &&& gate.0 is Value
    &&& gate.1 is Value
    &&& value == op_result(gate.2, gate.0->Value_0, gate.1->Value_0)
}

/// The value is one that the wire was given at the start, or that a gate
/// gives it.
pub open spec fn justified(
    initial_values: Seq<(usize, bool)>,
    gates: Seq<Gate>,
    wire: usize,
    value: bool,
) -> bool {
    given(initial_values, wire, value) || exists|g: int|
        0 <= g < gates.len() && fired(#[trigger] gates[g], wire, value)
}

/// An input of a running gate is as it was made, or holds the value that
/// its wire carries.
pub open spec fn input_runs(made: GateInput, now: GateInput, wires: Seq<Option<bool>>) -> bool {
    match now {
        GateInput::Wire(w) => made == GateInput::Wire(w),
        GateInput::Value(v) => wires[wire_of(made) as int] == Some(v),
    }
}

/// A running gate has the operation and the wire that it was made with,
/// and its inputs are as `input_runs` says.
pub open spec fn gate_runs(made: Gate, now: Gate, wires: Seq<Option<bool>>) -> bool {
    &&& now.2 == made.2
    &&& now.3 == made.3
    &&& input_runs(made.0, now.0, wires)
    &&& input_runs(made.1, now.1, wires)
}

/// How a circuit stands while it runs: its gates are as `gate_runs` says,
/// and every value on a wire or on the queue is justified.
#[verifier::opaque]
pub open spec fn running(
    made: Seq<Gate>,
    initial_values: Seq<(usize, bool)>,
    wire_usages: Seq<Vec<(usize, u8)>>,
    state: Running,
) -> bool {
    &&& state.gates.len() == made.len()
    &&& state.wires.len() == wire_usages.len()
    &&& forall|g: int|
        0 <= g < made.len() ==> gate_runs(made[g], #[trigger] state.gates[g], state.wires)
    &&& forall|o: int|
        0 <= o < state.wires.len() && (#[trigger] state.wires[o]) is Some ==> justified(
            initial_values,
            state.gates,
            o as usize,
            state.wires[o]->0,
        )
    &&& forall|q: int|
        0 <= q < state.queue.len() ==> justified(
            initial_values,
            state.gates,
            (#[trigger] state.queue[q]).0,
            state.queue[q].1,
        )
}

/// A wire of a running circuit has one justified value at most.
pub proof fn lemma_running_one_value(
    made: Seq<Gate>,
    initial_values: Seq<(usize, bool)>,
    wire_usages: Seq<Vec<(usize, u8)>>,
    state: Running,
    wire: usize,
    a: bool,
    b: bool,
)
    requires
        well_made(made, initial_values, wire_usages),
        running(made, initial_values, wire_usages, state),
        justified(initial_values, state.gates, wire, a),
        justified(initial_values, state.gates, wire, b),
    ensures
        a == b,
{
    reveal(running);
    assert forall|g: int| 0 <= g < made.len() implies (#[trigger] state.gates[g]).3 == made[g].3 by {
        assert(gate_runs(made[g], state.gates[g], state.wires));
    }
    lemma_one_justified_value(made, initial_values, wire_usages, state.gates, wire, a, b);
}

/// A circuit stands as `running` says when it starts.
pub proof fn lemma_running_starts(
    made: Seq<Gate>,
    initial_values: Seq<(usize, bool)>,
    wire_usages: Seq<Vec<(usize, u8)>>,
)
    requires
        well_made(made, initial_values, wire_usages),
    ensures
        running(made, initial_values, wire_usages, starting(made, initial_values, wire_usages)),
{
    reveal(running);
    let state = starting(made, initial_values, wire_usages);
    assert forall|g: int| 0 <= g < made.len() implies gate_runs(
        made[g],
        #[trigger] state.gates[g],
        state.wires,
    ) by {
        assert(made[g].0 is Wire && made[g].1 is Wire);
    }
    assert forall|q: int| 0 <= q < state.queue.len() implies justified(
        initial_values,
        state.gates,
        (#[trigger] state.queue[q]).0,
        state.queue[q].1,
    ) by {
        assert(initial_values[q] == (state.queue[q].0, state.queue[q].1));
    }
}

/// Taking a wire off the queue and giving it its value keeps the circuit
/// as `running` says.
pub proof fn lemma_running_taken(
    made: Seq<Gate>,
    initial_values: Seq<(usize, bool)>,
    wire_usages: Seq<Vec<(usize, u8)>>,
    state: Running,
)
    requires
        well_made(made, initial_values, wire_usages),
        running(made, initial_values, wire_usages, state),
        state.queue.len() > 0,
        state.queue.last().0 < wire_usages.len(),
    ensures
        running(
            made,
            initial_values,
            wire_usages,
            (Running {
                gates: state.gates,
                queue: state.queue.drop_last(),
                wires: state.wires.update(state.queue.last().0 as int, Some(state.queue.last().1)),
            }),
        ),
{
    let (wire, value) = state.queue.last();
    let taken = Running {
        gates: state.gates,
        queue: state.queue.drop_last(),
        wires: state.wires.update(wire as int, Some(value)),
    };
    assert(justified(initial_values, state.gates, wire, value)) by {
        reveal(running);
        assert(state.queue[state.queue.len() - 1] == state.queue.last());
    }
    if state.wires[wire as int] is Some {
        assert(justified(initial_values, state.gates, wire, state.wires[wire as int]->0)) by {
            reveal(running);
        }
        lemma_running_one_value(
            made,
            initial_values,
            wire_usages,
            state,
            wire,
            value,
            state.wires[wire as int]->0,
        );
    }
    reveal(running);
    assert forall|g: int| 0 <= g < made.len() implies gate_runs(
        made[g],
        #[trigger] taken.gates[g],
        taken.wires,
    ) by {
        assert(gate_runs(made[g], state.gates[g], state.wires));
        assert(wire_of(made[g].0) < wire_usages.len() && wire_of(made[g].1) < wire_usages.len());
    }
    assert forall|o: int| 0 <= o < taken.wires.len() && (#[trigger] taken.wires[o]) is Some implies justified(
        initial_values,
        taken.gates,
        o as usize,
        taken.wires[o]->0,
    ) by {
        if o != wire {
            assert(state.wires[o] is Some);
        }
    }
    assert forall|q: int| 0 <= q < taken.queue.len() implies justified(
        initial_values,
        taken.gates,
        (#[trigger] taken.queue[q]).0,
        taken.queue[q].1,
    ) by {
        assert(taken.queue[q] == state.queue[q]);
    }
}

/// An input that has its value already takes the same value again.
pub proof fn lemma_fed_again(
    made: Seq<Gate>,
    initial_values: Seq<(usize, bool)>,
    wire_usages: Seq<Vec<(usize, u8)>>,
    state: Running,
    usage: (usize, u8),
    wire: usize,
    value: bool,
)
    requires
        well_made(made, initial_values, wire_usages),
        running(made, initial_values, wire_usages, state),
        usage.0 < made.len(),
        usage.1 < 2,
        input_of(made[usage.0 as int], usage.1 as int) == GateInput::Wire(wire),
        wire < wire_usages.len(),
        state.wires[wire as int] == Some(value),
    ensures
        input_of(state.gates[usage.0 as int], usage.1 as int) is Value ==> with_input(
            state.gates[usage.0 as int],
            usage.1,
            GateInput::Value(value),
        ) == state.gates[usage.0 as int],
        gate_runs(
            made[usage.0 as int],
            with_input(state.gates[usage.0 as int], usage.1, GateInput::Value(value)),
            state.wires,
        ),
{
    reveal(running);
    let g = usage.0 as int;
    assert(gate_runs(made[g], state.gates[g], state.wires));
}

/// A justified value stays justified when an input is fed.
pub proof fn lemma_fed_justified(
    made: Seq<Gate>,
    initial_values: Seq<(usize, bool)>,
    wire_usages: Seq<Vec<(usize, u8)>>,
    state: Running,
    usage: (usize, u8),
    wire: usize,
    value: bool,
    other: usize,
    carried: bool,
)
    requires
        well_made(made, initial_values, wire_usages),
        running(made, initial_values, wire_usages, state),
        usage.0 < made.len(),
        usage.1 < 2,
        input_of(made[usage.0 as int], usage.1 as int) == GateInput::Wire(wire),
        wire < wire_usages.len(),
        state.wires[wire as int] == Some(value),
        justified(initial_values, state.gates, other, carried),
    ensures
        justified(initial_values, feed(state, usage, value).gates, other, carried),
{
    let g = usage.0 as int;
    let after = feed(state, usage, value).gates;
    assert(state.gates.len() == made.len()) by {
        reveal(running);
    }
    assert(after == state.gates.update(g, with_input(state.gates[g], usage.1, GateInput::Value(value))));
    if !given(initial_values, other, carried) {
        let h = choose|h: int| 0 <= h < state.gates.len() && fired(#[trigger] state.gates[h], other, carried);
        lemma_fed_again(made, initial_values, wire_usages, state, usage, wire, value);
        assert(after[h] == state.gates[h]);
        assert(fired(after[h], other, carried));
    }
}

/// Feeding the value of a wire to an input that the wire feeds keeps the
/// circuit as `running` says, and the wire its value.
pub proof fn lemma_running_fed(
    made: Seq<Gate>,
    initial_values: Seq<(usize, bool)>,
    wire_usages: Seq<Vec<(usize, u8)>>,
    state: Running,
    usage: (usize, u8),
    wire: usize,
    value: bool,
)
    requires
        well_made(made, initial_values, wire_usages),
        running(made, initial_values, wire_usages, state),
        usage.0 < made.len(),
        usage.1 < 2,
        input_of(made[usage.0 as int], usage.1 as int) == GateInput::Wire(wire),
        wire < wire_usages.len(),
        state.wires[wire as int] == Some(value),
    ensures
        running(made, initial_values, wire_usages, feed(state, usage, value)),
        feed(state, usage, value).wires[wire as int] == Some(value),
{
    let g = usage.0 as int;
    let fed = feed(state, usage, value);
    let gate = with_input(state.gates[g], usage.1, GateInput::Value(value));
    lemma_fed_again(made, initial_values, wire_usages, state, usage, wire, value);
    assert(state.gates.len() == made.len() && state.wires.len() == wire_usages.len()) by {
        reveal(running);
    }
    assert(fed.gates == state.gates.update(g, gate));
    assert(fed.gates[g] == gate);
    assert(gate.3 == made[g].3 && gate.3 < wire_usages.len());
    let fires = gate.0 is Value && gate.1 is Value;
    let result = op_result(gate.2, gate.0->Value_0, gate.1->Value_0);
    if fires {
        assert(fired(fed.gates[g], gate.3, result));
        assert(justified(initial_values, fed.gates, gate.3, result));
        if state.wires[gate.3 as int] is Some {
            let before = state.wires[gate.3 as int]->0;
            assert(justified(initial_values, state.gates, gate.3, before)) by {
                reveal(running);
            }
            lemma_fed_justified(
                made,
                initial_values,
                wire_usages,
                state,
                usage,
                wire,
                value,
                gate.3,
                before,
            );
            assert forall|h: int| 0 <= h < made.len() implies (#[trigger] fed.gates[h]).3
                == made[h].3 by {
                if h != g {
                    assert(fed.gates[h] == state.gates[h]);
                    assert(gate_runs(made[h], state.gates[h], state.wires)) by {
                        reveal(running);
                    }
                }
            }
            lemma_one_justified_value(made, initial_values, wire_usages, fed.gates, gate.3, before, result);
        }
        assert(fed.wires == state.wires.update(gate.3 as int, Some(result)));
        assert(fed.queue == state.queue.push((gate.3, result)));
    } else {
        assert(fed.wires == state.wires);
        assert(fed.queue == state.queue);
    }
    assert forall|o: int| 0 <= o < state.wires.len() && state.wires[o] is Some implies fed.wires[o]
        == state.wires[o] by {}
    assert forall|h: int| 0 <= h < made.len() implies gate_runs(
        made[h],
        #[trigger] fed.gates[h],
        fed.wires,
    ) by {
        assert(wire_of(made[h].0) < wire_usages.len() && wire_of(made[h].1) < wire_usages.len());
        if h == g {
            assert(gate_runs(made[g], gate, state.wires));
        } else {
            assert(fed.gates[h] == state.gates[h]);
            assert(gate_runs(made[h], state.gates[h], state.wires)) by {
                reveal(running);
            }
        }
    }
    assert forall|o: int| 0 <= o < fed.wires.len() && (#[trigger] fed.wires[o]) is Some implies justified(
        initial_values,
        fed.gates,
        o as usize,
        fed.wires[o]->0,
    ) by {
        if state.wires[o] is Some {
            assert(justified(initial_values, state.gates, o as usize, state.wires[o]->0)) by {
                reveal(running);
            }
            lemma_fed_justified(
                made,
                initial_values,
                wire_usages,
                state,
                usage,
                wire,
                value,
                o as usize,
                state.wires[o]->0,
            );
        }
    }
    assert forall|q: int| 0 <= q < fed.queue.len() implies justified(
        initial_values,
        fed.gates,
        (#[trigger] fed.queue[q]).0,
        fed.queue[q].1,
    ) by {
        if q < state.queue.len() {
            assert(fed.queue[q] == state.queue[q]);
            assert(justified(initial_values, state.gates, state.queue[q].0, state.queue[q].1)) by {
                reveal(running);
            }
            lemma_fed_justified(
                made,
                initial_values,
                wire_usages,
                state,
                usage,
                wire,
                value,
                state.queue[q].0,
                state.queue[q].1,
            );
        }
    }
    reveal(running);
}

/// A wire has one justified value at most, where the gates drive the wires
/// that they were made with.
pub proof fn lemma_one_justified_value(
    made: Seq<Gate>,
    initial_values: Seq<(usize, bool)>,
    wire_usages: Seq<Vec<(usize, u8)>>,
    gates: Seq<Gate>,
    wire: usize,
    a: bool,
    b: bool,
)
    requires
        well_made(made, initial_values, wire_usages),
        gates.len() == made.len(),
        forall|g: int| 0 <= g < made.len() ==> (#[trigger] gates[g]).3 == made[g].3,
        justified(initial_values, gates, wire, a),
        justified(initial_values, gates, wire, b),
    ensures
        a == b,
{
    if given(initial_values, wire, a) {
        let i = choose|i: int| 0 <= i < initial_values.len() && #[trigger] initial_values[i] == (wire, a);
        if given(initial_values, wire, b) {
            let j = choose|j: int|
                0 <= j < initial_values.len() && #[trigger] initial_values[j] == (wire, b);
            assert(initial_values[i].0 == initial_values[j].0);
        } else {
            let h = choose|h: int| 0 <= h < gates.len() && fired(#[trigger] gates[h], wire, b);
            assert(made[h].3 != initial_values[i].0);
        }
    } else {
        let g = choose|g: int| 0 <= g < gates.len() && fired(#[trigger] gates[g], wire, a);
        if given(initial_values, wire, b) {
            let j = choose|j: int|
                0 <= j < initial_values.len() && #[trigger] initial_values[j] == (wire, b);
            assert(made[g].3 != initial_values[j].0);
        } else {
            let h = choose|h: int| 0 <= h < gates.len() && fired(#[trigger] gates[h], wire, b);
            if g != h {
                assert(made[g].3 != made[h].3);
            }
        }
    }
}

/// Feeding the value of a wire to the first `upto` of its uses keeps the
/// circuit as `running` says, and the wire its value.
pub proof fn lemma_running_fed_all(
    made: Seq<Gate>,
    initial_values: Seq<(usize, bool)>,
    wire_usages: Seq<Vec<(usize, u8)>>,
    state: Running,
    wire: usize,
    value: bool,
    upto: nat,
)
    requires
        well_made(made, initial_values, wire_usages),
        running(made, initial_values, wire_usages, state),
        wire < wire_usages.len(),
        state.wires[wire as int] == Some(value),
        upto <= wire_usages[wire as int]@.len(),
    ensures
        running(
            made,
            initial_values,
            wire_usages,
            feed_all(state, wire_usages[wire as int]@, value, upto),
        ),
        feed_all(state, wire_usages[wire as int]@, value, upto).wires[wire as int] == Some(value),
    decreases upto,
{
    if upto > 0 {
        let usages = wire_usages[wire as int]@;
        lemma_running_fed_all(made, initial_values, wire_usages, state, wire, value, (upto - 1) as nat);
        let before = feed_all(state, usages, value, (upto - 1) as nat);
        let usage = wire_usages[wire as int]@[upto - 1];
        assert(usage.0 < made.len() && usage.1 < 2);
        assert(input_of(made[usage.0 as int], usage.1 as int) == GateInput::Wire(wire));
        lemma_running_fed(made, initial_values, wire_usages, before, usage, wire, value);
    }
}

/// A wire with a justified value is a wire of the circuit.
pub proof fn lemma_justified_wire(
    made: Seq<Gate>,
    initial_values: Seq<(usize, bool)>,
    wire_usages: Seq<Vec<(usize, u8)>>,
    state: Running,
    wire: usize,
    value: bool,
)
    requires
        well_made(made, initial_values, wire_usages),
        running(made, initial_values, wire_usages, state),
        justified(initial_values, state.gates, wire, value),
    ensures
        wire < wire_usages.len(),
{
    reveal(running);
    if given(initial_values, wire, value) {
        let i = choose|i: int|
            0 <= i < initial_values.len() && #[trigger] initial_values[i] == (wire, value);
        assert(initial_values[i].0 < wire_usages.len());
    } else {
        let g = choose|g: int| 0 <= g < state.gates.len() && fired(#[trigger] state.gates[g], wire, value);
        assert(gate_runs(made[g], state.gates[g], state.wires));
        assert(made[g].3 < wire_usages.len());
    }
}

/// Every wire that a gate drives and that carries a value carries that
/// gate's operation on the values of its two input wires, and every wire
/// that was given a value at the start and carries one carries that.
pub open spec fn evaluated(
    made: Seq<Gate>,
    initial_values: Seq<(usize, bool)>,
    wires: Seq<Option<bool>>,
) -> bool {
    &&& forall|g: int|
        0 <= g < made.len() && wires[(#[trigger] made[g]).3 as int] is Some ==> {
            &&& wires[wire_of(made[g].0) as int] is Some
            &&& wires[wire_of(made[g].1) as int] is Some
            &&& wires[made[g].3 as int] == Some(
                op_result(
                    made[g].2,
                    wires[wire_of(made[g].0) as int]->0,
                    wires[wire_of(made[g].1) as int]->0,
                ),
            )
        }
    &&& forall|i: int|
        0 <= i < initial_values.len() && wires[(#[trigger] initial_values[i]).0 as int] is Some
            ==> wires[initial_values[i].0 as int] == Some(initial_values[i].1)
}

/// The wires of a circuit that stands as `running` says are evaluated.
pub proof fn lemma_running_evaluated(
    made: Seq<Gate>,
    initial_values: Seq<(usize, bool)>,
    wire_usages: Seq<Vec<(usize, u8)>>,
    state: Running,
)
    requires
        well_made(made, initial_values, wire_usages),
        running(made, initial_values, wire_usages, state),
    ensures
        evaluated(made, initial_values, state.wires),
{
    reveal(running);
    let wires = state.wires;
    assert forall|g: int| 0 <= g < made.len() implies (#[trigger] state.gates[g]).3 == made[g].3 by {
        assert(gate_runs(made[g], state.gates[g], state.wires));
    }
    assert forall|g: int| 0 <= g < made.len() && wires[(#[trigger] made[g]).3 as int] is Some implies {
        &&& wires[wire_of(made[g].0) as int] is Some
        &&& wires[wire_of(made[g].1) as int] is Some
        &&& wires[made[g].3 as int] == Some(
            op_result(
                made[g].2,
                wires[wire_of(made[g].0) as int]->0,
                wires[wire_of(made[g].1) as int]->0,
            ),
        )
    } by {
        let out = made[g].3;
        let value = wires[out as int]->0;
        assert(out < wire_usages.len());
        assert(justified(initial_values, state.gates, out, value));
        if given(initial_values, out, value) {
            let i = choose|i: int|
                0 <= i < initial_values.len() && #[trigger] initial_values[i] == (out, value);
            assert(made[g].3 != initial_values[i].0);
        }
        let h = choose|h: int| 0 <= h < state.gates.len() && fired(#[trigger] state.gates[h], out, value);
        if h != g {
            assert(made[g].3 != made[h].3);
        }
        assert(gate_runs(made[g], state.gates[g], state.wires));
    }
    assert forall|i: int|
        0 <= i < initial_values.len() && wires[(#[trigger] initial_values[i]).0 as int]
            is Some implies wires[initial_values[i].0 as int] == Some(initial_values[i].1) by {
        let wire = initial_values[i].0;
        assert(wire < wire_usages.len());
        assert(justified(initial_values, state.gates, wire, wires[wire as int]->0));
        assert(given(initial_values, wire, initial_values[i].1));
        lemma_one_justified_value(
            made,
            initial_values,
            wire_usages,
            state.gates,
            wire,
            wires[wire as int]->0,
            initial_values[i].1,
        );
    }
}

/// A circuit that stands as `running` says and comes to rest has its wires
/// evaluated.
pub proof fn lemma_running_settles(
    made: Seq<Gate>,
    initial_values: Seq<(usize, bool)>,
    wire_usages: Seq<Vec<(usize, u8)>>,
    state: Running,
    steps: nat,
)
    requires
        well_made(made, initial_values, wire_usages),
        running(made, initial_values, wire_usages, state),
        settle(state, wire_usages, steps) is Some,
    ensures
        evaluated(made, initial_values, settle(state, wire_usages, steps)->0),
    decreases steps,
{
    if state.queue.len() == 0 {
        lemma_running_evaluated(made, initial_values, wire_usages, state);
    } else {
        let (wire, value) = state.queue.last();
        assert(justified(initial_values, state.gates, wire, value)) by {
            reveal(running);
            assert(state.queue[state.queue.len() - 1] == state.queue.last());
        }
        lemma_justified_wire(made, initial_values, wire_usages, state, wire, value);
        lemma_running_taken(made, initial_values, wire_usages, state);
        let taken = Running {
            gates: state.gates,
            queue: state.queue.drop_last(),
            wires: state.wires.update(wire as int, Some(value)),
        };
        assert(state.wires.len() == wire_usages.len()) by {
            reveal(running);
        }
        lemma_running_fed_all(
            made,
            initial_values,
            wire_usages,
            taken,
            wire,
            value,
            wire_usages[wire as int]@.len(),
        );
        lemma_running_settles(
            made,
            initial_values,
            wire_usages,
            settle_one(state, wire_usages),
            (steps - 1) as nat,
        );
    }
}

/// In a well-made circuit that has come to rest, every wire that a gate
/// drives and that carries a value carries that gate's operation on the
/// values of its two input wires, and every wire that was given a value at
/// the start and carries one carries that value.
pub proof fn lemma_circuit_evaluated(
    gates: Seq<Gate>,
    initial_values: Seq<(usize, bool)>,
    wire_usages: Seq<Vec<(usize, u8)>>,
)
    requires
        well_made(gates, initial_values, wire_usages),
        exists|steps: nat| settle(starting(gates, initial_values, wire_usages), wire_usages, steps) is Some,
    ensures
        evaluated(
            gates,
            initial_values,
            at_rest(starting(gates, initial_values, wire_usages), wire_usages),
        ),
{
    let start = starting(gates, initial_values, wire_usages);
    let steps = choose|steps: nat| settle(start, wire_usages, steps) is Some;
    lemma_running_starts(gates, initial_values, wire_usages);
    lemma_running_settles(gates, initial_values, wire_usages, start, steps);
}

/// The wire waits on the queue.
pub open spec fn pending(queue: Seq<(usize, bool)>, wire: int) -> bool {
    exists|q: int| 0 <= q < queue.len() && (#[trigger] queue[q]).0 == wire
}

/// The input that the use names has its value.
pub open spec fn use_done(gates: Seq<Gate>, usage: (usize, u8)) -> bool {
    input_of(gates[usage.0 as int], usage.1 as int) is Value
}

/// How far a running circuit has come: every wire that was given a value
/// at the start waits on the queue or carries a value; every use of a wire
/// that carries a value is done, unless the wire waits on the queue or is
/// the wire that is being passed on and the use is not among its first
/// `upto`; and the wire of every gate with both values carries a value.
#[verifier::opaque]
pub open spec fn flowing(
    initial_values: Seq<(usize, bool)>,
    wire_usages: Seq<Vec<(usize, u8)>>,
    state: Running,
    busy: Option<int>,
    upto: int,
) -> bool {
    &&& forall|i: int|
        0 <= i < initial_values.len() ==> pending(state.queue, (#[trigger] initial_values[i]).0 as int)
            || state.wires[initial_values[i].0 as int] is Some
    &&& forall|w: int, k: int|
        0 <= w < wire_usages.len() && 0 <= k < wire_usages[w]@.len() && state.wires[w] is Some
            ==> pending(state.queue, w) || (busy == Some(w) && k >= upto)
            || use_done(state.gates, #[trigger] wire_usages[w]@[k])
    &&& forall|g: int|
        0 <= g < state.gates.len() && (#[trigger] state.gates[g]).0 is Value && state.gates[g].1
            is Value ==> state.wires[state.gates[g].3 as int] is Some
}

/// A circuit stands as `flowing` says when it starts.
pub proof fn lemma_flowing_starts(
    made: Seq<Gate>,
    initial_values: Seq<(usize, bool)>,
    wire_usages: Seq<Vec<(usize, u8)>>,
)
    requires
        well_made(made, initial_values, wire_usages),
    ensures
        flowing(
            initial_values,
            wire_usages,
            starting(made, initial_values, wire_usages),
            None,
            0,
        ),
{
    reveal(flowing);
    let state = starting(made, initial_values, wire_usages);
    assert forall|i: int| 0 <= i < initial_values.len() implies pending(
        state.queue,
        (#[trigger] initial_values[i]).0 as int,
    ) by {
        assert(state.queue[i].0 == initial_values[i].0);
    }
    assert forall|g: int| 0 <= g < state.gates.len() implies !((#[trigger] state.gates[g]).0 is Value) by {
        assert(made[g].0 is Wire);
    }
}

/// Taking a wire off the queue keeps the circuit as `flowing` says, with
/// that wire the one that is being passed on.
pub proof fn lemma_flowing_taken(
    made: Seq<Gate>,
    initial_values: Seq<(usize, bool)>,
    wire_usages: Seq<Vec<(usize, u8)>>,
    state: Running,
)
    requires
        well_made(made, initial_values, wire_usages),
        running(made, initial_values, wire_usages, state),
        flowing(initial_values, wire_usages, state, None, 0),
        state.queue.len() > 0,
        state.queue.last().0 < wire_usages.len(),
    ensures
        flowing(
            initial_values,
            wire_usages,
            (Running {
                gates: state.gates,
                queue: state.queue.drop_last(),
                wires: state.wires.update(state.queue.last().0 as int, Some(state.queue.last().1)),
            }),
            Some(state.queue.last().0 as int),
            0,
        ),
{
    reveal(flowing);
    let (wire, value) = state.queue.last();
    let taken = Running {
        gates: state.gates,
        queue: state.queue.drop_last(),
        wires: state.wires.update(wire as int, Some(value)),
    };
    assert(state.gates.len() == made.len() && state.wires.len() == wire_usages.len()) by {
        reveal(running);
    }
    assert forall|g: int| 0 <= g < made.len() implies (#[trigger] state.gates[g]).3
        < wire_usages.len() by {
        reveal(running);
        assert(gate_runs(made[g], state.gates[g], state.wires));
        assert(made[g].3 < wire_usages.len());
    }
    assert forall|w: int| pending(state.queue, w) && w != wire implies pending(taken.queue, w) by {
        let q = choose|q: int| 0 <= q < state.queue.len() && (#[trigger] state.queue[q]).0 == w;
        assert(taken.queue[q] == state.queue[q]);
    }
    assert forall|i: int| 0 <= i < initial_values.len() implies pending(
        taken.queue,
        (#[trigger] initial_values[i]).0 as int,
    ) || taken.wires[initial_values[i].0 as int] is Some by {
        let w = initial_values[i].0;
        assert(w < wire_usages.len());
        if w != wire && !pending(state.queue, w as int) {
            assert(state.wires[w as int] is Some);
        }
    }
    assert forall|w: int, k: int|
        0 <= w < wire_usages.len() && 0 <= k < wire_usages[w]@.len() && taken.wires[w]
            is Some implies pending(taken.queue, w) || (wire == w && k >= 0) || use_done(taken.gates, #[trigger] wire_usages[w]@[k]) by {
        if w != wire {
            assert(state.wires[w] is Some);
        }
    }
    assert forall|g: int|
        0 <= g < taken.gates.len() && (#[trigger] taken.gates[g]).0 is Value && taken.gates[g].1
            is Value implies taken.wires[taken.gates[g].3 as int] is Some by {
        assert(state.wires[state.gates[g].3 as int] is Some);
    }
}

/// Passing the value of a wire on to its next use keeps the circuit as
/// `flowing` says, with one use more done.
pub proof fn lemma_flowing_fed(
    made: Seq<Gate>,
    initial_values: Seq<(usize, bool)>,
    wire_usages: Seq<Vec<(usize, u8)>>,
    state: Running,
    wire: usize,
    value: bool,
    upto: int,
)
    requires
        well_made(made, initial_values, wire_usages),
        running(made, initial_values, wire_usages, state),
        wire < wire_usages.len(),
        0 <= upto < wire_usages[wire as int]@.len(),
        flowing(initial_values, wire_usages, state, Some(wire as int), upto),
    ensures
        flowing(
            initial_values,
            wire_usages,
            feed(state, wire_usages[wire as int]@[upto], value),
            Some(wire as int),
            upto + 1,
        ),
{
    let usage = wire_usages[wire as int]@[upto];
    let g = usage.0 as int;
    let fed = feed(state, usage, value);
    let gate = with_input(state.gates[g], usage.1, GateInput::Value(value));
    assert(usage.0 < made.len() && usage.1 < 2);
    assert(state.gates.len() == made.len() && state.wires.len() == wire_usages.len() && gate.3
        < wire_usages.len()) by {
        reveal(running);
        assert(gate_runs(made[g], state.gates[g], state.wires));
    }
    assert(fed.gates == state.gates.update(g, gate));
    let fires = gate.0 is Value && gate.1 is Value;
    if fires {
        let result = op_result(gate.2, gate.0->Value_0, gate.1->Value_0);
        assert(fed.wires == state.wires.update(gate.3 as int, Some(result)));
        assert(fed.queue == state.queue.push((gate.3, result)));
        assert(fed.queue[state.queue.len() as int].0 == gate.3);
        assert(pending(fed.queue, gate.3 as int));
    } else {
        assert(fed.wires == state.wires);
        assert(fed.queue == state.queue);
    }
    assert forall|w: int| pending(state.queue, w) implies pending(fed.queue, w) by {
        let q = choose|q: int| 0 <= q < state.queue.len() && (#[trigger] state.queue[q]).0 == w;
        assert(fed.queue[q] == state.queue[q]);
    }
    assert forall|w: int, k: int|
        0 <= w < wire_usages.len() && 0 <= k < wire_usages[w]@.len() && use_done(
            state.gates,
            #[trigger] wire_usages[w]@[k],
        ) implies use_done(fed.gates, wire_usages[w]@[k]) by {
        assert(wire_usages[w]@[k].0 < made.len());
    }
    assert(use_done(fed.gates, usage));
    reveal(flowing);
    assert forall|i: int| 0 <= i < initial_values.len() implies pending(
        fed.queue,
        (#[trigger] initial_values[i]).0 as int,
    ) || fed.wires[initial_values[i].0 as int] is Some by {
        let w = initial_values[i].0;
        assert(w < wire_usages.len());
        if !pending(state.queue, w as int) {
            assert(state.wires[w as int] is Some);
        }
    }
    assert forall|w: int, k: int|
        0 <= w < wire_usages.len() && 0 <= k < wire_usages[w]@.len() && fed.wires[w]
            is Some implies pending(fed.queue, w) || (wire == w && k >= upto + 1) || use_done(fed.gates, #[trigger] wire_usages[w]@[k]) by {
        if state.wires[w] is Some {
            if pending(state.queue, w) {
                assert(pending(fed.queue, w));
            } else if w == wire && k >= upto {
                if k == upto {
                    assert(wire_usages[w]@[k] == usage);
                }
            } else {
                assert(use_done(state.gates, wire_usages[w]@[k]));
                assert(use_done(fed.gates, wire_usages[w]@[k]));
            }
        } else {
            assert(fires && w == gate.3);
            assert(pending(fed.queue, w));
        }
    }
    assert forall|h: int|
        0 <= h < fed.gates.len() && (#[trigger] fed.gates[h]).0 is Value && fed.gates[h].1
            is Value implies fed.wires[fed.gates[h].3 as int] is Some by {
        if h != g {
            assert(fed.gates[h] == state.gates[h]);
            assert(state.wires[state.gates[h].3 as int] is Some);
            assert(state.gates[h].3 < wire_usages.len()) by {
                reveal(running);
                assert(gate_runs(made[h], state.gates[h], state.wires));
            }
        }
    }
}

/// Passing the value of a wire on to the first `upto` of its uses keeps
/// the circuit as `flowing` says.
pub proof fn lemma_flowing_fed_all(
    made: Seq<Gate>,
    initial_values: Seq<(usize, bool)>,
    wire_usages: Seq<Vec<(usize, u8)>>,
    state: Running,
    wire: usize,
    value: bool,
    upto: nat,
)
    requires
        well_made(made, initial_values, wire_usages),
        running(made, initial_values, wire_usages, state),
        wire < wire_usages.len(),
        state.wires[wire as int] == Some(value),
        upto <= wire_usages[wire as int]@.len(),
        flowing(initial_values, wire_usages, state, Some(wire as int), 0),
    ensures
        flowing(
            initial_values,
            wire_usages,
            feed_all(state, wire_usages[wire as int]@, value, upto),
            Some(wire as int),
            upto as int,
        ),
    decreases upto,
{
    if upto > 0 {
        lemma_flowing_fed_all(made, initial_values, wire_usages, state, wire, value, (upto - 1) as nat);
        lemma_running_fed_all(made, initial_values, wire_usages, state, wire, value, (upto - 1) as nat);
        let before = feed_all(state, wire_usages[wire as int]@, value, (upto - 1) as nat);
        lemma_flowing_fed(made, initial_values, wire_usages, before, wire, value, upto - 1);
    }
}

/// Every input of a gate is among the uses of its wire.
pub open spec fn table_full(made: Seq<Gate>, wire_usages: Seq<Vec<(usize, u8)>>) -> bool {
    forall|g: int|
        0 <= g < made.len() ==> listed(wire_usages[wire_of((#[trigger] made[g]).0) as int]@, g, 0)
            && listed(wire_usages[wire_of(made[g].1) as int]@, g, 1)
}

/// The uses name this input of this gate.
pub open spec fn listed(usages: Seq<(usize, u8)>, gate: int, idx: int) -> bool {
    exists|k: int| 0 <= k < usages.len() && (#[trigger] usages[k]).0 == gate && usages[k].1 == idx
}

/// Every wire that was given a value at the start carries one, and so does
/// every wire that a gate drives whose two input wires carry values.
pub open spec fn settled(
    made: Seq<Gate>,
    initial_values: Seq<(usize, bool)>,
    wires: Seq<Option<bool>>,
) -> bool {
    &&& forall|i: int|
        0 <= i < initial_values.len() ==> wires[(#[trigger] initial_values[i]).0 as int] is Some
    &&& forall|g: int|
        0 <= g < made.len() && wires[wire_of((#[trigger] made[g]).0) as int] is Some
            && wires[wire_of(made[g].1) as int] is Some ==> wires[made[g].3 as int] is Some
}

/// The wires of a circuit with an empty queue are settled.
pub proof fn lemma_flowing_rests(
    made: Seq<Gate>,
    initial_values: Seq<(usize, bool)>,
    wire_usages: Seq<Vec<(usize, u8)>>,
    state: Running,
)
    requires
        well_made(made, initial_values, wire_usages),
        table_full(made, wire_usages),
        running(made, initial_values, wire_usages, state),
        flowing(initial_values, wire_usages, state, None, 0),
        state.queue.len() == 0,
    ensures
        settled(made, initial_values, state.wires),
{
    reveal(flowing);
    reveal(running);
    let wires = state.wires;
    assert forall|w: int| !pending(state.queue, w) by {}
    assert forall|g: int|
        0 <= g < made.len() && wires[wire_of((#[trigger] made[g]).0) as int] is Some
            && wires[wire_of(made[g].1) as int] is Some implies wires[made[g].3 as int] is Some by {
        let a = wire_of(made[g].0) as int;
        let b = wire_of(made[g].1) as int;
        assert(gate_runs(made[g], state.gates[g], state.wires));
        assert(a < wire_usages.len() && b < wire_usages.len());
        assert(listed(wire_usages[a]@, g, 0) && listed(wire_usages[b]@, g, 1));
        let ka = choose|k: int|
            0 <= k < wire_usages[a]@.len() && (#[trigger] wire_usages[a]@[k]).0 == g
                && wire_usages[a]@[k].1 == 0;
        let kb = choose|k: int|
            0 <= k < wire_usages[b]@.len() && (#[trigger] wire_usages[b]@[k]).0 == g
                && wire_usages[b]@[k].1 == 1;
        assert(!pending(state.queue, a));
        assert(!pending(state.queue, b));
        assert(use_done(state.gates, wire_usages[a]@[ka]));
        assert(use_done(state.gates, wire_usages[b]@[kb]));
        assert(state.gates[g].0 is Value && state.gates[g].1 is Value);
    }
}

/// A circuit that stands as `running` and `flowing` say and comes to rest
/// has its wires settled.
pub proof fn lemma_flowing_settles(
    made: Seq<Gate>,
    initial_values: Seq<(usize, bool)>,
    wire_usages: Seq<Vec<(usize, u8)>>,
    state: Running,
    steps: nat,
)
    requires
        well_made(made, initial_values, wire_usages),
        table_full(made, wire_usages),
        running(made, initial_values, wire_usages, state),
        flowing(initial_values, wire_usages, state, None, 0),
        settle(state, wire_usages, steps) is Some,
    ensures
        settled(made, initial_values, settle(state, wire_usages, steps)->0),
    decreases steps,
{
    if state.queue.len() == 0 {
        lemma_flowing_rests(made, initial_values, wire_usages, state);
    } else {
        let (wire, value) = state.queue.last();
        assert(justified(initial_values, state.gates, wire, value)) by {
            reveal(running);
            assert(state.queue[state.queue.len() - 1] == state.queue.last());
        }
        lemma_justified_wire(made, initial_values, wire_usages, state, wire, value);
        lemma_running_taken(made, initial_values, wire_usages, state);
        assert(state.wires.len() == wire_usages.len()) by {
            reveal(running);
        }
        lemma_flowing_taken(made, initial_values, wire_usages, state);
        let taken = Running {
            gates: state.gates,
            queue: state.queue.drop_last(),
            wires: state.wires.update(wire as int, Some(value)),
        };
        let all = wire_usages[wire as int]@.len();
        lemma_running_fed_all(made, initial_values, wire_usages, taken, wire, value, all);
        lemma_flowing_fed_all(made, initial_values, wire_usages, taken, wire, value, all);
        let next = settle_one(state, wire_usages);
        assert(flowing(initial_values, wire_usages, next, None, 0)) by {
            reveal(flowing);
        }
        lemma_flowing_settles(made, initial_values, wire_usages, next, (steps - 1) as nat);
    }
}

/// In a well-made circuit whose tables name every input of every gate and
/// that has come to rest, every wire that was given a value at the start
/// carries one, and so does every wire that a gate drives whose two input
/// wires carry values.
pub proof fn lemma_circuit_settled(
    gates: Seq<Gate>,
    initial_values: Seq<(usize, bool)>,
    wire_usages: Seq<Vec<(usize, u8)>>,
)
    requires
        well_made(gates, initial_values, wire_usages),
        table_full(gates, wire_usages),
        exists|steps: nat| settle(starting(gates, initial_values, wire_usages), wire_usages, steps) is Some,
    ensures
        settled(
            gates,
            initial_values,
            at_rest(starting(gates, initial_values, wire_usages), wire_usages),
        ),
{
    let start = starting(gates, initial_values, wire_usages);
    let steps = choose|steps: nat| settle(start, wire_usages, steps) is Some;
    lemma_running_starts(gates, initial_values, wire_usages);
    lemma_flowing_starts(gates, initial_values, wire_usages);
    lemma_flowing_settles(gates, initial_values, wire_usages, start, steps);
}

/// Both inputs of every gate are wires.
pub open spec fn all_wired(gates: Seq<Gate>) -> bool {
    forall|g: int| 0 <= g < gates.len() ==> (#[trigger] gates[g]).0 is Wire && gates[g].1 is Wire
}

/// This gate computes `op` on the wire `known_input` and on some other wire
/// that is not `replaced_input`.
pub open spec fn stands_in(gate: Gate, known_input: usize, replaced_input: usize, op: Op) -> bool {
    &&& gate.0 != GateInput::Wire(replaced_input)
    &&& gate.1 != GateInput::Wire(replaced_input)
    &&& gate.2 == op
    &&& (gate.0 == GateInput::Wire(known_input) || gate.1 == GateInput::Wire(known_input))
}

/// The input of a gate that goes with `known_input`.
pub open spec fn partner_of(gate: Gate, known_input: usize) -> GateInput {
    if gate.0 == GateInput::Wire(known_input) {
        gate.1
    } else {
        gate.0
    }
}

/// Looks for the first gate that computes `op` on `known_input` and on a
/// wire other than `replaced_input`, and returns that other wire and the
/// gate.
pub fn find_replacement(known_input: usize, replaced_input: usize, op: Op, gates: &Vec<Gate>) -> (found:
    Option<(usize, usize)>)
    requires
        all_wired(gates@),
    ensures
        found == replacement_of(gates@, known_input, replaced_input, op),
        match found {
            Some((wire, gate_idx)) => {
                &&& gate_idx < gates.len()
                &&& stands_in(gates@[gate_idx as int], known_input, replaced_input, op)
                &&& partner_of(gates@[gate_idx as int], known_input) == GateInput::Wire(wire)
                &&& forall|g: int|
                    0 <= g < gate_idx ==> !stands_in(
                        #[trigger] gates@[g],
                        known_input,
                        replaced_input,
                        op,
                    )
            },
            None => forall|g: int|
                0 <= g < gates.len() ==> !stands_in(
                    #[trigger] gates@[g],
                    known_input,
                    replaced_input,
                    op,
                ),
        },
{
    let mut gate_idx: usize = 0;
    while gate_idx < gates.len()
        invariant
            gate_idx <= gates.len(),
            all_wired(gates@),
            forall|g: int|
                0 <= g < gate_idx ==> !stands_in(
                    #[trigger] gates@[g],
                    known_input,
                    replaced_input,
                    op,
                ),
        decreases gates.len() - gate_idx,
    {
        let (input_a, input_b, gate_op, _) = gates[gate_idx];
        assert(gates@[gate_idx as int].0 is Wire && gates@[gate_idx as int].1 is Wire);
        if !(input_a == GateInput::Wire(replaced_input) || input_b == GateInput::Wire(
            replaced_input,
        )) {
            let match_a = input_a == GateInput::Wire(known_input);
            let match_b = input_b == GateInput::Wire(known_input);
            if gate_op == op && (match_a || match_b) {
                proof {
                    lemma_first_stand_in(
                        gates@,
                        known_input,
                        replaced_input,
                        op,
                        0,
                        gate_idx as int,
                    );
                }
                if match_a {
                    return Some((input_b.get_write_unchecked(), gate_idx));
                }
                if match_b {
                    return Some((input_a.get_write_unchecked(), gate_idx));
                }
            }
        }
        gate_idx += 1;
    }

    proof {
        lemma_first_stand_in(gates@, known_input, replaced_input, op, 0, gates@.len() as int);
    }
    None
}

/// The tables name gates and inputs of the circuit.
pub open spec fn tables_valid(
    gates: Seq<Gate>,
    wire_usages: Seq<Vec<(usize, u8)>>,
    origin_map: Seq<Option<usize>>,
) -> bool {
    &&& origin_map.len() == wire_usages.len()
    &&& forall|w: int, k: int|
        0 <= w < wire_usages.len() && 0 <= k < wire_usages[w]@.len() ==> (
        #[trigger] wire_usages[w]@[k]).0 < gates.len() && wire_usages[w]@[k].1 < 2
    &&& forall|w: int|
        0 <= w < origin_map.len() ==> ((#[trigger] origin_map[w]) matches Some(origin) ==> origin
            < gates.len())
}

/// The gates after the inputs named by the first `upto` uses have been set
/// to the wire.
pub open spec fn rewired(gates: Seq<Gate>, usages: Seq<(usize, u8)>, wire: usize, upto: nat) -> Seq<
    Gate,
>
    decreases upto,
{
    if upto == 0 {
        gates
    } else {
        let before = rewired(gates, usages, wire, (upto - 1) as nat);
        let usage = usages[upto - 1];
        before.update(
            usage.0 as int,
            with_input(before[usage.0 as int], usage.1, GateInput::Wire(wire)),
        )
    }
}

/// The gates with the wire that a gate drives replaced, where the table
/// names a gate.
pub open spec fn redriven(gates: Seq<Gate>, origin: Option<usize>, wire: usize) -> Seq<Gate> {
    match origin {
        Some(gate) => gates.update(
            gate as int,
            (gates[gate as int].0, gates[gate as int].1, gates[gate as int].2, wire),
        ),
        None => gates,
    }
}

/// What exchanging two wires does, going by the tables: whichever gate
/// drove `a` drives `b` and the other way round, and the inputs that `a`
/// fed are fed by `b` and the other way round.
pub open spec fn swapped(
    gates: Seq<Gate>,
    wire_usages: Seq<Vec<(usize, u8)>>,
    origin_map: Seq<Option<usize>>,
    a: usize,
    b: usize,
) -> Seq<Gate> {
    let driven = redriven(redriven(gates, origin_map[a as int], b), origin_map[b as int], a);
    let fed = rewired(driven, wire_usages[a as int]@, b, wire_usages[a as int]@.len());
    rewired(fed, wire_usages[b as int]@, a, wire_usages[b as int]@.len())
}

/// Every wire that a gate names is one of the first `wires` wires.
pub open spec fn wires_known(gates: Seq<Gate>, wires: int) -> bool {
    forall|g: int|
        0 <= g < gates.len() ==> {
            &&& (#[trigger] gates[g]).3 < wires
            &&& gates[g].0 matches GateInput::Wire(w) ==> w < wires
            &&& gates[g].1 matches GateInput::Wire(w) ==> w < wires
        }
}

/// Rewiring to a known wire keeps all wires known.
pub proof fn lemma_rewired_known(
    gates: Seq<Gate>,
    usages: Seq<(usize, u8)>,
    wire: usize,
    upto: nat,
    wires: int,
)
    requires
        upto <= usages.len(),
        forall|k: int| 0 <= k < usages.len() ==> (#[trigger] usages[k]).0 < gates.len(),
        wires_known(gates, wires),
        wire < wires,
    ensures
        wires_known(rewired(gates, usages, wire, upto), wires),
    decreases upto,
{
    if upto > 0 {
        lemma_rewired_known(gates, usages, wire, (upto - 1) as nat, wires);
        lemma_rewired(gates, usages, wire, (upto - 1) as nat);
        let before = rewired(gates, usages, wire, (upto - 1) as nat);
        let after = rewired(gates, usages, wire, upto);
        assert(usages[upto - 1].0 < gates.len());
        assert forall|g: int| 0 <= g < after.len() implies {
            &&& (#[trigger] after[g]).3 < wires
            &&& after[g].0 matches GateInput::Wire(w) ==> w < wires
            &&& after[g].1 matches GateInput::Wire(w) ==> w < wires
        } by {
            assert(before[g].3 < wires);
        }
    }
}

/// Rewiring keeps the number of gates, their operations, and their inputs
/// wires.
pub proof fn lemma_rewired(gates: Seq<Gate>, usages: Seq<(usize, u8)>, wire: usize, upto: nat)
    requires
        upto <= usages.len(),
        forall|k: int| 0 <= k < usages.len() ==> (#[trigger] usages[k]).0 < gates.len(),
    ensures
        rewired(gates, usages, wire, upto).len() == gates.len(),
        all_wired(gates) ==> all_wired(rewired(gates, usages, wire, upto)),
        forall|g: int|
            0 <= g < gates.len() ==> (#[trigger] rewired(gates, usages, wire, upto)[g]).2
                == gates[g].2,
    decreases upto,
{
    if upto > 0 {
        lemma_rewired(gates, usages, wire, (upto - 1) as nat);
        let before = rewired(gates, usages, wire, (upto - 1) as nat);
        let after = rewired(gates, usages, wire, upto);
        assert(usages[upto - 1].0 < gates.len());
        if all_wired(gates) {
            assert forall|g: int| 0 <= g < after.len() implies (#[trigger] after[g]).0 is Wire
                && after[g].1 is Wire by {
                assert(before[g].0 is Wire && before[g].1 is Wire);
            }
        }
        assert forall|g: int| 0 <= g < gates.len() implies (#[trigger] after[g]).2
            == gates[g].2 by {
            assert(before[g].2 == gates[g].2);
        }
    }
}

/// Sets the inputs that the uses name to the wire.
fn rewire(gates: &mut Vec<Gate>, usages: &Vec<(usize, u8)>, wire: usize)
    requires
        forall|k: int|
            0 <= k < usages@.len() ==> (#[trigger] usages@[k]).0 < old(gates)@.len() && usages@[k].1
                < 2,
    ensures
        final(gates)@ == rewired(old(gates)@, usages@, wire, usages@.len()),
{
    let mut u: usize = 0;
    while u < usages.len()
        invariant
            u <= usages.len(),
            forall|k: int|
                0 <= k < usages@.len() ==> (#[trigger] usages@[k]).0 < old(gates)@.len()
                    && usages@[k].1 < 2,
            gates@ == rewired(old(gates)@, usages@, wire, u as nat),
        decreases usages.len() - u,
    {
        let (gate_idx, input_idx) = usages[u];
        proof {
            lemma_rewired(old(gates)@, usages@, wire, u as nat);
        }
        let mut gate = gates[gate_idx];
        if input_idx == 0 {
            gate.0 = GateInput::Wire(wire);
        } else {
            gate.1 = GateInput::Wire(wire);
        }
        gates[gate_idx] = gate;
        u += 1;
    }
}

/// Exchanges two wires in the circuit, going by the tables.
pub fn swap(
    gates: &mut Vec<Gate>,
    wire_usages: &Vec<Vec<(usize, u8)>>,
    origin_map: &Vec<Option<usize>>,
    a: usize,
    b: usize,
)
    requires
        tables_valid(old(gates)@, wire_usages@, origin_map@),
        a < wire_usages@.len(),
        b < wire_usages@.len(),
    ensures
        final(gates)@ == swapped(old(gates)@, wire_usages@, origin_map@, a, b),
        final(gates)@.len() == old(gates)@.len(),
        all_wired(old(gates)@) ==> all_wired(final(gates)@),
        wires_known(old(gates)@, wire_usages@.len() as int) ==> wires_known(
            final(gates)@,
            wire_usages@.len() as int,
        ),
        tables_valid(final(gates)@, wire_usages@, origin_map@),
{
    if let Some(origin) = origin_map[a] {
        let mut gate = gates[origin];
        gate.3 = b;
        gates[origin] = gate;
    }
    if let Some(origin) = origin_map[b] {
        let mut gate = gates[origin];
        gate.3 = a;
        gates[origin] = gate;
    }
    let ghost driven = gates@;
    proof {
        if all_wired(old(gates)@) {
            assert forall|g: int| 0 <= g < driven.len() implies (#[trigger] driven[g]).0 is Wire
                && driven[g].1 is Wire by {
                assert(old(gates)@[g].0 is Wire && old(gates)@[g].1 is Wire);
            }
        }
        assert forall|k: int| 0 <= k < wire_usages@[a as int]@.len() implies (
        #[trigger] wire_usages@[a as int]@[k]).0 < driven.len() && wire_usages@[a as int]@[k].1
            < 2 by {}
        lemma_rewired(driven, wire_usages@[a as int]@, b, wire_usages@[a as int]@.len());
        if wires_known(old(gates)@, wire_usages@.len() as int) {
            assert forall|g: int| 0 <= g < driven.len() implies {
                &&& (#[trigger] driven[g]).3 < wire_usages@.len()
                &&& driven[g].0 matches GateInput::Wire(w) ==> w < wire_usages@.len()
                &&& driven[g].1 matches GateInput::Wire(w) ==> w < wire_usages@.len()
            } by {
                assert(old(gates)@[g].3 < wire_usages@.len());
            }
            lemma_rewired_known(
                driven,
                wire_usages@[a as int]@,
                b,
                wire_usages@[a as int]@.len(),
                wire_usages@.len() as int,
            );
        }
    }

    rewire(gates, &wire_usages[a], b);
    let ghost fed = gates@;
    proof {
        assert forall|k: int| 0 <= k < wire_usages@[b as int]@.len() implies (
        #[trigger] wire_usages@[b as int]@[k]).0 < fed.len() && wire_usages@[b as int]@[k].1
            < 2 by {}
        lemma_rewired(fed, wire_usages@[b as int]@, a, wire_usages@[b as int]@.len());
        if wires_known(old(gates)@, wire_usages@.len() as int) {
            lemma_rewired_known(
                fed,
                wire_usages@[b as int]@,
                a,
                wire_usages@[b as int]@.len(),
                wire_usages@.len() as int,
            );
        }
    }
    rewire(gates, &wire_usages[b], a);
}

/// Whether the list of uses holds the use.
fn uses_contain(usages: &Vec<(usize, u8)>, gate_idx: usize, input_idx: u8) -> (found: bool)
    ensures
        found == usages@.contains((gate_idx, input_idx)),
{
    let mut k: usize = 0;
    while k < usages.len()
        invariant
            k <= usages.len(),
            forall|i: int| 0 <= i < k ==> usages@[i] != (gate_idx, input_idx),
        decreases usages.len() - k,
    {
        let (g, i) = usages[k];
        if g == gate_idx && i == input_idx {
            return true;
        }
        k += 1;
    }
    false
}

/// Every wire of the list is one of the first `wires` wires.
pub open spec fn wires_listed(list: Seq<usize>, wires: int) -> bool {
    forall|i: int| 0 <= i < list.len() ==> #[trigger] list[i] < wires
}

/// The first gate from `from` on that computes `op` on `known_input` and
/// on a wire other than `replaced_input`; the number of gates where there
/// is none.
pub open spec fn first_stand_in(
    gates: Seq<Gate>,
    known_input: usize,
    replaced_input: usize,
    op: Op,
    from: int,
) -> int
    decreases gates.len() - from,
{
    if from >= gates.len() || from < 0 {
        gates.len() as int
    } else if stands_in(gates[from], known_input, replaced_input, op) {
        from
    } else {
        first_stand_in(gates, known_input, replaced_input, op, from + 1)
    }
}

/// The wire that feeds an input.
pub open spec fn wire_of(input: GateInput) -> usize {
    match input {
        GateInput::Wire(wire) => wire,
        GateInput::Value(_) => 0,
    }
}

/// What `find_replacement` finds: the other wire of the first gate that
/// stands in, and that gate.
pub open spec fn replacement_of(
    gates: Seq<Gate>,
    known_input: usize,
    replaced_input: usize,
    op: Op,
) -> Option<(usize, usize)> {
    let gate = first_stand_in(gates, known_input, replaced_input, op, 0);
    if gate < gates.len() {
        Some((wire_of(partner_of(gates[gate], known_input)), gate as usize))
    } else {
        None
    }
}

/// No gate before the first one that stands in does.
pub proof fn lemma_first_stand_in(
    gates: Seq<Gate>,
    known_input: usize,
    replaced_input: usize,
    op: Op,
    from: int,
    upto: int,
)
    requires
        0 <= from <= upto <= gates.len(),
        forall|g: int| from <= g < upto ==> !stands_in(#[trigger] gates[g], known_input, replaced_input, op),
        upto < gates.len() ==> stands_in(gates[upto], known_input, replaced_input, op),
    ensures
        first_stand_in(gates, known_input, replaced_input, op, from) == upto,
    decreases upto - from,
{
    if from < upto {
        lemma_first_stand_in(gates, known_input, replaced_input, op, from + 1, upto);
    }
}

/// The first gate, in the order of the uses of the one wire from `from`
/// on, that computes `op` and has the other wire on its other input.
pub open spec fn direct_from(
    gates: Seq<Gate>,
    usages_a: Seq<(usize, u8)>,
    usages_b: Seq<(usize, u8)>,
    op: Op,
    from: int,
) -> Option<usize>
    decreases usages_a.len() - from,
{
    if from >= usages_a.len() || from < 0 {
        None
    } else if usages_b.contains((usages_a[from].0, (1 - usages_a[from].1) as u8))
        && gates[usages_a[from].0 as int].2 == op {
        Some(usages_a[from].0)
    } else {
        direct_from(gates, usages_a, usages_b, op, from + 1)
    }
}

/// This gate computes `op` on the two wires.
pub open spec fn computes(gate: Gate, input_a: usize, input_b: usize, op: Op) -> bool {
    &&& gate.2 == op
    &&& (gate.0 == GateInput::Wire(input_a) && gate.1 == GateInput::Wire(input_b)) || (gate.0
        == GateInput::Wire(input_b) && gate.1 == GateInput::Wire(input_a))
}

/// Every use in the table of a wire names an input that the wire feeds.
pub open spec fn uses_named(gates: Seq<Gate>, wire_usages: Seq<Vec<(usize, u8)>>) -> bool {
    forall|w: int, k: int|
        0 <= w < wire_usages.len() && 0 <= k < wire_usages[w]@.len() ==> (
        #[trigger] wire_usages[w]@[k]).0 < gates.len() && wire_usages[w]@[k].1 < 2 && input_of(
            gates[wire_usages[w]@[k].0 as int],
            wire_usages[w]@[k].1 as int,
        ) == GateInput::Wire(w as usize)
}

/// A gate that the tables show for two wires computes the operation on
/// them.
pub proof fn lemma_direct_found(
    gates: Seq<Gate>,
    wire_usages: Seq<Vec<(usize, u8)>>,
    input_a: usize,
    input_b: usize,
    op: Op,
    from: int,
)
    requires
        uses_named(gates, wire_usages),
        input_a < wire_usages.len(),
        input_b < wire_usages.len(),
        0 <= from,
    ensures
        direct_from(gates, wire_usages[input_a as int]@, wire_usages[input_b as int]@, op, from) matches Some(
            gate,
        ) ==> gate < gates.len() && computes(gates[gate as int], input_a, input_b, op),
    decreases wire_usages[input_a as int]@.len() - from,
{
    let usages_a = wire_usages[input_a as int]@;
    let usages_b = wire_usages[input_b as int]@;
    if from < usages_a.len() {
        let usage = wire_usages[input_a as int]@[from];
        let other = (usage.0, (1 - usage.1) as u8);
        if usages_b.contains(other) && gates[usage.0 as int].2 == op {
            let k = choose|k: int| 0 <= k < usages_b.len() && usages_b[k] == other;
            assert(wire_usages[input_b as int]@[k] == other);
            assert(usage.1 < 2);
        } else {
            lemma_direct_found(gates, wire_usages, input_a, input_b, op, from + 1);
        }
    }
}

/// Where the tables show no gate for two wires from `from` on, none of the
/// uses of the first wire from there on names a gate that computes the
/// operation on them.
pub proof fn lemma_direct_none(
    gates: Seq<Gate>,
    wire_usages: Seq<Vec<(usize, u8)>>,
    input_a: usize,
    input_b: usize,
    op: Op,
    from: int,
    gate: int,
)
    requires
        uses_named(gates, wire_usages),
        table_full(gates, wire_usages),
        all_wired(gates),
        input_a < wire_usages.len(),
        input_b < wire_usages.len(),
        0 <= gate < gates.len(),
        0 <= from,
        direct_from(gates, wire_usages[input_a as int]@, wire_usages[input_b as int]@, op, from)
            is None,
        exists|k: int|
            from <= k < wire_usages[input_a as int]@.len() && (
            #[trigger] wire_usages[input_a as int]@[k]).0 == gate,
    ensures
        !computes(gates[gate], input_a, input_b, op),
    decreases wire_usages[input_a as int]@.len() - from,
{
    let usages_a = wire_usages[input_a as int]@;
    let usages_b = wire_usages[input_b as int]@;
    let k = choose|k: int|
        from <= k < wire_usages[input_a as int]@.len() && (
        #[trigger] wire_usages[input_a as int]@[k]).0 == gate;
    if from < k {
        lemma_direct_none(gates, wire_usages, input_a, input_b, op, from + 1, gate);
    } else if computes(gates[gate], input_a, input_b, op) {
        let usage = wire_usages[input_a as int]@[from];
        let other = (usage.0, (1 - usage.1) as u8);
        assert(usage.1 < 2);
        assert(input_of(gates[gate], usage.1 as int) == GateInput::Wire(input_a));
        assert(input_of(gates[gate], other.1 as int) == GateInput::Wire(input_b));
        assert(wire_of(input_of(gates[gate], other.1 as int)) == input_b);
        assert(listed(usages_b, gate, other.1 as int));
        let j = choose|j: int|
            0 <= j < usages_b.len() && (#[trigger] usages_b[j]).0 == gate && usages_b[j].1
                == other.1 as int;
        assert(usages_b[j] == other);
        assert(usages_b.contains(other));
    }
}

/// Where the tables show no gate for two wires, no gate computes the
/// operation on them.
pub proof fn lemma_no_direct_gate(
    gates: Seq<Gate>,
    wire_usages: Seq<Vec<(usize, u8)>>,
    input_a: usize,
    input_b: usize,
    op: Op,
    gate: int,
)
    requires
        uses_named(gates, wire_usages),
        table_full(gates, wire_usages),
        all_wired(gates),
        input_a < wire_usages.len(),
        input_b < wire_usages.len(),
        0 <= gate < gates.len(),
        direct_from(gates, wire_usages[input_a as int]@, wire_usages[input_b as int]@, op, 0)
            is None,
    ensures
        !computes(gates[gate], input_a, input_b, op),
{
    if computes(gates[gate], input_a, input_b, op) {
        let idx: int = if gates[gate].0 == GateInput::Wire(input_a) {
            0
        } else {
            1
        };
        assert(wire_of(input_of(gates[gate], idx)) == input_a);
        assert(listed(wire_usages[input_a as int]@, gate, idx));
        let k = choose|k: int|
            0 <= k < wire_usages[input_a as int]@.len() && (
            #[trigger] wire_usages[input_a as int]@[k]).0 == gate
                && wire_usages[input_a as int]@[k].1 == idx;
        lemma_direct_none(gates, wire_usages, input_a, input_b, op, 0, gate);
    }
}

/// What `find_actual_gate` does: a gate that computes `op` on the two
/// wires, and the gates and the list of exchanged wires as they are left.
/// The tables show such a gate, or they show none: then a gate stands in
/// for one of the wires, and that wire is exchanged with the wire found in
/// its place. Nothing is found where gates stand in for both wires or for
/// none.
#[verifier::opaque]
pub open spec fn actual_gate(
    gates: Seq<Gate>,
    swaps: Seq<usize>,
    input_a: usize,
    input_b: usize,
    op: Op,
    wire_usages: Seq<Vec<(usize, u8)>>,
    origin_map: Seq<Option<usize>>,
) -> Option<(usize, Seq<Gate>, Seq<usize>)> {
    match direct_from(gates, wire_usages[input_a as int]@, wire_usages[input_b as int]@, op, 0) {
        Some(gate) => Some((gate, gates, swaps)),
        None => match (
            replacement_of(gates, input_b, input_a, op),
            replacement_of(gates, input_a, input_b, op),
        ) {
            (Some(for_a), None) => Some(
                (
                    for_a.1,
                    swapped(gates, wire_usages, origin_map, input_a, for_a.0),
                    swaps.push(input_a).push(for_a.0),
                ),
            ),
            (None, Some(for_b)) => Some(
                (
                    for_b.1,
                    swapped(gates, wire_usages, origin_map, input_b, for_b.0),
                    swaps.push(input_b).push(for_b.0),
                ),
            ),
            _ => None,
        },
    }
}

/// What following one bit of the adder does: the gates, the exchanged wires
/// and the carry wire afterwards.
pub open spec fn mend_bit(
    gates: Seq<Gate>,
    swaps: Seq<usize>,
    x_input: usize,
    y_input: usize,
    carry: Option<usize>,
    n: int,
    z_wires: Seq<usize>,
    wire_usages: Seq<Vec<(usize, u8)>>,
    origin_map: Seq<Option<usize>>,
) -> Option<(Seq<Gate>, Seq<usize>, usize)> {
    match actual_gate(gates, swaps, x_input, y_input, Op::Xor, wire_usages, origin_map) {
        None => None,
        Some((first_xor, gates1, swaps1)) => match actual_gate(
            gates1,
            swaps1,
            x_input,
            y_input,
            Op::And,
            wire_usages,
            origin_map,
        ) {
            None => None,
            Some((first_and, gates2, swaps2)) => match carry {
                None => if z_wires.len() == 0 || gates2[first_xor as int].3 != z_wires[0] {
                    None
                } else {
                    Some((gates2, swaps2, gates2[first_and as int].3))
                },
                Some(carry_wire) => mend_carry(
                    gates2,
                    swaps2,
                    first_xor,
                    first_and,
                    carry_wire,
                    n,
                    z_wires,
                    wire_usages,
                    origin_map,
                ),
            },
        },
    }
}

/// What following a bit does once its first two gates are found and a
/// carry comes in.
pub open spec fn mend_carry(
    gates2: Seq<Gate>,
    swaps2: Seq<usize>,
    first_xor: usize,
    first_and: usize,
    carry_wire: usize,
    n: int,
    z_wires: Seq<usize>,
    wire_usages: Seq<Vec<(usize, u8)>>,
    origin_map: Seq<Option<usize>>,
) -> Option<(Seq<Gate>, Seq<usize>, usize)> {
    match actual_gate(
        gates2,
        swaps2,
        carry_wire,
        gates2[first_xor as int].3,
        Op::Xor,
        wire_usages,
        origin_map,
    ) {
        None => None,
        Some((second_xor, gates3, swaps3)) => match actual_gate(
            gates3,
            swaps3,
            carry_wire,
            gates3[first_xor as int].3,
            Op::And,
            wire_usages,
            origin_map,
        ) {
            None => None,
            Some((second_and, gates4, swaps4)) => if n >= z_wires.len() || n < 0 {
                None
            } else {
                let actual = gates4[second_xor as int].3;
                let expected = z_wires[n];
                let gates5 = if actual != expected {
                    swapped(gates4, wire_usages, origin_map, actual, expected)
                } else {
                    gates4
                };
                let swaps5 = if actual != expected {
                    swaps4.push(actual).push(expected)
                } else {
                    swaps4
                };
                match actual_gate(
                    gates5,
                    swaps5,
                    gates5[first_and as int].3,
                    gates5[second_and as int].3,
                    Op::Or,
                    wire_usages,
                    origin_map,
                ) {
                    None => None,
                    Some((or_gate, gates6, swaps6)) => Some(
                        (gates6, swaps6, gates6[or_gate as int].3),
                    ),
                }
            },
        },
    }
}

/// What `find_swaps` does from the bit `n` on: the wires exchanged in the
/// end, or nothing where the circuit cannot be followed.
pub open spec fn mend(
    gates: Seq<Gate>,
    swaps: Seq<usize>,
    inputs: Seq<(usize, usize)>,
    n: int,
    carry: Option<usize>,
    z_wires: Seq<usize>,
    wire_usages: Seq<Vec<(usize, u8)>>,
    origin_map: Seq<Option<usize>>,
) -> Option<Seq<usize>>
    decreases inputs.len() - n,
{
    if n >= inputs.len() || n < 0 {
        Some(swaps)
    } else {
        match mend_bit(
            gates,
            swaps,
            inputs[n].0,
            inputs[n].1,
            carry,
            n,
            z_wires,
            wire_usages,
            origin_map,
        ) {
            None => None,
            Some((after, exchanged, carry_wire)) => mend(
                after,
                exchanged,
                inputs,
                n + 1,
                Some(carry_wire),
                z_wires,
                wire_usages,
                origin_map,
            ),
        }
    }
}

/// Some gate computes `op` on the two wires.
pub open spec fn has_gate(gates: Seq<Gate>, input_a: usize, input_b: usize, op: Op) -> bool {
    exists|g: int| 0 <= g < gates.len() && computes(#[trigger] gates[g], input_a, input_b, op)
}

/// A gate that computes `op` on the two wires.
pub open spec fn the_gate(gates: Seq<Gate>, input_a: usize, input_b: usize, op: Op) -> int {
    choose|g: int| 0 <= g < gates.len() && computes(#[trigger] gates[g], input_a, input_b, op)
}

/// No two gates compute the same operation on the same two wires.
pub open spec fn single_gates(gates: Seq<Gate>) -> bool {
    forall|g: int, h: int, input_a: usize, input_b: usize, op: Op|
        0 <= g < gates.len() && 0 <= h < gates.len() && #[trigger] computes(
            gates[g],
            input_a,
            input_b,
            op,
        ) && #[trigger] computes(gates[h], input_a, input_b, op) ==> g == h
}

/// The gates add from the bit `n` on, as an adder with carry does: the two
/// inputs of the bit go through an exclusive or and an and; with no carry
/// coming in, the first is the first output and the second the carry; with
/// a carry, the exclusive or of it and the first is the output of the bit,
/// and the carry is the or of the two ands.
pub open spec fn adds_from(
    gates: Seq<Gate>,
    inputs: Seq<(usize, usize)>,
    z_wires: Seq<usize>,
    n: int,
    carry: Option<usize>,
) -> bool
    decreases inputs.len() - n,
{
    if n >= inputs.len() || n < 0 {
        true
    } else {
        let (x, y) = inputs[n];
        let half = gates[the_gate(gates, x, y, Op::Xor)].3;
        let both = gates[the_gate(gates, x, y, Op::And)].3;
        &&& has_gate(gates, x, y, Op::Xor)
        &&& has_gate(gates, x, y, Op::And)
        &&& n < z_wires.len()
        &&& match carry {
            None => half == z_wires[0] && adds_from(gates, inputs, z_wires, n + 1, Some(both)),
            Some(carried) => {
                let over = gates[the_gate(gates, carried, half, Op::And)].3;
                &&& has_gate(gates, carried, half, Op::Xor)
                &&& gates[the_gate(gates, carried, half, Op::Xor)].3 == z_wires[n]
                &&& has_gate(gates, carried, half, Op::And)
                &&& has_gate(gates, both, over, Op::Or)
                &&& adds_from(
                    gates,
                    inputs,
                    z_wires,
                    n + 1,
                    Some(gates[the_gate(gates, both, over, Op::Or)].3),
                )
            },
        }
    }
}

/// Where a gate computes the operation on two wires, and no other does,
/// that gate is found, and nothing is exchanged.
pub proof fn lemma_actual_direct(
    gates: Seq<Gate>,
    swaps: Seq<usize>,
    input_a: usize,
    input_b: usize,
    op: Op,
    wire_usages: Seq<Vec<(usize, u8)>>,
    origin_map: Seq<Option<usize>>,
)
    requires
        uses_named(gates, wire_usages),
        table_full(gates, wire_usages),
        all_wired(gates),
        single_gates(gates),
        input_a < wire_usages.len(),
        input_b < wire_usages.len(),
        has_gate(gates, input_a, input_b, op),
    ensures
        actual_gate(gates, swaps, input_a, input_b, op, wire_usages, origin_map) == Some(
            (the_gate(gates, input_a, input_b, op) as usize, gates, swaps),
        ),
        0 <= the_gate(gates, input_a, input_b, op) < gates.len(),
        the_gate(gates, input_a, input_b, op) as usize == the_gate(gates, input_a, input_b, op),
{
    reveal(actual_gate);
    let wanted = the_gate(gates, input_a, input_b, op);
    let shown = direct_from(
        gates,
        wire_usages[input_a as int]@,
        wire_usages[input_b as int]@,
        op,
        0,
    );
    assert(computes(gates[wanted], input_a, input_b, op));
    if shown is None {
        lemma_no_direct_gate(gates, wire_usages, input_a, input_b, op, wanted);
    } else {
        lemma_direct_found(gates, wire_usages, input_a, input_b, op, 0);
        assert(computes(gates[shown->0 as int], input_a, input_b, op));
        assert(shown->0 as int == wanted);
    }
}

/// A circuit that adds is followed to its end with nothing exchanged.
pub proof fn lemma_mend_adder(
    gates: Seq<Gate>,
    swaps: Seq<usize>,
    inputs: Seq<(usize, usize)>,
    n: int,
    carry: Option<usize>,
    z_wires: Seq<usize>,
    wire_usages: Seq<Vec<(usize, u8)>>,
    origin_map: Seq<Option<usize>>,
)
    requires
        uses_named(gates, wire_usages),
        table_full(gates, wire_usages),
        all_wired(gates),
        single_gates(gates),
        wires_known(gates, wire_usages.len() as int),
        forall|i: int|
            0 <= i < inputs.len() ==> (#[trigger] inputs[i]).0 < wire_usages.len() && inputs[i].1
                < wire_usages.len(),
        carry matches Some(carried) ==> carried < wire_usages.len(),
        0 <= n,
        carry is None ==> n == 0,
        adds_from(gates, inputs, z_wires, n, carry),
    ensures
        mend(gates, swaps, inputs, n, carry, z_wires, wire_usages, origin_map) == Some(swaps),
    decreases inputs.len() - n,
{
    if n < inputs.len() {
        let (x, y) = inputs[n];
        let first_xor = the_gate(gates, x, y, Op::Xor);
        let first_and = the_gate(gates, x, y, Op::And);
        lemma_actual_direct(gates, swaps, x, y, Op::Xor, wire_usages, origin_map);
        lemma_actual_direct(gates, swaps, x, y, Op::And, wire_usages, origin_map);
        let half = gates[first_xor].3;
        let both = gates[first_and].3;
        assert(half < wire_usages.len() && both < wire_usages.len());
        match carry {
            None => {
                assert(mend_bit(gates, swaps, x, y, carry, n, z_wires, wire_usages, origin_map)
                    == Some((gates, swaps, both)));
                lemma_mend_adder(
                    gates,
                    swaps,
                    inputs,
                    n + 1,
                    Some(both),
                    z_wires,
                    wire_usages,
                    origin_map,
                );
            },
            Some(carried) => {
                let second_xor = the_gate(gates, carried, half, Op::Xor);
                let second_and = the_gate(gates, carried, half, Op::And);
                lemma_actual_direct(gates, swaps, carried, half, Op::Xor, wire_usages, origin_map);
                lemma_actual_direct(gates, swaps, carried, half, Op::And, wire_usages, origin_map);
                let over = gates[second_and].3;
                assert(over < wire_usages.len());
                let or_gate = the_gate(gates, both, over, Op::Or);
                lemma_actual_direct(gates, swaps, both, over, Op::Or, wire_usages, origin_map);
                let out = gates[or_gate].3;
                assert(out < wire_usages.len());
                assert(mend_carry(
                    gates,
                    swaps,
                    first_xor as usize,
                    first_and as usize,
                    carried,
                    n,
                    z_wires,
                    wire_usages,
                    origin_map,
                ) == Some((gates, swaps, out)));
                assert(mend_bit(gates, swaps, x, y, carry, n, z_wires, wire_usages, origin_map)
                    == Some((gates, swaps, out)));
                lemma_mend_adder(
                    gates,
                    swaps,
                    inputs,
                    n + 1,
                    Some(out),
                    z_wires,
                    wire_usages,
                    origin_map,
                );
            },
        }
    }
}

/// Looks for a gate that computes `op` on the two wires. Where the
/// tables show none, one of the two wires has been mistaken for another:
/// a gate that computes `op` on the other one is taken, and the wire
/// that it uses is exchanged for the one looked for, which is written down
/// in `swaps`. Nothing is returned where both wires or none have a gate
/// that would do.
pub fn find_actual_gate(
    input_a: usize,
    input_b: usize,
    op: Op,
    gates: &mut Vec<Gate>,
    swaps: &mut Vec<usize>,
    wire_usages: &Vec<Vec<(usize, u8)>>,
    origin_map: &Vec<Option<usize>>,
) -> (gate: Option<usize>)
    requires
        tables_valid(old(gates)@, wire_usages@, origin_map@),
        all_wired(old(gates)@),
        input_a < wire_usages@.len(),
        input_b < wire_usages@.len(),
        wires_known(old(gates)@, wire_usages@.len() as int),
        wires_listed(old(swaps)@, wire_usages@.len() as int),
    ensures
        wires_listed(final(swaps)@, wire_usages@.len() as int),
        gate matches Some(gate_idx) ==> gate_idx < final(gates)@.len(),
        wires_known(final(gates)@, wire_usages@.len() as int),
        final(gates)@.len() == old(gates)@.len(),
        tables_valid(final(gates)@, wire_usages@, origin_map@),
        all_wired(final(gates)@),
        final(swaps)@.len() == old(swaps)@.len() || final(swaps)@.len() == old(swaps)@.len() + 2,
        final(swaps)@.len() == old(swaps)@.len() ==> final(gates)@ == old(gates)@,
        forall|i: int| 0 <= i < old(swaps)@.len() ==> final(swaps)@[i] == old(swaps)@[i],
        match actual_gate(
            old(gates)@,
            old(swaps)@,
            input_a,
            input_b,
            op,
            wire_usages@,
            origin_map@,
        ) {
            Some((found, after, exchanged)) => gate == Some(found) && final(gates)@ == after
                && final(swaps)@ == exchanged,
            None => gate is None && final(gates)@ == old(gates)@ && final(swaps)@ == old(swaps)@,
        },
{
    reveal(actual_gate);
    let mut gate_idx_opt: Option<usize> = None;

    let usages_a = &wire_usages[input_a];
    let usages_b = &wire_usages[input_b];
    let mut k: usize = 0;
    while k < usages_a.len()
        invariant_except_break
            gate_idx_opt is None,
            direct_from(gates@, usages_a@, usages_b@, op, k as int) == direct_from(
                gates@,
                usages_a@,
                usages_b@,
                op,
                0,
            ),
        invariant
            k <= usages_a.len(),
            *usages_a == wire_usages@[input_a as int],
            *usages_b == wire_usages@[input_b as int],
            gates@ == old(gates)@,
            swaps@ == old(swaps)@,
            input_a < wire_usages@.len(),
            tables_valid(gates@, wire_usages@, origin_map@),
            gate_idx_opt matches Some(found) ==> found < gates@.len(),
        ensures
            gate_idx_opt matches Some(found) ==> found < gates@.len(),
            gate_idx_opt == direct_from(gates@, usages_a@, usages_b@, op, 0),
        decreases usages_a.len() - k,
    {
        let (gate_idx, input_idx) = usages_a[k];
        assert(wire_usages@[input_a as int]@[k as int].1 < 2);
        if uses_contain(usages_b, gate_idx, 1 - input_idx) {
            let gate = gates[gate_idx];

            if gate.2 == op {
                gate_idx_opt = Some(gate_idx);
                break ;
            }
        }
        k += 1;
    }

    match gate_idx_opt {
        None => {
            let replacement_b = find_replacement(input_a, input_b, op, gates);
            let replacement_a = find_replacement(input_b, input_a, op, gates);

            match (replacement_a, replacement_b) {
                (Some(_), Some(_)) => None,
                (Some((replacement, gate_idx)), None) => {
                    assert(partner_of(gates@[gate_idx as int], input_b) == GateInput::Wire(
                        replacement,
                    ));
                    swaps.push(input_a);
                    swaps.push(replacement);
                    swap(gates, wire_usages, origin_map, input_a, replacement);
                    Some(gate_idx)
                },
                (None, Some((replacement, gate_idx))) => {
                    assert(partner_of(gates@[gate_idx as int], input_a) == GateInput::Wire(
                        replacement,
                    ));
                    swaps.push(input_b);
                    swaps.push(replacement);
                    swap(gates, wire_usages, origin_map, input_b, replacement);

                    Some(gate_idx)
                },
                (None, None) => None,
            }
        },
        Some(gate_idx) => Some(gate_idx),
    }
}

/// Follows one bit of the adder: finds its gates, exchanges wires where a
/// gate is not found, and returns the wire of the carry.
fn follow_bit(
    gates: &mut Vec<Gate>,
    swaps: &mut Vec<usize>,
    x_input: usize,
    y_input: usize,
    carry_wire_opt: Option<usize>,
    n: usize,
    z_wires: &Vec<usize>,
    wire_usages: &Vec<Vec<(usize, u8)>>,
    origin_map: &Vec<Option<usize>>,
) -> (carry: Option<usize>)
    requires
        tables_valid(old(gates)@, wire_usages@, origin_map@),
        all_wired(old(gates)@),
        wires_known(old(gates)@, wire_usages@.len() as int),
        x_input < wire_usages@.len(),
        y_input < wire_usages@.len(),
        carry_wire_opt matches Some(carry_wire) ==> carry_wire < wire_usages@.len(),
        forall|i: int| 0 <= i < z_wires@.len() ==> (#[trigger] z_wires@[i]) < wire_usages@.len(),
        old(swaps)@.len() % 2 == 0,
        wires_listed(old(swaps)@, wire_usages@.len() as int),
    ensures
        wires_listed(final(swaps)@, wire_usages@.len() as int),
        tables_valid(final(gates)@, wire_usages@, origin_map@),
        all_wired(final(gates)@),
        wires_known(final(gates)@, wire_usages@.len() as int),
        final(swaps)@.len() % 2 == 0,
        carry matches Some(carry_wire) ==> carry_wire < wire_usages@.len(),
        match mend_bit(
            old(gates)@,
            old(swaps)@,
            x_input,
            y_input,
            carry_wire_opt,
            n as int,
            z_wires@,
            wire_usages@,
            origin_map@,
        ) {
            Some((after, exchanged, carry_wire)) => carry == Some(carry_wire) && final(gates)@
                == after && final(swaps)@ == exchanged,
            None => carry is None,
        },
{
    let ghost wires = wire_usages@.len() as int;
    let first_xor_gate = match find_actual_gate(
        x_input,
        y_input,
        Op::Xor,
        gates,
        swaps,
        wire_usages,
        origin_map,
    ) {
        Some(gate) => gate,
        None => {
            return None;
        },
    };
    let first_and_gate = match find_actual_gate(
        x_input,
        y_input,
        Op::And,
        gates,
        swaps,
        wire_usages,
        origin_map,
    ) {
        Some(gate) => gate,
        None => {
            return None;
        },
    };

    assert(gates@[first_xor_gate as int].3 < wires);
    let first_xor_output = gates[first_xor_gate].3;

    match carry_wire_opt {
        Some(carry_wire) => {
            let second_xor_gate = match find_actual_gate(
                carry_wire,
                first_xor_output,
                Op::Xor,
                gates,
                swaps,
                wire_usages,
                origin_map,
            ) {
                Some(gate) => gate,
                None => {
                    return None;
                },
            };
            assert(gates@[first_xor_gate as int].3 < wires);

            let second_and_gate = match find_actual_gate(
                carry_wire,
                gates[first_xor_gate].3,
                Op::And,
                gates,
                swaps,
                wire_usages,
                origin_map,
            ) {
                Some(gate) => gate,
                None => {
                    return None;
                },
            };

            assert(gates@[second_xor_gate as int].3 < wires);
            let actual_output = gates[second_xor_gate].3;

            if n >= z_wires.len() {
                return None;
            }
            let expected_output = z_wires[n];
            if actual_output != expected_output {
                swap(gates, wire_usages, origin_map, actual_output, expected_output);
                swaps.push(actual_output);
                swaps.push(expected_output);
            }
            assert(gates@[second_and_gate as int].3 < wires);
            assert(gates@[first_and_gate as int].3 < wires);

            let second_and_output = gates[second_and_gate].3;
            let first_and_output = gates[first_and_gate].3;

            let or_gate = match find_actual_gate(
                first_and_output,
                second_and_output,
                Op::Or,
                gates,
                swaps,
                wire_usages,
                origin_map,
            ) {
                Some(gate) => gate,
                None => {
                    return None;
                },
            };
            assert(gates@[or_gate as int].3 < wires);

            Some(gates[or_gate].3)
        },
        None => {
            assert(gates@[first_and_gate as int].3 < wires);
            let first_and_output = gates[first_and_gate].3;
            if z_wires.len() == 0 || first_xor_output != z_wires[0] {
                return None;
            }
            Some(first_and_output)
        },
    }
}

/// Finds the wires that have to be exchanged to make the circuit an
/// adder. `inputs` holds, bit by bit, the two wires of the numbers to add,
/// and `z_wires` the wires on which the bits of the sum are expected.
///
/// The adder is followed from the lowest bit upwards; wherever a gate that
/// it needs is not found, two wires are exchanged and written down. The
/// wires written down are returned in the order in which they were found,
/// or nothing where the circuit cannot be followed.
pub fn find_swaps(
    gates: Vec<Gate>,
    inputs: &Vec<(usize, usize)>,
    z_wires: &Vec<usize>,
    wire_usages: &Vec<Vec<(usize, u8)>>,
    origin_map: &Vec<Option<usize>>,
) -> (found: Option<Vec<usize>>)
    requires
        tables_valid(gates@, wire_usages@, origin_map@),
        all_wired(gates@),
        wires_known(gates@, wire_usages@.len() as int),
        forall|i: int|
            0 <= i < inputs@.len() ==> (#[trigger] inputs@[i]).0 < wire_usages@.len() && inputs@[i].1
                < wire_usages@.len(),
        forall|i: int| 0 <= i < z_wires@.len() ==> (#[trigger] z_wires@[i]) < wire_usages@.len(),
    ensures
        found matches Some(list) ==> list@.len() % 2 == 0 && wires_listed(
            list@,
            wire_usages@.len() as int,
        ),
        match found {
            Some(list) => mend(
                gates@,
                Seq::empty(),
                inputs@,
                0,
                None,
                z_wires@,
                wire_usages@,
                origin_map@,
            ) == Some(list@),
            None => mend(
                gates@,
                Seq::empty(),
                inputs@,
                0,
                None,
                z_wires@,
                wire_usages@,
                origin_map@,
            ) is None,
        },
{
    let ghost given = gates@;
    let mut circuit = gates;
    let mut swaps: Vec<usize> = Vec::new();
    let ghost wires = wire_usages@.len() as int;

    let mut n: usize = 0;

    let mut carry_wire_opt: Option<usize> = None;

    while n < inputs.len()
        invariant
            given == gates@,
            n <= inputs.len(),
            wires == wire_usages@.len(),
            tables_valid(circuit@, wire_usages@, origin_map@),
            all_wired(circuit@),
            wires_known(circuit@, wires),
            forall|i: int|
                0 <= i < inputs@.len() ==> (#[trigger] inputs@[i]).0 < wires && inputs@[i].1
                    < wires,
            forall|i: int| 0 <= i < z_wires@.len() ==> (#[trigger] z_wires@[i]) < wires,
            carry_wire_opt matches Some(carry_wire) ==> carry_wire < wires,
            swaps@.len() % 2 == 0,
            wires_listed(swaps@, wires),
            mend(given, Seq::empty(), inputs@, 0, None, z_wires@, wire_usages@, origin_map@)
                == mend(
                circuit@,
                swaps@,
                inputs@,
                n as int,
                carry_wire_opt,
                z_wires@,
                wire_usages@,
                origin_map@,
            ),
        decreases inputs.len() - n,
    {
        let (x_input, y_input) = inputs[n];
        let ghost gates_before = circuit@;
        let ghost swaps_before = swaps@;
        let ghost whole = mend(
            gates_before,
            swaps_before,
            inputs@,
            n as int,
            carry_wire_opt,
            z_wires@,
            wire_usages@,
            origin_map@,
        );
        let ghost bit = mend_bit(
            gates_before,
            swaps_before,
            x_input,
            y_input,
            carry_wire_opt,
            n as int,
            z_wires@,
            wire_usages@,
            origin_map@,
        );
        proof {
            assert(inputs@[n as int] == (x_input, y_input));
            assert(whole == match bit {
                None => None,
                Some((after, exchanged, carry_wire)) => mend(
                    after,
                    exchanged,
                    inputs@,
                    n + 1,
                    Some(carry_wire),
                    z_wires@,
                    wire_usages@,
                    origin_map@,
                ),
            });
        }
        match follow_bit(
            &mut circuit,
            &mut swaps,
            x_input,
            y_input,
            carry_wire_opt,
            n,
            z_wires,
            wire_usages,
            origin_map,
        ) {
            Some(carry_wire) => {
                carry_wire_opt = Some(carry_wire);
            },
            None => {
                assert(bit is None);
                assert(whole is None);
                return None;
            },
        }
        n += 1;
    }

    Some(swaps)
}

} // verus!
