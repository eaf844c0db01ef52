//! Reading the drawing of a circuit: the wires get numbers in the order in
//! which their names appear, and the tables that the circuit is run and
//! mended with are made from the gates.

use vstd::prelude::*;
use vstd::slice::slice_subrange;
use crate::circuit::{
    all_wired, driven_once, input_of, listed, mend, op_named, table_full, tables_valid, uses_named,
    well_made, wire_of, wires_known, wires_listed, Gate, GateInput, Op,
};
use crate::network::{join_names, joined, names_sorted, sort_names};
use crate::text::{
    copy_part, copy_whole, grid_view,
    block_end, find_block_end, lines_of, parse_number, spelled, split_lines,
    split_words, words_of,
};

verus! {

/// A circuit as it was read.
pub struct Wiring {
    /// The names of the wires, by their numbers.
    pub names: Vec<Vec<u8>>,
    /// The wires that have a value from the beginning, and their values.
    pub initials: Vec<(usize, bool)>,
    /// The gates.
    pub gates: Vec<Gate>,
    /// For each wire the inputs that it feeds: a gate's number and which of
    /// its two inputs.
    pub wire_usages: Vec<Vec<(usize, u8)>>,
    /// For each wire the number of its driving gate, if it has one.
    pub origin_map: Vec<Option<usize>>,
}

/// The names as sequences of bytes.
pub open spec fn names_of(names: Seq<Vec<u8>>) -> Seq<Seq<u8>> {
    Seq::new(names.len(), |i: int| names[i]@)
}

/// Where a colon that a blank follows stands first from `from` on and
/// before `to`; `to` where there is none.
pub open spec fn first_colon(text: Seq<u8>, from: int, to: int) -> int
    decreases to - from,
{
    if from + 1 >= to {
        to
    } else if text[from] == 0x3a && text[from + 1] == 0x20 {
        from
    } else {
        first_colon(text, from + 1, to)
    }
}

/// What a line says of a wire that has a value from the beginning: the name
/// before the first colon and blank, and after them 0 or 1.
pub open spec fn initial_line(text: Seq<u8>, line: (usize, usize)) -> Option<(Seq<u8>, bool)> {
    let sep = first_colon(text, line.0 as int, line.1 as int);
    if sep >= line.1 || sep < line.0 {
        None
    } else {
        match spelled(text.subrange(sep + 2, line.1 as int)) {
            Some(value) => if value <= 1 {
                Some((text.subrange(line.0 as int, sep), value == 1))
            } else {
                None
            },
            None => None,
        }
    }
}

/// The word of the text.
pub open spec fn word(text: Seq<u8>, part: (usize, usize)) -> Seq<u8> {
    text.subrange(part.0 as int, part.1 as int)
}

/// What a line says of a gate: five words, the names of its two inputs
/// with its operation between them, an arrow and the name of the wire that
/// it drives.
pub open spec fn gate_line(text: Seq<u8>, line: (usize, usize)) -> Option<
    (Seq<u8>, Op, Seq<u8>, Seq<u8>),
> {
    let words = words_of(text, line.0 as int, line.1 as int);
    if words.len() == 5 && word(text, words[3]) == seq![0x2du8, 0x3eu8] {
        match op_named(word(text, words[1])) {
            Some(op) => Some((word(text, words[0]), op, word(text, words[2]), word(text, words[4]))),
            None => None,
        }
    } else {
        None
    }
}

/// The inputs that the wire feeds among the first `upto` gates, in the
/// order of the gates.
pub open spec fn usages_upto(gates: Seq<Gate>, wire: usize, upto: int) -> Seq<(usize, u8)>
    decreases upto,
{
    if upto <= 0 {
        Seq::empty()
    } else {
        let before = usages_upto(gates, wire, upto - 1);
        let gate = gates[upto - 1];
        let first = if gate.0 == GateInput::Wire(wire) {
            before.push(((upto - 1) as usize, 0u8))
        } else {
            before
        };
        if gate.1 == GateInput::Wire(wire) {
            first.push(((upto - 1) as usize, 1u8))
        } else {
            first
        }
    }
}

/// Every use among those of the first `upto` gates names an input that the
/// wire feeds, and every input of these gates that the wire feeds is among
/// the uses.
pub proof fn lemma_usages_upto(gates: Seq<Gate>, wire: usize, upto: int)
    requires
        0 <= upto <= gates.len(),
        gates.len() <= usize::MAX,
    ensures
        forall|k: int|
            0 <= k < usages_upto(gates, wire, upto).len() ==> (#[trigger] usages_upto(
                gates,
                wire,
                upto,
            )[k]).0 < upto && usages_upto(gates, wire, upto)[k].1 < 2 && input_of(
                gates[usages_upto(gates, wire, upto)[k].0 as int],
                usages_upto(gates, wire, upto)[k].1 as int,
            ) == GateInput::Wire(wire),
        forall|g: int|
            0 <= g < upto ==> ((#[trigger] gates[g]).0 == GateInput::Wire(wire) ==> listed(
                usages_upto(gates, wire, upto),
                g,
                0,
            )) && (gates[g].1 == GateInput::Wire(wire) ==> listed(
                usages_upto(gates, wire, upto),
                g,
                1,
            )),
    decreases upto,
{
    if upto > 0 {
        lemma_usages_upto(gates, wire, upto - 1);
        let before = usages_upto(gates, wire, upto - 1);
        let after = usages_upto(gates, wire, upto);
        let gate = gates[upto - 1];
        let first = if gate.0 == GateInput::Wire(wire) {
            before.push(((upto - 1) as usize, 0u8))
        } else {
            before
        };
        assert forall|g: int| 0 <= g < upto - 1 implies ((#[trigger] gates[g]).0 == GateInput::Wire(
            wire,
        ) ==> listed(after, g, 0)) && (gates[g].1 == GateInput::Wire(wire) ==> listed(after, g, 1)) by {
            if gates[g].0 == GateInput::Wire(wire) {
                let k = choose|k: int|
                    0 <= k < before.len() && (#[trigger] before[k]).0 == g && before[k].1 == 0;
                assert(after[k] == before[k]);
            }
            if gates[g].1 == GateInput::Wire(wire) {
                let k = choose|k: int|
                    0 <= k < before.len() && (#[trigger] before[k]).0 == g && before[k].1 == 1;
                assert(after[k] == before[k]);
            }
        }
        if gate.0 == GateInput::Wire(wire) {
            assert(after[before.len() as int] == ((upto - 1) as usize, 0u8));
        }
        if gate.1 == GateInput::Wire(wire) {
            assert(after[first.len() as int] == ((upto - 1) as usize, 1u8));
        }
        assert forall|k: int| 0 <= k < after.len() implies (#[trigger] after[k]).0 < upto && after[k].1
            < 2 && input_of(gates[after[k].0 as int], after[k].1 as int) == GateInput::Wire(wire) by {
            if k < before.len() {
                assert(after[k] == before[k]);
            }
        }
    }
}

/// A circuit with the tables made for it is well made, and its tables name
/// every input of every gate, where every wire is driven once at most.
pub proof fn lemma_tables_well_made(
    gates: Seq<Gate>,
    initial_values: Seq<(usize, bool)>,
    wire_usages: Seq<Vec<(usize, u8)>>,
    origin_map: Seq<Option<usize>>,
)
    requires
        tables_made(gates, wire_usages.len() as int, wire_usages, origin_map),
        all_wired(gates),
        wires_known(gates, wire_usages.len() as int),
        gates.len() <= usize::MAX,
        wire_usages.len() <= usize::MAX,
        forall|i: int|
            0 <= i < initial_values.len() ==> (#[trigger] initial_values[i]).0 < wire_usages.len(),
        driven_once(gates, initial_values),
    ensures
        well_made(gates, initial_values, wire_usages),
        table_full(gates, wire_usages),
        uses_named(gates, wire_usages),
{
    let all = gates.len() as int;
    assert forall|w: int, k: int|
        0 <= w < wire_usages.len() && 0 <= k < wire_usages[w]@.len() implies (
    #[trigger] wire_usages[w]@[k]).0 < gates.len() && wire_usages[w]@[k].1 < 2 && input_of(
        gates[wire_usages[w]@[k].0 as int],
        wire_usages[w]@[k].1 as int,
    ) == GateInput::Wire(w as usize) by {
        lemma_usages_upto(gates, w as usize, all);
        assert(wire_usages[w]@ == usages_upto(gates, w as usize, all));
        assert(usages_upto(gates, w as usize, all)[k].0 < all);
    }
    assert forall|g: int| 0 <= g < gates.len() implies wire_of((#[trigger] gates[g]).0)
        < wire_usages.len() && wire_of(gates[g].1) < wire_usages.len() && listed(
        wire_usages[wire_of(gates[g].0) as int]@,
        g,
        0,
    ) && listed(wire_usages[wire_of(gates[g].1) as int]@, g, 1) by {
        let a = wire_of(gates[g].0);
        let b = wire_of(gates[g].1);
        assert(gates[g].0 == GateInput::Wire(a) && gates[g].1 == GateInput::Wire(b));
        lemma_usages_upto(gates, a, all);
        lemma_usages_upto(gates, b, all);
        assert(wire_usages[a as int]@ == usages_upto(gates, a, all));
        assert(wire_usages[b as int]@ == usages_upto(gates, b, all));
    }
}

/// The last of the first `upto` gates that drives the wire.
pub open spec fn origin_upto(gates: Seq<Gate>, wire: usize, upto: int) -> Option<usize>
    decreases upto,
{
    if upto <= 0 {
        None
    } else if gates[upto - 1].3 == wire {
        Some((upto - 1) as usize)
    } else {
        origin_upto(gates, wire, upto - 1)
    }
}

/// The tables are those of the gates.
pub open spec fn tables_made(
    gates: Seq<Gate>,
    wires: int,
    wire_usages: Seq<Vec<(usize, u8)>>,
    origin_map: Seq<Option<usize>>,
) -> bool {
    &&& wire_usages.len() == wires
    &&& origin_map.len() == wires
    &&& forall|w: int|
        0 <= w < wires ==> (#[trigger] wire_usages[w])@ == usages_upto(
            gates,
            w as usize,
            gates.len() as int,
        )
    &&& forall|w: int|
        0 <= w < wires ==> #[trigger] origin_map[w] == origin_upto(
            gates,
            w as usize,
            gates.len() as int,
        )
}

/// Makes the tables of the gates: for each wire the inputs that it feeds,
/// and its driving gate.
pub fn make_tables(gates: &Vec<Gate>, wires: usize) -> (tables: (
    Vec<Vec<(usize, u8)>>,
    Vec<Option<usize>>,
))
    ensures
        tables_made(gates@, wires as int, tables.0@, tables.1@),
        tables_valid(gates@, tables.0@, tables.1@),
{
    let mut wire_usages: Vec<Vec<(usize, u8)>> = Vec::new();
    let mut origin_map: Vec<Option<usize>> = Vec::new();
    let mut wire: usize = 0;
    while wire < wires
        invariant
            wire <= wires,
            tables_made(gates@, wire as int, wire_usages@, origin_map@),
            tables_valid(gates@, wire_usages@, origin_map@),
        decreases wires - wire,
    {
        let mut usages: Vec<(usize, u8)> = Vec::new();
        let mut origin: Option<usize> = None;
        let mut at: usize = 0;
        while at < gates.len()
            invariant
                at <= gates.len(),
                usages@ == usages_upto(gates@, wire, at as int),
                origin == origin_upto(gates@, wire, at as int),
                forall|k: int| 0 <= k < usages@.len() ==> (#[trigger] usages@[k]).0 < at && usages@[k].1 < 2,
                origin matches Some(gate) ==> gate < at,
            decreases gates.len() - at,
        {
            let gate = gates[at];
            if let GateInput::Wire(a) = gate.0 {
                if a == wire {
                    usages.push((at, 0));
                }
            }
            if let GateInput::Wire(b) = gate.1 {
                if b == wire {
                    usages.push((at, 1));
                }
            }
            if gate.3 == wire {
                origin = Some(at);
            }
            at += 1;
        }
        let ghost usages_before = wire_usages@;
        let ghost origins_before = origin_map@;
        wire_usages.push(usages);
        origin_map.push(origin);
        proof {
            assert forall|w: int, k: int|
                0 <= w < wire_usages@.len() && 0 <= k < wire_usages@[w]@.len() implies (
            #[trigger] wire_usages@[w]@[k]).0 < gates@.len() && wire_usages@[w]@[k].1 < 2 by {
                if w < usages_before.len() {
                    assert(wire_usages@[w] == usages_before[w]);
                    assert(usages_before[w]@[k].0 < gates@.len());
                }
            }
            assert forall|w: int| 0 <= w < origin_map@.len() implies ((#[trigger] origin_map@[w]) matches Some(
                origin,
            ) ==> origin < gates@.len()) by {
                if w < origins_before.len() {
                    assert(origin_map@[w] == origins_before[w]);
                }
            }
        }
        wire += 1;
    }
    (wire_usages, origin_map)
}

/// Whether the name is the part of the text.
fn is_part(name: &Vec<u8>, text: &[u8], from: usize, to: usize) -> (same: bool)
    requires
        from <= to <= text@.len(),
    ensures
        same == (name@ == text@.subrange(from as int, to as int)),
{
    let ghost part = text@.subrange(from as int, to as int);
    if name.len() != to - from {
        return false;
    }
    let mut at: usize = 0;
    while at < name.len()
        invariant
            at <= name.len(),
            name.len() == to - from,
            to <= text@.len(),
            part == text@.subrange(from as int, to as int),
            forall|i: int| 0 <= i < at ==> name@[i] == part[i],
        decreases name.len() - at,
    {
        if name[at] != text[from + at] {
            assert(name@[at as int] != part[at as int]);
            return false;
        }
        at += 1;
    }
    assert(name@ =~= part);
    true
}

/// The number of the wire with the name that stands in the text; a new
/// name gets the next number.
fn intern(names: &mut Vec<Vec<u8>>, text: &[u8], from: usize, to: usize) -> (wire: usize)
    requires
        from <= to <= text@.len(),
        names_of(old(names)@).no_duplicates(),
    ensures
        names_of(final(names)@).no_duplicates(),
        wire < final(names)@.len(),
        final(names)@[wire as int]@ == text@.subrange(from as int, to as int),
        old(names)@.len() <= final(names)@.len(),
        forall|i: int| 0 <= i < old(names)@.len() ==> final(names)@[i] == old(names)@[i],
{
    let mut at: usize = 0;
    while at < names.len()
        invariant
            at <= names.len(),
            *names == *old(names),
            names_of(names@).no_duplicates(),
            from <= to <= text@.len(),
            forall|i: int|
                0 <= i < at ==> names_of(names@)[i] != text@.subrange(from as int, to as int),
        decreases names.len() - at,
    {
        if is_part(&names[at], text, from, to) {
            return at;
        }
        at += 1;
    }
    let ghost before = names_of(names@);
    names.push(copy_part(text, from, to));
    proof {
        let after = names_of(names@);
        assert forall|i: int, j: int| 0 <= i < after.len() && 0 <= j < after.len() && i != j implies after[i]
            != after[j] by {
            if i < before.len() {
                assert(after[i] == before[i]);
            }
            if j < before.len() {
                assert(after[j] == before[j]);
            }
        }
    }
    at
}

/// The wiring shows what the lines say of the wires that have a value from
/// the beginning.
pub open spec fn initials_shown(
    text: Seq<u8>,
    lines: Seq<(usize, usize)>,
    names: Seq<Vec<u8>>,
    initials: Seq<(usize, bool)>,
) -> bool {
    &&& initials.len() == lines.len()
    &&& forall|i: int|
        0 <= i < lines.len() ==> (#[trigger] initials[i]).0 < names.len() && initial_line(
            text,
            lines[i],
        ) == Some((names[initials[i].0 as int]@, initials[i].1))
}

/// What a gate says, with the names of its wires.
pub open spec fn gate_named(names: Seq<Vec<u8>>, gate: Gate) -> Option<
    (Seq<u8>, Op, Seq<u8>, Seq<u8>),
> {
    match (gate.0, gate.1) {
        (GateInput::Wire(a), GateInput::Wire(b)) => if a < names.len() && b < names.len() && gate.3
            < names.len() {
            Some((names[a as int]@, gate.2, names[b as int]@, names[gate.3 as int]@))
        } else {
            None
        },
        _ => None,
    }
}

/// The wiring shows what the lines say of the gates.
pub open spec fn gates_shown(
    text: Seq<u8>,
    lines: Seq<(usize, usize)>,
    names: Seq<Vec<u8>>,
    gates: Seq<Gate>,
) -> bool {
    &&& gates.len() == lines.len()
    &&& forall|k: int|
        0 <= k < lines.len() ==> gate_named(names, #[trigger] gates[k]) is Some && gate_line(
            text,
            lines[k],
        ) == gate_named(names, gates[k])
}

/// The text is the drawing of a circuit: lines with the wires that have a
/// value from the beginning, an empty line, and lines with the gates.
pub open spec fn circuit_text(text: Seq<u8>) -> bool {
    let end = block_end(text, 0);
    &&& end + 2 <= text.len()
    &&& forall|i: int|
        0 <= i < lines_of(text, 0, end).len() ==> initial_line(
            text,
            #[trigger] lines_of(text, 0, end)[i],
        ) is Some
    &&& forall|k: int|
        0 <= k < lines_of(text, end + 2, text.len() as int).len() ==> gate_line(
            text,
            #[trigger] lines_of(text, end + 2, text.len() as int)[k],
        ) is Some
}

/// The wiring shows the circuit that the text draws.
pub open spec fn wiring_shows(text: Seq<u8>, wiring: Wiring) -> bool {
    let end = block_end(text, 0);
    &&& names_of(wiring.names@).no_duplicates()
    &&& initials_shown(text, lines_of(text, 0, end), wiring.names@, wiring.initials@)
    &&& gates_shown(text, lines_of(text, end + 2, text.len() as int), wiring.names@, wiring.gates@)
    &&& tables_made(
        wiring.gates@,
        wiring.names@.len() as int,
        wiring.wire_usages@,
        wiring.origin_map@,
    )
    &&& tables_valid(wiring.gates@, wiring.wire_usages@, wiring.origin_map@)
    &&& all_wired(wiring.gates@)
    &&& wires_known(wiring.gates@, wiring.names@.len() as int)
}

/// Reads the drawing of a circuit. Nothing is read where the text is no
/// such drawing.
pub fn read_circuit(text: &[u8]) -> (read: Option<Wiring>)
    ensures
        read is Some == circuit_text(text@),
        read matches Some(wiring) ==> wiring_shows(text@, wiring),
{
    let end = find_block_end(text, 0);
    if text.len() - end < 2 {
        return None;
    }
    let first = split_lines(text, 0, end);
    let second = split_lines(text, end + 2, text.len());
    let mut names: Vec<Vec<u8>> = Vec::new();
    let mut initials: Vec<(usize, bool)> = Vec::new();
    let mut at: usize = 0;
    while at < first.len()
        invariant
            at <= first.len(),
            end == block_end(text@, 0),
            end + 2 <= text@.len(),
            first@ == lines_of(text@, 0, end as int),
            forall|i: int| 0 <= i < first@.len() ==> 0 <= (#[trigger] first@[i]).0 <= first@[i].1 <= end,
            names_of(names@).no_duplicates(),
            initials@.len() == at,
            forall|i: int|
                0 <= i < at ==> (#[trigger] initials@[i]).0 < names@.len() && initial_line(
                    text@,
                    first@[i],
                ) == Some((names@[initials@[i].0 as int]@, initials@[i].1)),
        decreases first.len() - at,
    {
        let (from, to) = first[at];
        let mut sep = from;
        while to - sep > 1 && !(text[sep] == 0x3a && text[sep + 1] == 0x20)
            invariant
                from <= sep <= to <= text@.len(),
                first_colon(text@, sep as int, to as int) == first_colon(text@, from as int, to as int),
            decreases to - sep,
        {
            sep += 1;
        }
        if to - sep <= 1 {
            assert(initial_line(text@, first@[at as int]) is None);
            return None;
        }
        let value = match parse_number(text, sep + 2, to) {
            Some(value) => value,
            None => {
                assert(initial_line(text@, first@[at as int]) is None);
                return None;
            },
        };
        if value > 1 {
            assert(initial_line(text@, first@[at as int]) is None);
            return None;
        }
        let ghost names_before = names@;
        let wire = intern(&mut names, text, from, sep);
        initials.push((wire, value == 1));
        proof {
            assert forall|i: int| 0 <= i < at + 1 implies (#[trigger] initials@[i]).0 < names@.len()
                && initial_line(text@, first@[i]) == Some(
                (names@[initials@[i].0 as int]@, initials@[i].1),
            ) by {
                if i < at {
                    assert(names@[initials@[i].0 as int] == names_before[initials@[i].0 as int]);
                }
            }
        }
        at += 1;
    }
    let mut gates: Vec<Gate> = Vec::new();
    let mut k: usize = 0;
    while k < second.len()
        invariant
            k <= second.len(),
            end == block_end(text@, 0),
            end + 2 <= text@.len(),
            second@ == lines_of(text@, end + 2, text@.len() as int),
            forall|i: int|
                0 <= i < second@.len() ==> end + 2 <= (#[trigger] second@[i]).0 <= second@[i].1
                    <= text@.len(),
            names_of(names@).no_duplicates(),
            initials@.len() == first@.len(),
            forall|i: int|
                0 <= i < first@.len() ==> (#[trigger] initials@[i]).0 < names@.len() && initial_line(
                    text@,
                    first@[i],
                ) == Some((names@[initials@[i].0 as int]@, initials@[i].1)),
            gates@.len() == k,
            forall|g: int|
                0 <= g < k ==> gate_named(names@, #[trigger] gates@[g]) is Some && gate_line(
                    text@,
                    second@[g],
                ) == gate_named(names@, gates@[g]),
        decreases second.len() - k,
    {
        let (from, to) = second[k];
        let words = split_words(text, from, to);
        if words.len() != 5 {
            assert(gate_line(text@, second@[k as int]) is None);
            return None;
        }
        let arrow = words[3];
        if !(arrow.1 - arrow.0 == 2 && text[arrow.0] == 0x2d && text[arrow.0 + 1] == 0x3e) {
            proof {
                let shown = word(text@, words@[3]);
                if shown == seq![0x2du8, 0x3eu8] {
                    assert(shown.len() == 2);
                    assert(shown[0] == text@[arrow.0 as int] && shown[1] == text@[arrow.0 + 1]);
                }
                assert(gate_line(text@, second@[k as int]) is None);
            }
            return None;
        }
        assert(word(text@, words@[3]) =~= seq![0x2du8, 0x3eu8]);
        let op = match Op::try_from(slice_subrange(text, words[1].0, words[1].1)) {
            Some(op) => op,
            None => {
                assert(gate_line(text@, second@[k as int]) is None);
                return None;
            },
        };
        let ghost names_before = names@;
        let a = intern(&mut names, text, words[0].0, words[0].1);
        let ghost names_a = names@;
        let b = intern(&mut names, text, words[2].0, words[2].1);
        let ghost names_b = names@;
        let output = intern(&mut names, text, words[4].0, words[4].1);
        gates.push((GateInput::Wire(a), GateInput::Wire(b), op, output));
        proof {
            assert(names@[a as int] == names_a[a as int]) by {
                assert(names_b[a as int] == names_a[a as int]);
            }
            assert(names@[b as int] == names_b[b as int]);
            assert forall|i: int| 0 <= i < names_before.len() implies names@[i] == names_before[i] by {
                assert(names_a[i] == names_before[i]);
                assert(names_b[i] == names_a[i]);
            }
            assert forall|g: int| 0 <= g < k + 1 implies gate_named(names@, #[trigger] gates@[g])
                is Some && gate_line(text@, second@[g]) == gate_named(names@, gates@[g]) by {
                if g < k {
                    assert(gate_named(names_before, gates@[g]) is Some);
                    assert(gate_named(names@, gates@[g]) == gate_named(names_before, gates@[g]));
                }
            }
        }
        k += 1;
    }
    let (wire_usages, origin_map) = make_tables(&gates, names.len());
    proof {
        assert forall|g: int| 0 <= g < gates@.len() implies (#[trigger] gates@[g]).0 is Wire
            && gates@[g].1 is Wire && gates@[g].3 < names@.len() && (gates@[g].0 matches GateInput::Wire(
            w,
        ) ==> w < names@.len()) && (gates@[g].1 matches GateInput::Wire(w) ==> w < names@.len()) by {
            assert(gate_named(names@, gates@[g]) is Some);
        }
        assert forall|i: int| 0 <= i < first@.len() implies initial_line(text@, #[trigger] first@[i])
            is Some by {
            assert(initials@[i].0 < names@.len());
        }
        assert forall|g: int| 0 <= g < second@.len() implies gate_line(
            text@,
            #[trigger] second@[g],
        ) is Some by {
            assert(gate_named(names@, gates@[g]) is Some);
        }
    }
    Some(Wiring { names, initials, gates, wire_usages, origin_map })
}

/// The names of the wires with the given numbers.
pub open spec fn names_at(names: Seq<Vec<u8>>, wires: Seq<usize>) -> Seq<Seq<u8>> {
    Seq::new(wires.len(), |i: int| names[wires[i] as int]@)
}

/// The wires that gates drive and whose names begin with the letter z, in
/// the order of the first `upto` gates.
pub open spec fn z_driven(names: Seq<Vec<u8>>, gates: Seq<Gate>, upto: int) -> Seq<usize>
    decreases upto,
{
    if upto <= 0 {
        Seq::empty()
    } else {
        let before = z_driven(names, gates, upto - 1);
        let wire = gates[upto - 1].3;
        if names[wire as int]@.len() > 0 && names[wire as int]@[0] == 0x7a {
            before.push(wire)
        } else {
            before
        }
    }
}

/// The number of the wire with the name, if there is one.
pub fn find_wire(names: &Vec<Vec<u8>>, name: &Vec<u8>) -> (wire: Option<usize>)
    ensures
        match wire {
            Some(found) => found < names@.len() && names@[found as int]@ == name@ && forall|i: int|
                0 <= i < found ==> names@[i]@ != name@,
            None => forall|i: int| 0 <= i < names@.len() ==> names@[i]@ != name@,
        },
{
    let mut at: usize = 0;
    while at < names.len()
        invariant
            at <= names.len(),
            forall|i: int| 0 <= i < at ==> names@[i]@ != name@,
        decreases names.len() - at,
    {
        if is_part(&names[at], name.as_slice(), 0, name.len()) {
            assert(name@.subrange(0, name@.len() as int) =~= name@);
            return Some(at);
        }
        assert(name@.subrange(0, name@.len() as int) =~= name@);
        at += 1;
    }
    None
}

/// The output wires of the circuit: the wires that gates drive and whose
/// names begin with the letter z, from the last name to the first in the
/// order of names, so that the wire of the highest bit comes first.
pub fn output_wires(names: &Vec<Vec<u8>>, gates: &Vec<Gate>) -> (outputs: Vec<usize>)
    requires
        names_of(names@).no_duplicates(),
        wires_known(gates@, names@.len() as int),
    ensures
        forall|i: int| 0 <= i < outputs@.len() ==> (#[trigger] outputs@[i]) < names@.len(),
        names_sorted(names_at(names@, outputs@).reverse()),
        names_at(names@, outputs@).to_multiset() == names_at(
            names@,
            z_driven(names@, gates@, gates@.len() as int),
        ).to_multiset(),
{
    let mut list: Vec<Vec<u8>> = Vec::new();
    let ghost mut driven: Seq<usize> = Seq::empty();
    let mut at: usize = 0;
    while at < gates.len()
        invariant
            at <= gates.len(),
            wires_known(gates@, names@.len() as int),
            driven == z_driven(names@, gates@, at as int),
            forall|i: int| 0 <= i < driven.len() ==> (#[trigger] driven[i]) < names@.len(),
            grid_view(list@) == names_at(names@, driven),
        decreases gates.len() - at,
    {
        let wire = gates[at].3;
        assert(gates@[at as int].3 < names@.len());
        let name = &names[wire];
        if name.len() > 0 && name[0] == 0x7a {
            let ghost before = list@;
            list.push(copy_whole(name));
            proof {
                let driven_before = driven;
                driven = driven.push(wire);
                assert(grid_view(before).len() == before.len());
                assert(names_at(names@, driven_before).len() == driven_before.len());
                assert(before.len() == driven_before.len());
                assert(list@.len() == before.len() + 1);
                assert forall|i: int| 0 <= i < list@.len() implies grid_view(list@)[i] == names_at(
                    names@,
                    driven,
                )[i] by {
                    if i < before.len() {
                        assert(list@[i] == before[i]);
                        assert(grid_view(before)[i] == names_at(names@, driven_before)[i]);
                        assert(driven[i] == driven_before[i]);
                    } else {
                        assert(list@[i]@ == name@);
                        assert(driven[i] == wire);
                    }
                }
                assert(grid_view(list@) =~= names_at(names@, driven));
            }
        }
        at += 1;
    }
    let ghost unsorted = grid_view(list@);
    sort_names(&mut list);
    let ghost sorted = grid_view(list@);
    let mut outputs: Vec<usize> = Vec::new();
    let mut left: usize = list.len();
    proof {
        sorted.to_multiset_ensures();
        unsorted.to_multiset_ensures();
    }
    while left > 0
        invariant
            left <= list.len(),
            sorted == grid_view(list@),
            unsorted == names_at(names@, driven),
            sorted.to_multiset() == unsorted.to_multiset(),
            forall|i: int| 0 <= i < driven.len() ==> (#[trigger] driven[i]) < names@.len(),
            outputs@.len() == list.len() - left,
            forall|i: int| 0 <= i < outputs@.len() ==> (#[trigger] outputs@[i]) < names@.len(),
            forall|i: int|
                0 <= i < outputs@.len() ==> names@[(#[trigger] outputs@[i]) as int]@ == sorted[list.len()
                    - 1 - i],
        decreases left,
    {
        left -= 1;
        proof {
            sorted.to_multiset_ensures();
            unsorted.to_multiset_ensures();
            assert(sorted.contains(sorted[left as int]));
            assert(unsorted.to_multiset().count(sorted[left as int]) > 0);
            assert(unsorted.contains(sorted[left as int]));
            let i = choose|i: int| 0 <= i < unsorted.len() && unsorted[i] == sorted[left as int];
            assert(names@[driven[i] as int]@ == list@[left as int]@);
        }
        match find_wire(names, &list[left]) {
            Some(wire) => {
                outputs.push(wire);
            },
            None => {
                assert(false);
            },
        }
    }
    proof {
        let shown = names_at(names@, outputs@);
        assert(shown.reverse() =~= sorted);
        shown.lemma_reverse_to_multiset();
    }
    outputs
}

/// The names of the wires that were exchanged, in the order of names, with
/// a comma between each two.
pub fn swap_names(names: &Vec<Vec<u8>>, swaps: &Vec<usize>) -> (text: Vec<u8>)
    requires
        forall|i: int| 0 <= i < swaps@.len() ==> (#[trigger] swaps@[i]) < names@.len(),
    ensures
        exists|list: Seq<Seq<u8>>|
            names_sorted(list) && #[trigger] list.to_multiset() == names_at(
                names@,
                swaps@,
            ).to_multiset() && text@ == joined(list),
{
    let mut list: Vec<Vec<u8>> = Vec::new();
    let mut at: usize = 0;
    while at < swaps.len()
        invariant
            at <= swaps.len(),
            forall|i: int| 0 <= i < swaps@.len() ==> (#[trigger] swaps@[i]) < names@.len(),
            grid_view(list@) == names_at(names@, swaps@.take(at as int)),
        decreases swaps.len() - at,
    {
        let name = &names[swaps[at]];
        let ghost before = list@;
        list.push(copy_whole(name));
        proof {
            assert(grid_view(before).len() == before.len());
            assert(names_at(names@, swaps@.take(at as int)).len() == at);
            assert(before.len() == at);
            assert(list@.len() == at + 1);
            assert forall|i: int| 0 <= i < list@.len() implies grid_view(list@)[i] == names_at(
                names@,
                swaps@.take(at + 1),
            )[i] by {
                if i < before.len() {
                    assert(list@[i] == before[i]);
                    assert(grid_view(before)[i] == names_at(names@, swaps@.take(at as int))[i]);
                    assert(swaps@.take(at + 1)[i] == swaps@.take(at as int)[i]);
                } else {
                    assert(list@[i]@ == name@);
                    assert(swaps@.take(at + 1)[i] == swaps@[at as int]);
                }
            }
            assert(grid_view(list@) =~= names_at(names@, swaps@.take(at + 1)));
        }
        at += 1;
    }
    assert(swaps@.take(at as int) =~= swaps@);
    sort_names(&mut list);
    let text = join_names(&list);
    proof {
        let sorted = grid_view(list@);
        assert(names_sorted(sorted) && sorted.to_multiset() == names_at(names@, swaps@).to_multiset()
            && text@ == joined(sorted));
    }
    text
}

/// The key by which a wire that has a value from the beginning is put in
/// order: the number that its name spells after the first letter, that
/// letter, and the place of the wire in the list.
pub open spec fn key_of(names: Seq<Vec<u8>>, initials: Seq<(usize, bool)>, at: int) -> Option<
    (u8, u8, usize),
> {
    let name = names[initials[at].0 as int]@;
    if name.len() == 0 {
        None
    } else {
        match spelled(name.subrange(1, name.len() as int)) {
            Some(number) => if number <= 255 {
                Some((number as u8, name[0], at as usize))
            } else {
                None
            },
            None => None,
        }
    }
}

/// The order of keys: by the number, then by the letter, then by the
/// place.
pub open spec fn key_le(a: (u8, u8, usize), b: (u8, u8, usize)) -> bool {
    a.0 < b.0 || (a.0 == b.0 && (a.1 < b.1 || (a.1 == b.1 && a.2 <= b.2)))
}

/// Each key stands before every later one in the order of keys.
pub open spec fn keys_sorted(keys: Seq<(u8, u8, usize)>) -> bool {
    forall|i: int, j: int| 0 <= i < j < keys.len() ==> key_le(#[trigger] keys[i], #[trigger] keys[j])
}

/// `slice::sort` on triples of numbers: afterwards the same triples stand
/// in ascending order, compared by the first number, then by the second,
/// then by the third.
#[verifier::external_body]
fn sort_keys(list: &mut Vec<(u8, u8, usize)>)
    ensures
        keys_sorted(final(list)@),
        final(list)@.to_multiset() == old(list)@.to_multiset(),
{
    list.sort();
}

/// The keys are those of the wires that have a value from the beginning.
pub open spec fn keys_shown(
    names: Seq<Vec<u8>>,
    initials: Seq<(usize, bool)>,
    keys: Seq<(u8, u8, usize)>,
) -> bool {
    &&& keys.len() == initials.len()
    &&& forall|i: int| 0 <= i < initials.len() ==> key_of(names, initials, i) == Some(#[trigger] keys[i])
}

/// The pairs are made of the wires in the order of the keys, two by two.
pub open spec fn pairs_shown(
    initials: Seq<(usize, bool)>,
    order: Seq<(u8, u8, usize)>,
    pairs: Seq<(usize, usize)>,
) -> bool {
    &&& order.len() == 2 * pairs.len()
    &&& forall|n: int|
        0 <= n < pairs.len() ==> order[2 * n].2 < initials.len() && order[2 * n + 1].2
            < initials.len() && #[trigger] pairs[n] == (
            initials[order[2 * n].2 as int].0,
            initials[order[2 * n + 1].2 as int].0,
        )
}

/// `keys` are the keys of the wires that have a value from the beginning,
/// `order` holds the same keys in their order, and the pairs are made of
/// the wires in that order.
pub open spec fn inputs_shown(
    names: Seq<Vec<u8>>,
    initials: Seq<(usize, bool)>,
    keys: Seq<(u8, u8, usize)>,
    order: Seq<(u8, u8, usize)>,
    pairs: Seq<(usize, usize)>,
) -> bool {
    &&& keys_shown(names, initials, keys)
    &&& keys_sorted(order)
    &&& order.to_multiset() == keys.to_multiset()
    &&& pairs_shown(initials, order, pairs)
}

/// The inputs of an adder, bit by bit: the wires that have a value from the
/// beginning are put in the order of the numbers in their names, wires of
/// one number in the order of their first letters, and taken two by two.
/// There are no inputs where a name spells no number below 256 after its
/// first letter, or where the wires cannot be taken two by two.
pub fn adder_inputs(names: &Vec<Vec<u8>>, initials: &Vec<(usize, bool)>) -> (inputs: Option<
    Vec<(usize, usize)>,
>)
    requires
        forall|i: int| 0 <= i < initials@.len() ==> (#[trigger] initials@[i]).0 < names@.len(),
    ensures
        inputs is Some == (initials@.len() % 2 == 0 && forall|i: int|
            0 <= i < initials@.len() ==> (#[trigger] key_of(names@, initials@, i)) is Some),
        inputs is Some ==> exists|keys: Seq<(u8, u8, usize)>, order: Seq<(u8, u8, usize)>| #[trigger]
            inputs_shown(names@, initials@, keys, order, inputs->0@),
{
    let mut keys: Vec<(u8, u8, usize)> = Vec::new();
    let mut at: usize = 0;
    while at < initials.len()
        invariant
            at <= initials.len(),
            forall|i: int| 0 <= i < initials@.len() ==> (#[trigger] initials@[i]).0 < names@.len(),
            keys@.len() == at,
            forall|i: int| 0 <= i < at ==> key_of(names@, initials@, i) == Some(#[trigger] keys@[i]),
        decreases initials.len() - at,
    {
        let name = &names[initials[at].0];
        if name.len() == 0 {
            assert(key_of(names@, initials@, at as int) is None);
            return None;
        }
        match parse_number(name.as_slice(), 1, name.len()) {
            Some(number) => {
                if number > 255 {
                    assert(key_of(names@, initials@, at as int) is None);
                    return None;
                }
                keys.push((number as u8, name[0], at));
            },
            None => {
                assert(key_of(names@, initials@, at as int) is None);
                return None;
            },
        }
        at += 1;
    }
    if initials.len() % 2 != 0 {
        return None;
    }
    let ghost unsorted = keys@;
    sort_keys(&mut keys);
    let mut pairs: Vec<(usize, usize)> = Vec::new();
    let mut n: usize = 0;
    proof {
        keys@.to_multiset_ensures();
        unsorted.to_multiset_ensures();
        assert(keys@.len() == unsorted.len());
        assert forall|k: int| 0 <= k < keys@.len() implies (#[trigger] keys@[k]).2 < initials@.len() by {
            assert(keys@.contains(keys@[k]));
            assert(unsorted.to_multiset().count(keys@[k]) > 0);
            assert(unsorted.contains(keys@[k]));
            let i = choose|i: int| 0 <= i < unsorted.len() && unsorted[i] == keys@[k];
            assert(key_of(names@, initials@, i) == Some(unsorted[i]));
        }
    }
    while 2 * n < keys.len()
        invariant
            keys@.len() == initials@.len(),
            keys@.len() % 2 == 0,
            2 * n <= keys@.len(),
            keys_shown(names@, initials@, unsorted),
            keys_sorted(keys@),
            keys@.to_multiset() == unsorted.to_multiset(),
            forall|k: int| 0 <= k < keys@.len() ==> (#[trigger] keys@[k]).2 < initials@.len(),
            pairs@.len() == n,
            forall|m: int|
                0 <= m < n ==> #[trigger] pairs@[m] == (
                    initials@[keys@[2 * m].2 as int].0,
                    initials@[keys@[2 * m + 1].2 as int].0,
                ),
        decreases keys.len() - 2 * n,
    {
        let x_input = initials[keys[2 * n].2].0;
        let y_input = initials[keys[2 * n + 1].2].0;
        pairs.push((x_input, y_input));
        n += 1;
    }
    proof {
        assert forall|i: int| 0 <= i < initials@.len() implies (#[trigger] key_of(
            names@,
            initials@,
            i,
        )) is Some by {
            assert(key_of(names@, initials@, i) == Some(unsorted[i]));
        }
        assert(2 * n == keys@.len());
        assert forall|m: int| 0 <= m < pairs@.len() implies keys@[2 * m].2 < initials@.len()
            && keys@[2 * m + 1].2 < initials@.len() && #[trigger] pairs@[m] == (
            initials@[keys@[2 * m].2 as int].0,
            initials@[keys@[2 * m + 1].2 as int].0,
        ) by {
            assert(keys@[2 * m].2 < initials@.len());
            assert(keys@[2 * m + 1].2 < initials@.len());
        }
        assert(pairs_shown(initials@, keys@, pairs@));
        assert(inputs_shown(names@, initials@, unsorted, keys@, pairs@));
    }
    let ghost shown = pairs@;
    let inputs = Some(pairs);
    proof {
        assert(inputs->0@ == shown);
        assert(inputs_shown(names@, initials@, unsorted, keys@, inputs->0@));
    }
    inputs
}

/// The name of the wire of the `n`th bit of the sum: the letter z and the
/// number in two digits.
pub open spec fn z_name(n: int) -> Seq<u8> {
    seq![0x7au8, (0x30 + n / 10) as u8, (0x30 + n % 10) as u8]
}

/// A gate drives a wire of that name.
pub open spec fn driven_name(names: Seq<Vec<u8>>, origin_map: Seq<Option<usize>>, name: Seq<u8>) -> bool {
    exists|w: int| 0 <= w < names.len() && (#[trigger] names[w])@ == name && origin_map[w] is Some
}

/// The first wire of that name that a gate drives.
fn find_driven(names: &Vec<Vec<u8>>, origin_map: &Vec<Option<usize>>, name: &Vec<u8>) -> (found: Option<
    usize,
>)
    requires
        origin_map@.len() == names@.len(),
    ensures
        match found {
            Some(wire) => wire < names@.len() && names@[wire as int]@ == name@
                && origin_map@[wire as int] is Some,
            None => !driven_name(names@, origin_map@, name@),
        },
{
    let mut w: usize = 0;
    while w < names.len()
        invariant
            w <= names.len(),
            origin_map@.len() == names@.len(),
            forall|i: int| 0 <= i < w ==> !((#[trigger] names@[i])@ == name@ && origin_map@[i] is Some),
        decreases names.len() - w,
    {
        assert(name@.subrange(0, name@.len() as int) =~= name@);
        if origin_map[w].is_some() && is_part(&names[w], name.as_slice(), 0, name.len()) {
            return Some(w);
        }
        w += 1;
    }
    None
}

/// The wires on which the bits of the sum are expected, from the lowest
/// bit on: the wires named z00, z01 and so on that gates drive, as far as
/// they go and at most `count` of them; no name goes beyond z99.
pub fn z_wires(names: &Vec<Vec<u8>>, origin_map: &Vec<Option<usize>>, count: usize) -> (wires: Vec<
    usize,
>)
    requires
        origin_map@.len() == names@.len(),
    ensures
        wires@.len() <= count,
        wires@.len() <= 100,
        forall|n: int|
            0 <= n < wires@.len() ==> (#[trigger] wires@[n]) < names@.len() && names@[wires@[n] as int]@
                == z_name(n) && origin_map@[wires@[n] as int] is Some,
        wires@.len() < count && wires@.len() < 100 ==> !driven_name(
            names@,
            origin_map@,
            z_name(wires@.len() as int),
        ),
{
    let mut wires: Vec<usize> = Vec::new();
    let mut n: usize = 0;
    while n < count && n < 100
        invariant
            n <= count,
            n <= 100,
            origin_map@.len() == names@.len(),
            wires@.len() == n,
            forall|m: int|
                0 <= m < n ==> (#[trigger] wires@[m]) < names@.len() && names@[wires@[m] as int]@
                    == z_name(m) && origin_map@[wires@[m] as int] is Some,
        decreases 100 - n,
    {
        let tens = (n / 10) as u8;
        let ones = (n % 10) as u8;
        let name: Vec<u8> = vec![0x7a, 0x30 + tens, 0x30 + ones];
        assert(name@ =~= z_name(n as int));
        let found = find_driven(names, origin_map, &name);
        match found {
            Some(wire) => {
                wires.push(wire);
            },
            None => {
                return wires;
            },
        }
        n += 1;
    }
    wires
}

/// The list holds the wires on which the bits of the sum are expected, as
/// `z_wires` finds them.
pub open spec fn z_shown(
    names: Seq<Vec<u8>>,
    origin_map: Seq<Option<usize>>,
    count: int,
    wires: Seq<usize>,
) -> bool {
    &&& wires.len() <= count
    &&& wires.len() <= 100
    &&& forall|n: int|
        0 <= n < wires.len() ==> (#[trigger] wires[n]) < names.len() && names[wires[n] as int]@
            == z_name(n) && origin_map[wires[n] as int] is Some
    &&& wires.len() < count && wires.len() < 100 ==> !driven_name(
        names,
        origin_map,
        z_name(wires.len() as int),
    )
}

/// What leads from the circuit to the wires to exchange: the keys of the
/// wires with a value from the beginning, the keys in order, the pairs of
/// input wires made of them, and the wires of the sum.
pub open spec fn adder_read(
    names: Seq<Vec<u8>>,
    initials: Seq<(usize, bool)>,
    origin_map: Seq<Option<usize>>,
    keys: Seq<(u8, u8, usize)>,
    order: Seq<(u8, u8, usize)>,
    pairs: Seq<(usize, usize)>,
    sums: Seq<usize>,
) -> bool {
    inputs_shown(names, initials, keys, order, pairs) && z_shown(
        names,
        origin_map,
        pairs.len() as int,
        sums,
    )
}

/// The text names the wires that `mend` exchanges: their names in the
/// order of names, with a comma between each two.
pub open spec fn swaps_told(
    names: Seq<Vec<u8>>,
    gates: Seq<Gate>,
    wire_usages: Seq<Vec<(usize, u8)>>,
    origin_map: Seq<Option<usize>>,
    pairs: Seq<(usize, usize)>,
    sums: Seq<usize>,
    exchanged: Seq<usize>,
    list: Seq<Seq<u8>>,
    text: Seq<u8>,
) -> bool {
    &&& mend(gates, Seq::empty(), pairs, 0, None, sums, wire_usages, origin_map) == Some(exchanged)
    &&& wires_listed(exchanged, names.len() as int)
    &&& exchanged.len() % 2 == 0
    &&& names_sorted(list)
    &&& list.to_multiset() == names_at(names, exchanged).to_multiset()
    &&& text == joined(list)
}

/// The circuit is read as an adder and mended, and the text names the
/// wires exchanged.
pub open spec fn adder_mended(
    names: Seq<Vec<u8>>,
    gates: Seq<Gate>,
    initials: Seq<(usize, bool)>,
    wire_usages: Seq<Vec<(usize, u8)>>,
    origin_map: Seq<Option<usize>>,
    keys: Seq<(u8, u8, usize)>,
    order: Seq<(u8, u8, usize)>,
    pairs: Seq<(usize, usize)>,
    sums: Seq<usize>,
    exchanged: Seq<usize>,
    list: Seq<Seq<u8>>,
    text: Seq<u8>,
) -> bool {
    adder_read(names, initials, origin_map, keys, order, pairs, sums) && swaps_told(
        names,
        gates,
        wire_usages,
        origin_map,
        pairs,
        sums,
        exchanged,
        list,
        text,
    )
}

/// The circuit is read as an adder, and cannot be followed.
pub open spec fn adder_stuck(
    names: Seq<Vec<u8>>,
    gates: Seq<Gate>,
    initials: Seq<(usize, bool)>,
    wire_usages: Seq<Vec<(usize, u8)>>,
    origin_map: Seq<Option<usize>>,
    keys: Seq<(u8, u8, usize)>,
    order: Seq<(u8, u8, usize)>,
    pairs: Seq<(usize, usize)>,
    sums: Seq<usize>,
) -> bool {
    adder_read(names, initials, origin_map, keys, order, pairs, sums) && mend(
        gates,
        Seq::empty(),
        pairs,
        0,
        None,
        sums,
        wire_usages,
        origin_map,
    ) is None
}

/// Finds the wires that have to be exchanged to make the circuit an adder,
/// and names them: the wires that have a value from the beginning are put
/// in order and taken two by two as the inputs of the bits, the adder is
/// followed from the lowest bit upwards, and the names of the wires
/// exchanged on the way are returned in the order of names, with a comma
/// between each two. Nothing is returned where the inputs cannot be taken
/// two by two or the circuit cannot be followed.
pub fn find_swaps(
    names: &Vec<Vec<u8>>,
    gates: Vec<Gate>,
    initial_values: &Vec<(usize, bool)>,
    wire_usages: &Vec<Vec<(usize, u8)>>,
    origin_map: &Vec<Option<usize>>,
) -> (told: Option<Vec<u8>>)
    requires
        wire_usages@.len() == names@.len(),
        tables_valid(gates@, wire_usages@, origin_map@),
        all_wired(gates@),
        wires_known(gates@, names@.len() as int),
        forall|i: int|
            0 <= i < initial_values@.len() ==> (#[trigger] initial_values@[i]).0 < names@.len(),
    ensures
        told is Some ==> exists|
            keys: Seq<(u8, u8, usize)>,
            order: Seq<(u8, u8, usize)>,
            pairs: Seq<(usize, usize)>,
            sums: Seq<usize>,
            exchanged: Seq<usize>,
            list: Seq<Seq<u8>>,
        | #[trigger]
            adder_mended(
                names@,
                gates@,
                initial_values@,
                wire_usages@,
                origin_map@,
                keys,
                order,
                pairs,
                sums,
                exchanged,
                list,
                told->0@,
            ),
        told is None ==> !(initial_values@.len() % 2 == 0 && forall|i: int|
            0 <= i < initial_values@.len() ==> (#[trigger] key_of(names@, initial_values@, i))
                is Some) || exists|
            keys: Seq<(u8, u8, usize)>,
            order: Seq<(u8, u8, usize)>,
            pairs: Seq<(usize, usize)>,
            sums: Seq<usize>,
        | #[trigger]
            adder_stuck(
                names@,
                gates@,
                initial_values@,
                wire_usages@,
                origin_map@,
                keys,
                order,
                pairs,
                sums,
            ),
{
    let ghost given = gates@;
    let inputs = match adder_inputs(names, initial_values) {
        Some(inputs) => inputs,
        None => {
            return None;
        },
    };
    let ghost (held, sorted) = choose|held: Seq<(u8, u8, usize)>, sorted: Seq<(u8, u8, usize)>| #[trigger]
        inputs_shown(names@, initial_values@, held, sorted, inputs@);
    let z = z_wires(names, origin_map, inputs.len());
    proof {
        assert(inputs_shown(names@, initial_values@, held, sorted, inputs@));
        assert(pairs_shown(initial_values@, sorted, inputs@));
        assert(z_shown(names@, origin_map@, inputs@.len() as int, z@));
        assert(adder_read(names@, initial_values@, origin_map@, held, sorted, inputs@, z@));
        assert forall|n: int| 0 <= n < inputs@.len() implies (#[trigger] inputs@[n]).0 < names@.len()
            && inputs@[n].1 < names@.len() by {
            assert(inputs@[n] == (
                initial_values@[sorted[2 * n].2 as int].0,
                initial_values@[sorted[2 * n + 1].2 as int].0,
            ));
            assert(sorted[2 * n].2 < initial_values@.len());
            assert(sorted[2 * n + 1].2 < initial_values@.len());
            assert(initial_values@[sorted[2 * n].2 as int].0 < names@.len());
            assert(initial_values@[sorted[2 * n + 1].2 as int].0 < names@.len());
        }
    }
    let swaps = match crate::circuit::find_swaps(gates, &inputs, &z, wire_usages, origin_map) {
        Some(swaps) => swaps,
        None => {
            proof {
                assert(mend(
                    given,
                    Seq::empty(),
                    inputs@,
                    0,
                    None,
                    z@,
                    wire_usages@,
                    origin_map@,
                ) is None);
                assert(adder_stuck(
                    names@,
                    given,
                    initial_values@,
                    wire_usages@,
                    origin_map@,
                    held,
                    sorted,
                    inputs@,
                    z@,
                ));
            }
            return None;
        },
    };
    let text = swap_names(names, &swaps);
    let ghost shown = text@;
    let ghost list = choose|list: Seq<Seq<u8>>|
        names_sorted(list) && #[trigger] list.to_multiset() == names_at(names@, swaps@).to_multiset()
            && shown == joined(list);
    let told = Some(text);
    proof {
        assert(told->0@ == shown);
        assert(swaps_told(
            names@,
            given,
            wire_usages@,
            origin_map@,
            inputs@,
            z@,
            swaps@,
            list,
            told->0@,
        ));
        assert(adder_mended(
            names@,
            given,
            initial_values@,
            wire_usages@,
            origin_map@,
            held,
            sorted,
            inputs@,
            z@,
            swaps@,
            list,
            told->0@,
        ));
    }
    told
}

} // verus!
