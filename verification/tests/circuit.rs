use puzzle_solvers::circuit::{
    find_actual_gate, find_replacement, find_swaps, run_circuit, swap, Gate, GateInput, Op,
};

// wires: 0 x00, 1 x01, 2 x02, 3 y00, 4 y01, 5 y02, 6 z00, 7 z01, 8 z02
fn sample() -> (Vec<Gate>, Vec<Vec<(usize, u8)>>, Vec<Option<usize>>) {
    let gates: Vec<Gate> = vec![
        (GateInput::Wire(0), GateInput::Wire(3), Op::And, 6),
        (GateInput::Wire(1), GateInput::Wire(4), Op::Xor, 7),
        (GateInput::Wire(2), GateInput::Wire(5), Op::Or, 8),
    ];
    let mut usages: Vec<Vec<(usize, u8)>> = vec![Vec::new(); 9];
    let mut origins: Vec<Option<usize>> = vec![None; 9];
    for (idx, gate) in gates.iter().enumerate() {
        if let (GateInput::Wire(a), GateInput::Wire(b)) = (gate.0, gate.1) {
            usages[a].push((idx, 0));
            usages[b].push((idx, 1));
        }
        origins[gate.3] = Some(idx);
    }
    (gates, usages, origins)
}

#[test]
fn operations() {
    assert!(Op::And.apply(true, true) && !Op::And.apply(true, false));
    assert!(Op::Or.apply(false, true) && !Op::Or.apply(false, false));
    assert!(Op::Xor.apply(false, true) && !Op::Xor.apply(true, true));
    assert!(Op::try_from(b"AND") == Some(Op::And));
    assert!(Op::try_from(b"OR") == Some(Op::Or));
    assert!(Op::try_from(b"XOR") == Some(Op::Xor));
    assert!(Op::try_from(b"NOT") == None);
    assert!(Op::try_from(b"") == None);
    assert_eq!(GateInput::Wire(7).get_write_unchecked(), 7);
}

#[test]
fn running_the_sample() {
    let (gates, usages, _) = sample();
    let initial = vec![(0, true), (1, true), (2, true), (3, false), (4, true), (5, false)];
    // z02 z01 z00 = 1 0 0
    assert_eq!(run_circuit(gates, &initial, &usages, &vec![8, 7, 6]), 4);
}

#[test]
fn running_gates_in_a_row() {
    // wire 2 = wire 0 XOR wire 1, wire 3 = wire 2 AND wire 0
    let gates: Vec<Gate> = vec![
        (GateInput::Wire(2), GateInput::Wire(0), Op::And, 3),
        (GateInput::Wire(0), GateInput::Wire(1), Op::Xor, 2),
    ];
    let usages = vec![vec![(0, 1), (1, 0)], vec![(1, 1)], vec![(0, 0)], vec![]];
    assert_eq!(run_circuit(gates.clone(), &vec![(0, true), (1, false)], &usages, &vec![3, 2]), 3);
    assert_eq!(run_circuit(gates, &vec![(0, true), (1, true)], &usages, &vec![3, 2]), 0);
}

#[test]
fn replacement_for_a_wire() {
    let (gates, _, _) = sample();
    assert_eq!(find_replacement(0, 5, Op::And, &gates), Some((3, 0)));
    assert_eq!(find_replacement(3, 5, Op::And, &gates), Some((0, 0)));
    assert_eq!(find_replacement(0, 3, Op::And, &gates), None);
    assert_eq!(find_replacement(0, 5, Op::Xor, &gates), None);
}

#[test]
fn swapping_two_wires() {
    let (mut gates, usages, origins) = sample();
    swap(&mut gates, &usages, &origins, 6, 7);
    assert_eq!(gates[0].3, 7);
    assert_eq!(gates[1].3, 6);
    swap(&mut gates, &usages, &origins, 0, 1);
    assert!(gates[0].0 == GateInput::Wire(1));
    assert!(gates[1].0 == GateInput::Wire(0));
}

#[test]
fn finding_a_gate() {
    let (mut gates, usages, origins) = sample();
    let mut swaps = Vec::new();
    assert_eq!(
        find_actual_gate(1, 4, Op::Xor, &mut gates, &mut swaps, &usages, &origins),
        Some(1)
    );
    assert!(swaps.is_empty());
    // no gate computes AND on wires 0 and 4: wire 3 is taken for wire 4
    assert_eq!(
        find_actual_gate(0, 4, Op::And, &mut gates, &mut swaps, &usages, &origins),
        Some(0)
    );
    assert_eq!(swaps, vec![4, 3]);
    assert!(gates[0].1 == GateInput::Wire(4));
}

#[test]
fn adder_of_one_bit() {
    // x00 0, y00 1, z00 2, carry 3
    let gates: Vec<Gate> = vec![
        (GateInput::Wire(0), GateInput::Wire(1), Op::Xor, 2),
        (GateInput::Wire(0), GateInput::Wire(1), Op::And, 3),
    ];
    let usages = vec![vec![(0, 0), (1, 0)], vec![(0, 1), (1, 1)], vec![], vec![]];
    let origins = vec![None, None, Some(0), Some(1)];
    assert_eq!(find_swaps(gates, &vec![(0, 1)], &vec![2], &usages, &origins), Some(vec![]));
}
