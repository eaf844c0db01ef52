use puzzle_solvers::circuit::{find_swaps, run_circuit, GateInput, Op};
use puzzle_solvers::wiring::{
    adder_inputs, find_wire, make_tables, output_wires, read_circuit, swap_names, z_wires,
};

const SAMPLE: &[u8] = b"x00: 1\nx01: 1\nx02: 1\ny00: 0\ny01: 1\ny02: 0\n\n\
x00 AND y00 -> z00\nx01 XOR y01 -> z01\nx02 OR y02 -> z02\n";

#[test]
fn sample_circuit_is_read() {
    let wiring = read_circuit(SAMPLE).unwrap();
    let names: Vec<&[u8]> = wiring.names.iter().map(|name| name.as_slice()).collect();
    let expected: Vec<&[u8]> =
        vec![b"x00", b"x01", b"x02", b"y00", b"y01", b"y02", b"z00", b"z01", b"z02"];
    assert_eq!(names, expected);
    assert_eq!(
        wiring.initials,
        vec![(0, true), (1, true), (2, true), (3, false), (4, true), (5, false)]
    );
    assert_eq!(wiring.gates.len(), 3);
    assert!(wiring.gates[1] == (GateInput::Wire(1), GateInput::Wire(4), Op::Xor, 7));
    assert_eq!(wiring.wire_usages[0], vec![(0, 0)]);
    assert_eq!(wiring.wire_usages[4], vec![(1, 1)]);
    assert!(wiring.wire_usages[6].is_empty());
    assert_eq!(wiring.origin_map[6], Some(0));
    assert_eq!(wiring.origin_map[0], None);
}

#[test]
fn sample_circuit_is_run() {
    let wiring = read_circuit(SAMPLE).unwrap();
    let outputs = output_wires(&wiring.names, &wiring.gates);
    assert_eq!(outputs, vec![8, 7, 6]);
    assert_eq!(
        run_circuit(wiring.gates.clone(), &wiring.initials, &wiring.wire_usages, &outputs),
        4
    );
}

#[test]
fn drawings_of_another_shape_are_not_read() {
    assert!(read_circuit(b"x00: 1\n").is_none());
    assert!(read_circuit(b"x00: 2\n\nx00 AND x00 -> z00\n").is_none());
    assert!(read_circuit(b"x00 1\n\nx00 AND x00 -> z00\n").is_none());
    assert!(read_circuit(b"x00: 1\n\nx00 NOT x00 -> z00\n").is_none());
    assert!(read_circuit(b"x00: 1\n\nx00 AND x00 => z00\n").is_none());
    assert!(read_circuit(b"x00: 1\n\nx00 AND x00 -> z00 z01\n").is_none());
    assert!(read_circuit(b"x00: 1\n\nx00 AND x00 -> z00\n\n").is_none());
    assert!(read_circuit(b"x00: 1\n\n").is_some());
}

#[test]
fn tables_are_made_from_the_gates() {
    let gates = vec![
        (GateInput::Wire(2), GateInput::Wire(0), Op::And, 3),
        (GateInput::Wire(0), GateInput::Wire(0), Op::Xor, 2),
        (GateInput::Wire(1), GateInput::Wire(2), Op::Or, 3),
    ];
    let (usages, origins) = make_tables(&gates, 4);
    assert_eq!(
        usages,
        vec![vec![(0, 1), (1, 0), (1, 1)], vec![(2, 0)], vec![(0, 0), (2, 1)], vec![]]
    );
    assert_eq!(origins, vec![None, None, Some(1), Some(2)]);
}

#[test]
fn inputs_of_the_sample_adder() {
    let wiring = read_circuit(SAMPLE).unwrap();
    assert_eq!(
        adder_inputs(&wiring.names, &wiring.initials),
        Some(vec![(0, 3), (1, 4), (2, 5)])
    );
    let odd = read_circuit(b"x00: 1\ny00: 1\nx01: 0\n\n").unwrap();
    assert_eq!(adder_inputs(&odd.names, &odd.initials), None);
    let unnumbered = read_circuit(b"x00: 1\nyab: 1\n\n").unwrap();
    assert_eq!(adder_inputs(&unnumbered.names, &unnumbered.initials), None);
    let mixed = read_circuit(b"y01: 1\nx01: 1\ny00: 0\nx00: 0\n\n").unwrap();
    assert_eq!(adder_inputs(&mixed.names, &mixed.initials), Some(vec![(3, 2), (1, 0)]));
}

#[test]
fn wires_of_the_sum() {
    let wiring = read_circuit(SAMPLE).unwrap();
    assert_eq!(z_wires(&wiring.names, &wiring.origin_map, 10), vec![6, 7, 8]);
    assert_eq!(z_wires(&wiring.names, &wiring.origin_map, 2), vec![6, 7]);
    assert_eq!(z_wires(&wiring.names, &wiring.origin_map, 0), Vec::<usize>::new());
    assert_eq!(find_wire(&wiring.names, &b"y01".to_vec()), Some(4));
    assert_eq!(find_wire(&wiring.names, &b"y11".to_vec()), None);
}

#[test]
fn names_of_swaps_are_sorted_and_joined() {
    let wiring = read_circuit(SAMPLE).unwrap();
    assert_eq!(swap_names(&wiring.names, &vec![7, 0, 5, 3]), b"x00,y00,y02,z01".to_vec());
    assert_eq!(swap_names(&wiring.names, &Vec::new()), Vec::<u8>::new());
}

#[test]
fn a_half_adder_needs_no_swaps() {
    let text = b"x00: 1\ny00: 1\n\nx00 XOR y00 -> z00\nx00 AND y00 -> c00\n";
    let wiring = read_circuit(text).unwrap();
    let inputs = adder_inputs(&wiring.names, &wiring.initials).unwrap();
    let sums = z_wires(&wiring.names, &wiring.origin_map, inputs.len());
    let swaps = find_swaps(
        wiring.gates.clone(),
        &inputs,
        &sums,
        &wiring.wire_usages,
        &wiring.origin_map,
    );
    assert_eq!(swaps, Some(Vec::new()));
}

#[test]
fn swaps_of_a_small_adder_are_named() {
    // The outputs of the second bit's first two gates are exchanged: the
    // carry is combined with kkk where tnn belongs.
    let text = b"y01: 1\nx01: 1\ny00: 1\nx00: 1\n\n\
x00 XOR y00 -> z00\nx00 AND y00 -> c00\nx01 XOR y01 -> tnn\nx01 AND y01 -> kkk\n\
c00 XOR kkk -> z01\nc00 AND kkk -> b01\ntnn OR b01 -> z02\n";
    let wiring = read_circuit(text).unwrap();
    let told = puzzle_solvers::wiring::find_swaps(
        &wiring.names,
        wiring.gates.clone(),
        &wiring.initials,
        &wiring.wire_usages,
        &wiring.origin_map,
    );
    assert_eq!(told, Some(b"kkk,tnn".to_vec()));
    let mut turned = wiring.initials.clone();
    turned.reverse();
    let again = puzzle_solvers::wiring::find_swaps(
        &wiring.names,
        wiring.gates.clone(),
        &turned,
        &wiring.wire_usages,
        &wiring.origin_map,
    );
    assert_eq!(again, Some(b"kkk,tnn".to_vec()));
}

#[test]
fn an_odd_number_of_inputs_names_no_swaps() {
    let wiring = read_circuit(b"x00: 1\ny00: 1\nx01: 0\n\nx00 XOR y00 -> z00\n").unwrap();
    let told = puzzle_solvers::wiring::find_swaps(
        &wiring.names,
        wiring.gates.clone(),
        &wiring.initials,
        &wiring.wire_usages,
        &wiring.origin_map,
    );
    assert_eq!(told, None);
}

#[test]
fn an_adder_of_three_bits_needs_no_swaps() {
    let text = b"x00: 1\ny00: 1\nx01: 0\ny01: 1\nx02: 1\ny02: 1\n\n\
x00 XOR y00 -> z00\nx00 AND y00 -> c00\n\
x01 XOR y01 -> s01\nx01 AND y01 -> a01\nc00 XOR s01 -> z01\nc00 AND s01 -> b01\na01 OR b01 -> c01\n\
y02 XOR x02 -> s02\ny02 AND x02 -> a02\ns02 XOR c01 -> z02\ns02 AND c01 -> b02\nb02 OR a02 -> z03\n";
    let wiring = read_circuit(text).unwrap();
    let told = puzzle_solvers::wiring::find_swaps(
        &wiring.names,
        wiring.gates.clone(),
        &wiring.initials,
        &wiring.wire_usages,
        &wiring.origin_map,
    );
    assert_eq!(told, Some(Vec::new()));
    // 5 + 7 = 12: every gate gives its wire its operation on its inputs
    let sums = z_wires(&wiring.names, &wiring.origin_map, 3);
    let outputs: Vec<usize> = {
        let mut all = sums.clone();
        all.push(find_wire(&wiring.names, &b"z03".to_vec()).unwrap());
        all.reverse();
        all
    };
    let gates = wiring.gates.clone();
    assert_eq!(
        puzzle_solvers::circuit::run_circuit(gates, &wiring.initials, &wiring.wire_usages, &outputs),
        12
    );
}
