use puzzle_solvers::computer::{
    find_initial_brute_force, find_initial_smart, simulate, ComboOperand, Instruction, State,
};

#[test]
fn output_of_the_sample() {
    let program = vec![
        Instruction::Adv(ComboOperand::Literal(1)),
        Instruction::Out(ComboOperand::A),
        Instruction::Jnz(0),
    ];
    let outputs = simulate(State { A: 729, B: 0, C: 0 }, &program);
    assert_eq!(outputs, vec![4, 6, 3, 5, 6, 3, 5, 2, 1, 0]);
    let outputs = simulate(State { A: 2024, B: 0, C: 0 }, &program);
    assert_eq!(outputs, vec![4, 2, 5, 6, 7, 7, 7, 7, 3, 1, 0]);
}

#[test]
fn three_outputs() {
    let program = vec![
        Instruction::Out(ComboOperand::Literal(0)),
        Instruction::Out(ComboOperand::Literal(1)),
        Instruction::Out(ComboOperand::A),
    ];
    assert_eq!(simulate(State { A: 10, B: 0, C: 0 }, &program), vec![0, 1, 2]);
}

#[test]
fn registers_b_and_c() {
    // bst C; out B
    let program =
        vec![Instruction::Bst(ComboOperand::C), Instruction::Out(ComboOperand::B)];
    assert_eq!(simulate(State { A: 0, B: 0, C: 9 }, &program), vec![1]);
    // bxl 7; out B
    let program = vec![Instruction::Bxl(7), Instruction::Out(ComboOperand::B)];
    assert_eq!(simulate(State { A: 0, B: 29, C: 0 }, &program), vec![26 % 8]);
    // bxc; out B
    let program = vec![Instruction::Bxc, Instruction::Out(ComboOperand::B)];
    assert_eq!(simulate(State { A: 0, B: 2024, C: 43690 }, &program), vec![(44354 % 8) as u8]);
    // bdv 2; cdv 3; out B; out C
    let program = vec![
        Instruction::Bdv(ComboOperand::Literal(2)),
        Instruction::Cdv(ComboOperand::Literal(3)),
        Instruction::Out(ComboOperand::B),
        Instruction::Out(ComboOperand::C),
    ];
    assert_eq!(simulate(State { A: 100, B: 0, C: 0 }, &program), vec![25 % 8, 12 % 8]);
}

#[test]
fn empty_program() {
    assert_eq!(simulate(State { A: 1, B: 2, C: 3 }, &vec![]), Vec::<u8>::new());
}

#[test]
fn jump_beyond_the_end_halts() {
    let program = vec![Instruction::Jnz(7), Instruction::Out(ComboOperand::Literal(1))];
    assert_eq!(simulate(State { A: 1, B: 0, C: 0 }, &program), Vec::<u8>::new());
    assert_eq!(simulate(State { A: 0, B: 0, C: 0 }, &program), vec![1]);
}

#[test]
fn brute_force_finds_the_sample_register() {
    let instrs = vec![
        Instruction::Adv(ComboOperand::Literal(3)),
        Instruction::Out(ComboOperand::A),
        Instruction::Jnz(0),
    ];
    let state = find_initial_brute_force(&instrs, &vec![0, 3, 5, 4, 3, 0]);
    assert_eq!((state.A, state.B, state.C), (117440, 0, 0));
}

#[test]
fn brute_force_begins_with_zero() {
    let instrs = vec![Instruction::Out(ComboOperand::A)];
    assert_eq!(find_initial_brute_force(&instrs, &vec![0]).A, 0);
    assert_eq!(find_initial_brute_force(&instrs, &vec![5]).A, 5);
}

#[test]
fn smart_search_appends_three_bits_for_each_byte() {
    assert_eq!(find_initial_smart(&Vec::new()), 0);
    assert_eq!(find_initial_smart(&vec![1]), 0);
    assert_eq!(find_initial_smart(&vec![4]), 4);
    assert_eq!(find_initial_smart(&vec![5]), 7);
    assert_eq!(find_initial_smart(&vec![0]), 1);
    assert_eq!(find_initial_smart(&vec![1, 0]), 8);
}
