use puzzle_solvers::keypads::{
    calc_complexities, Smart, Stupid, find_shortest_pattern_smart, find_shortest_pattern_stage1,
    find_shortest_pattern_stage2_stupid, find_shortest_pattern_stupid, DirKey, DirKeyPad, KeyPad,
    NumKey, NumKeyPad, Simulator,
};

fn code(text: &str) -> Vec<NumKey> {
    text.chars()
        .map(|c| match c {
            'A' => NumKey::Activate,
            digit => NumKey::Num(digit as u8 - b'0'),
        })
        .collect()
}

fn keys(text: &str) -> Vec<DirKey> {
    text.chars()
        .map(|c| match c {
            '^' => DirKey::Up,
            'v' => DirKey::Down,
            '<' => DirKey::Left,
            '>' => DirKey::Right,
            _ => DirKey::Activate,
        })
        .collect()
}

#[test]
fn key_positions() {
    assert_eq!(NumKey::Num(0).to_keypad_pos(), (3, 1));
    assert_eq!(NumKey::Num(7).to_keypad_pos(), (0, 0));
    assert_eq!(NumKey::Num(9).to_keypad_pos(), (0, 2));
    assert_eq!(NumKey::Activate.to_keypad_pos(), (3, 2));
    assert_eq!(DirKey::Up.to_keypad_pos(), (0, 1));
    assert_eq!(DirKey::Left.to_keypad_pos(), (1, 0));
    assert_eq!(DirKey::Activate.to_keypad_pos(), (0, 2));
}

#[test]
fn positions_and_keys_agree() {
    for n in 0..10u8 {
        let (row, col) = NumKey::Num(n).to_keypad_pos();
        assert_eq!(NumKeyPad::map_pos_to_key(row as usize, col as usize), Some(NumKey::Num(n)));
    }
    for key in [DirKey::Up, DirKey::Down, DirKey::Left, DirKey::Right, DirKey::Activate] {
        let (row, col) = key.to_keypad_pos();
        assert_eq!(DirKeyPad::map_pos_to_key(row as usize, col as usize), Some(key));
    }
    assert_eq!(NumKeyPad::map_pos_to_key(3, 0), None);
    assert_eq!(DirKeyPad::map_pos_to_key(0, 0), None);
}

#[test]
fn pad_constants() {
    assert_eq!((NumKeyPad::ROWS, NumKeyPad::COLS), (4, 3));
    assert_eq!((NumKeyPad::START_ROW, NumKeyPad::START_COL), (3, 2));
    assert_eq!((DirKeyPad::ROWS, DirKeyPad::COLS), (2, 3));
    assert_eq!((DirKeyPad::START_ROW, DirKeyPad::START_COL), (0, 2));
}

#[test]
fn first_stage_pattern() {
    assert_eq!(find_shortest_pattern_stage1(&code("029A")), keys("<A^A^^>AvvvA"));
}

#[test]
fn first_stage_avoids_the_gap() {
    // from A to 7: up first, then left; from 7 back to A: right first, then down
    assert_eq!(find_shortest_pattern_stage1(&code("7A")), keys("^^^<<A>>vvvA"));
}

#[test]
fn second_stage_pattern() {
    assert_eq!(find_shortest_pattern_stage2_stupid(&keys("<A")), keys("v<<A>>^A"));
}

#[test]
fn pattern_lengths_of_the_sample() {
    let samples = [("029A", 68), ("980A", 60), ("179A", 68), ("456A", 64), ("379A", 64)];
    for (text, len) in samples {
        let mut none: Option<Simulator<0>> = None;
        assert_eq!(find_shortest_pattern_stupid(&code(text), 2, &mut none), len);
        assert_eq!(find_shortest_pattern_smart(&code(text), 2, &mut none), len);
    }
}

#[test]
fn smart_and_stupid_agree() {
    for stages in 0..6usize {
        let mut none: Option<Simulator<0>> = None;
        let stupid = find_shortest_pattern_stupid(&code("379A"), stages, &mut none);
        let smart = find_shortest_pattern_smart(&code("379A"), stages, &mut none);
        assert_eq!(stupid, smart);
    }
}

#[test]
fn complexities_of_the_sample() {
    let combinations: Vec<Vec<NumKey>> =
        ["029A", "980A", "179A", "456A", "379A"].iter().map(|text| code(text)).collect();
    let mut none: Option<Simulator<0>> = None;
    assert_eq!(calc_complexities(&combinations, 2, &Stupid {}, &mut none), 126384);
    assert_eq!(calc_complexities(&combinations, 2, &Smart {}, &mut none), 126384);
}

#[test]
fn twenty_five_pads_in_between() {
    let combinations: Vec<Vec<NumKey>> =
        ["029A", "980A", "179A", "456A", "379A"].iter().map(|text| code(text)).collect();
    let mut none: Option<Simulator<0>> = None;
    assert_eq!(calc_complexities(&combinations, 25, &Smart {}, &mut none), 154115708116294);
}

#[test]
fn simulator_types_the_combination() {
    let mut sim: Option<Simulator<2>> = Some(Simulator::new());
    let len = find_shortest_pattern_smart(&code("029A"), 2, &mut sim);
    assert_eq!(len, 68);
    assert_eq!(sim.unwrap().typed_keys(), &code("029A"));

    let mut sim: Option<Simulator<2>> = Some(Simulator::new());
    let len = find_shortest_pattern_stupid(&code("379A"), 2, &mut sim);
    assert_eq!(len, 64);
    assert_eq!(sim.unwrap().typed_keys(), &code("379A"));
}

#[test]
fn simulator_follows_all_combinations() {
    let combinations: Vec<Vec<NumKey>> =
        ["029A", "980A"].iter().map(|text| code(text)).collect();
    let mut sim: Option<Simulator<3>> = Some(Simulator::new());
    calc_complexities(&combinations, 3, &Smart {}, &mut sim);
    assert_eq!(sim.unwrap().typed_keys(), &code("029A980A"));
}

#[test]
fn simulator_without_pads_in_between() {
    // with no directional pad every key acts on the numeric pad itself
    let mut sim: Simulator<0> = Simulator::new();
    for key in keys("<A^A") {
        sim.simulate(key);
    }
    assert_eq!(sim.typed_keys(), &code("02"));
}
