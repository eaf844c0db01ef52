use puzzle_solvers::antennas::read_antennas;
use puzzle_solvers::calibration::read_calibrations;
use puzzle_solvers::claw::read_machines;
use puzzle_solvers::computer::{decode, read_program, ComboOperand, Instruction};
use puzzle_solvers::disk::read_disk;
use puzzle_solvers::keypads::{read_codes, NumKey};
use puzzle_solvers::location_lists::split_lists;
use puzzle_solvers::locks::read_schematics;
use puzzle_solvers::maze::read_walls;
use puzzle_solvers::memory_grid::read_bytes;
use puzzle_solvers::network::read_connections;
use puzzle_solvers::pages::read_pages;
use puzzle_solvers::robots::read_robots;
use puzzle_solvers::towels::{read_towels, Color, StripePattern};

#[test]
fn falling_bytes_are_read() {
    assert_eq!(read_bytes(b"5,4\n4,2\n"), Some(vec![(5, 4), (4, 2)]));
    assert_eq!(read_bytes(b""), Some(vec![]));
    assert_eq!(read_bytes(b"5,4\n4;2\n"), None);
    assert_eq!(read_bytes(b"5,4\n\n4,2\n"), None);
    assert_eq!(read_bytes(b"5,99999999999999999999\n"), None);
}

#[test]
fn robots_are_read() {
    let robots = read_robots(b"p=0,4 v=3,-3\nnot a robot\np=6,3 v=-1,-3\n").unwrap();
    assert_eq!(robots.len(), 2);
    assert_eq!((robots[0].pos.x, robots[0].pos.y, robots[0].v.x, robots[0].v.y), (0, 4, 3, -3));
    assert_eq!((robots[1].pos.x, robots[1].pos.y, robots[1].v.x, robots[1].v.y), (6, 3, -1, -3));
    assert!(read_robots(b"p=1,2 v=3,9223372036854775808\n").is_none());
    let least = read_robots(b"p=1,2 v=3,-9223372036854775808\n").unwrap();
    assert_eq!(least[0].v.y, i64::MIN);
    assert!(read_robots(b"p=-1,2 v=3,4\n").unwrap().is_empty());
}

#[test]
fn rules_and_updates_are_read() {
    let (rules, updates) = read_pages(b"47|53\n97|13\n\n75,47,61\n97\n").unwrap();
    assert_eq!(rules, vec![(47, 53), (97, 13)]);
    assert_eq!(updates, vec![vec![75, 47, 61], vec![97]]);
    assert!(read_pages(b"47|99999999999999999999\n").is_none());
    assert!(read_pages(b"1,99999999999999999999\n").is_none());
    assert_eq!(read_pages(b"47|\n,5\n").unwrap(), (vec![], vec![]));
}

#[test]
fn machines_are_read() {
    let text = b"Button A: X+94, Y+34\nButton B: X+22, Y+67\nPrize: X=8400, Y=5400\n\n\
Button A: X+26, Y+66\nButton B: X+67, Y+21\nPrize: X=12748, Y=12176\n";
    let machines = read_machines(text).unwrap();
    assert_eq!(machines.len(), 2);
    assert_eq!(machines[0].button_a, [94, 34]);
    assert_eq!(machines[0].button_b, [22, 67]);
    assert_eq!(machines[0].prize, [8400, 5400]);
    assert_eq!(machines[1].prize, [12748, 12176]);
    assert!(read_machines(b"Button A: X+94, Y+34\n").is_none());
    assert!(read_machines(b"").is_none());
}

#[test]
fn a_program_is_read() {
    let text = b"Register A: 729\nRegister B: 0\nRegister C: 0\n\nProgram: 0,1,5,4,3,0\n";
    let (state, instrs, prog) = read_program(text).unwrap();
    assert_eq!((state.A, state.B, state.C), (729, 0, 0));
    assert_eq!(prog, vec![0, 1, 5, 4, 3, 0]);
    assert_eq!(
        instrs,
        vec![
            Instruction::Adv(ComboOperand::Literal(1)),
            Instruction::Out(ComboOperand::A),
            Instruction::Jnz(0),
        ]
    );
    assert!(read_program(b"Register A: 729\nRegister B: 0\nRegister C: 0\n").is_none());
    assert!(read_program(b"Register A: 7\nRegister B: 0\nRegister C: 0\n\nprogram: 0,1\n").is_none());
    assert!(read_program(b"Register A: 7\nRegister B: 0\nRegister C: 0\n\nProgram: 0,8\n").is_none());
    assert!(read_program(b"Register A: 7\nRegister B: 0\nRegister C: 0\n\nProgram: 0,7\n").is_none());
    assert!(read_program(b"Register A: 7\nRegister C: 0\n\nProgram: 0,1\n").is_none());
}

#[test]
fn instructions_are_decoded() {
    assert_eq!(decode(0, 4), Instruction::Adv(ComboOperand::A));
    assert_eq!(decode(1, 7), Instruction::Bxl(7));
    assert_eq!(decode(2, 5), Instruction::Bst(ComboOperand::B));
    assert_eq!(decode(3, 6), Instruction::Jnz(3));
    assert_eq!(decode(4, 7), Instruction::Bxc);
    assert_eq!(decode(5, 6), Instruction::Out(ComboOperand::C));
    assert_eq!(decode(6, 3), Instruction::Bdv(ComboOperand::Literal(3)));
    assert_eq!(decode(7, 0), Instruction::Cdv(ComboOperand::Literal(0)));
}

#[test]
fn calibrations_are_read() {
    let calibrations = read_calibrations(b"190: 10 19\n83: 17\n7\n").unwrap();
    assert_eq!(calibrations.len(), 3);
    assert_eq!(calibrations[0].test_value, 190);
    assert_eq!(calibrations[0].inputs, vec![10, 19]);
    assert_eq!(calibrations[2].test_value, 7);
    assert!(calibrations[2].inputs.is_empty());
    assert!(read_calibrations(b"190: 10 19\nnone\n").is_none());
    assert!(read_calibrations(b"99999999999999999999: 1\n").is_none());
}

#[test]
fn lists_are_parted() {
    assert_eq!(
        split_lists(&vec![vec![3, 4], vec![4, 3], vec![2, 5]]),
        Some((vec![3, 4, 2], vec![4, 3, 5]))
    );
    assert_eq!(split_lists(&vec![vec![3, 4], vec![4]]), None);
    assert_eq!(split_lists(&vec![vec![3, 4, 5]]), None);
    assert_eq!(split_lists(&Vec::new()), Some((vec![], vec![])));
}

#[test]
fn codes_are_read() {
    assert_eq!(
        read_codes(b"029A\nA\n"),
        Some(vec![
            vec![NumKey::Num(0), NumKey::Num(2), NumKey::Num(9), NumKey::Activate],
            vec![NumKey::Activate],
        ])
    );
    assert_eq!(read_codes(b"02B\n"), None);
}

#[test]
fn connections_are_read() {
    assert_eq!(
        read_connections(b"kh-tc\nqp-kh-x\n"),
        Some(vec![
            (b"kh".to_vec(), b"tc".to_vec()),
            (b"qp".to_vec(), b"kh-x".to_vec()),
        ])
    );
    assert_eq!(read_connections(b"kh-tc\nqp\n"), None);
}

#[test]
fn walls_are_read() {
    let (walls, start, end) = read_walls(b"####\n#S.#\n#.E#\n####\n").unwrap();
    assert_eq!(walls[0], vec![true, true, true, true]);
    assert_eq!(walls[1], vec![true, false, false, true]);
    assert_eq!(start, Some((1, 1)));
    assert_eq!(end, Some((2, 2)));
    let (_, start, end) = read_walls(b"S.S\n...\n").unwrap();
    assert_eq!(start, Some((0, 2)));
    assert_eq!(end, None);
    assert!(read_walls(b"#x#\n").is_none());
}

#[test]
fn antennas_are_read() {
    let (groups, rows, cols) = read_antennas(b"..a.\n.0.a\n#...\n").unwrap();
    assert_eq!((rows, cols), (3, 4));
    assert_eq!(groups.len(), 128);
    assert_eq!(groups[b'a' as usize], vec![(0, 2), (1, 3)]);
    assert_eq!(groups[b'0' as usize], vec![(1, 1)]);
    assert!(groups[b'#' as usize].is_empty());
    assert!(groups[b'.' as usize].is_empty());
    assert!(read_antennas(b"").is_none());
}

#[test]
fn a_disk_map_is_read() {
    let (files, frees, total) = read_disk(b"12045").unwrap();
    assert_eq!(total, 12);
    let files: Vec<(usize, usize, Option<usize>)> =
        files.iter().map(|file| (file.pos, file.len, file.id)).collect();
    assert_eq!(files, vec![(0, 1, Some(0)), (7, 5, Some(1))]);
    let frees: Vec<(usize, usize, Option<usize>)> =
        frees.iter().map(|free| (free.pos, free.len, free.id)).collect();
    assert_eq!(frees, vec![(1, 2, None), (3, 4, None)]);
    assert!(read_disk(b"12345\n").is_none());
}

#[test]
fn schematics_are_read() {
    let text = b"#####\n.####\n.####\n.####\n.#.#.\n.#...\n.....\n\n\
.....\n#....\n#....\n#...#\n#.#.#\n#.###\n#####\n";
    let (keys, locks) = read_schematics(text).unwrap();
    assert_eq!(locks, vec![[0, 5, 3, 4, 3]]);
    assert_eq!(keys, vec![[5, 0, 2, 1, 3]]);
    assert!(read_schematics(b"#####\n.####\n").is_none());
}

#[test]
fn towels_and_designs_are_read() {
    let (towels, designs) = read_towels(b"r, wr, b\n\nbrwrr\nbggr\n").unwrap();
    assert_eq!(towels.len(), 3);
    assert_eq!(towels[1], StripePattern(vec![Color::White, Color::Red]));
    assert_eq!(designs.len(), 2);
    assert_eq!(designs[1].0.len(), 4);
    assert!(read_towels(b"r, wr, b\n").is_none());
    assert!(read_towels(b"r, wx\n\nbr\n").is_none());
    assert!(read_towels(b"r, wr\n\nbr\n\nb\n").is_none());
}
