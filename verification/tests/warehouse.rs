use puzzle_solvers::warehouse::{
    draw_map, push_boxes, push_wide_boxes, read_instructions, read_map, solve_a, solve_b, sum_boxes,
    sum_wide_boxes, widen, Direction, Object, Object2,
};
use puzzle_solvers::text::split_lines;

const SMALL: &str = "########
#..O.O.#
##@.O..#
#...O..#
#.#.O..#
#...O..#
#......#
########

<^^>>>vv<v>>v<<
";

const LARGE: &str = "##########
#..O..O.O#
#......O.#
#.OO..O.O#
#..O@..O.#
#O#..O...#
#O..O..O.#
#.OO.O.OO#
#....O...#
##########

<vv>^<v^>v>^vv^v>v<>v^v<v<^vv<<<^><<><>>v<vvv<>^v^>^<<<><<v<<<v^vv^v>^
vvv<<^>^v^^><<>>><>^<<><^vv^^<>vvv<>><^^v>^>vv<>v<<<<v<^v>^<^^>>>^<v<v
><>vv>v^v^<>><>>>><^^>vv>v<^^^>>v^v^<^^>v^^>v^<^v>v<>>v^v^<v>v^^<^^vv<
<<v<^>>^^^^>>>v^<>vvv^><v<<<>^^^vv^<vvv>^>v<^^^^v<>^>vvvv><>>v^<<^^^^^
^><^><>>><>^^<<^^v>>><^<v>^<vv>>v>>>^v><>^v><<<<v>>v<v<v>vvv>^<><<>^><
^>><>^v<><^vvv<^^<><v<<<<<><^v<<<><<<^^<v<^^^><^>>^<v^><<<^>>^v<v^v<v^
>^>>^v>vv>^<<^v<>><<><<v<<v><>v<^vv<<<>^^v^>^^>>><<^v>>v^v><^^>>^<>vv^
<><^^>^^^<><vvvvv^v<v<<>^v<v>v<<^><<><<><<<^^<<<^<<>><<><^^^>^^<>^>v<>
^^>vv<^v^v<vv>^<><v<^v>^^^>>>^^vvv^>vvv<>>>^<^>>>>>^<<^v>^vvv<>^<><<v>
v^^>>><<^^<>>^v^<v^vv<>v^<<>^<^v^v><^<<<><<^<v><v<>vv>>v><v^<vv<>v^<<^
";

#[test]
fn warehouse_directions() {
    assert_eq!(Direction::Up.apply(3, 3), (2, 3));
    assert_eq!(Direction::Right.apply(3, 3), (3, 4));
    assert_eq!(Direction::Down.apply(3, 3), (4, 3));
    assert_eq!(Direction::Left.apply(3, 3), (3, 2));
}

#[test]
fn boxes_of_the_small_sample() {
    assert_eq!(solve_a(SMALL.as_bytes()), 2028);
}

#[test]
fn boxes_of_the_large_sample() {
    assert_eq!(solve_a(LARGE.as_bytes()), 10092);
}

#[test]
fn reading_a_map() {
    let text = b"####\n#O@#\n####";
    let lines = split_lines(text, 0, text.len());
    let (map, robot) = read_map(text, &lines).unwrap();
    assert_eq!(robot, Some((1, 2)));
    assert!(map[1][1] == Some(Object::Box));
    assert!(map[1][2] == None);
    assert!(map[0][0] == Some(Object::Border));
    assert_eq!(map.len(), 3);
}

#[test]
fn reading_a_map_with_a_stray_byte() {
    let text = b"####\n#Ox#\n####";
    let lines = split_lines(text, 0, text.len());
    assert!(read_map(text, &lines).is_none());
}

#[test]
fn reading_a_map_without_a_robot() {
    let text = b"####\n#O.#\n####";
    let lines = split_lines(text, 0, text.len());
    assert_eq!(read_map(text, &lines).unwrap().1, None);
}

#[test]
fn reading_instructions() {
    let text = b"<^\n>v\n";
    let read = read_instructions(text, 0, text.len()).unwrap();
    assert!(read == vec![Direction::Left, Direction::Up, Direction::Right, Direction::Down]);
    assert!(read_instructions(b"<^x", 0, 3).is_none());
    assert!(read_instructions(b"<^x", 0, 2).is_some());
}

#[test]
fn pushing_a_row_of_boxes() {
    let text = b"#######\n#@OO..#\n#######";
    let lines = split_lines(text, 0, text.len());
    let (mut map, robot) = read_map(text, &lines).unwrap();
    let (row, col) = robot.unwrap();
    let robot = push_boxes(&mut map, row, col, &vec![Direction::Right; 5]);
    assert_eq!(robot, (1, 3));
    assert!(map[1][4] == Some(Object::Box) && map[1][5] == Some(Object::Box));
    assert!(map[1][1] == None && map[1][2] == None && map[1][3] == None);
    assert_eq!(sum_boxes(&map), 100 + 4 + 100 + 5);
}

const WIDE: &str = "#######
#...#.#
#.....#
#..OO@#
#..O..#
#.....#
#######

<vv<<^^<<^^
";

#[test]
fn wide_boxes_of_the_samples() {
    assert_eq!(solve_b(LARGE.as_bytes()), Some(9021));
    assert_eq!(solve_b(WIDE.as_bytes()), Some(105 + 207 + 306));
}

#[test]
fn widening() {
    let text = b"####\n#O@#\n####";
    let lines = split_lines(text, 0, text.len());
    let (map, _) = read_map(text, &lines).unwrap();
    let wide = widen(&map);
    assert_eq!(wide[1].len(), 8);
    assert!(wide[1][0] == Some(Object2::Border) && wide[1][1] == Some(Object2::Border));
    assert!(wide[1][2] == Some(Object2::BoxStart) && wide[1][3] == Some(Object2::BoxEnd));
    assert!(wide[1][4] == None && wide[1][5] == None);
    assert_eq!(sum_wide_boxes(&wide), 102);
}

#[test]
fn pushing_wide_boxes_up() {
    // one box pushes two boxes above it
    let text = b"######\n#....#\n#.OO.#\n#..O.#\n#..@.#\n######";
    let lines = split_lines(text, 0, text.len());
    let (map, robot) = read_map(text, &lines).unwrap();
    let (row, col) = robot.unwrap();
    let mut wide = widen(&map);
    // shift the lower box by one cell to the left, so that it touches both upper boxes
    wide[3][6] = None;
    wide[3][7] = None;
    wide[3][5] = Some(Object2::BoxStart);
    wide[3][6] = Some(Object2::BoxEnd);
    let robot = push_wide_boxes(&mut wide, row, 2 * col, &vec![Direction::Up]);
    assert_eq!(robot, Some((3, 6)));
    assert!(wide[2][5] == Some(Object2::BoxStart) && wide[2][6] == Some(Object2::BoxEnd));
    assert!(wide[1][4] == Some(Object2::BoxStart) && wide[1][5] == Some(Object2::BoxEnd));
    assert!(wide[1][6] == Some(Object2::BoxStart) && wide[1][7] == Some(Object2::BoxEnd));
    assert!(wide[3][5] == None && wide[3][6] == None);
    // the border stops the next push
    let robot = push_wide_boxes(&mut wide, 3, 6, &vec![Direction::Up]);
    assert_eq!(robot, Some((3, 6)));
    assert!(wide[2][5] == Some(Object2::BoxStart));
}

#[test]
fn wide_warehouse_is_drawn() {
    let map = vec![
        vec![Some(Object2::Border), Some(Object2::Border), Some(Object2::Border), Some(Object2::Border)],
        vec![Some(Object2::Border), None, Some(Object2::BoxStart), Some(Object2::BoxEnd)],
    ];
    assert_eq!(draw_map(&map, 1, 1), vec![b"####".to_vec(), b"#@[]".to_vec()]);
    assert_eq!(draw_map(&map, 0, 0), vec![b"@###".to_vec(), b"#.[]".to_vec()]);
    assert_eq!(draw_map(&map, 5, 5), vec![b"####".to_vec(), b"#.[]".to_vec()]);
}

#[test]
fn wide_boxes_stay_whole() {
    let text = LARGE.as_bytes();
    let map_end = puzzle_solvers::text::find_block_end(text, 0);
    let lines = split_lines(text, 0, map_end);
    let (map, robot) = read_map(text, &lines).unwrap();
    let (row, col) = robot.unwrap();
    let moves_to = puzzle_solvers::text::find_block_end(text, map_end + 2);
    let instructions = read_instructions(text, map_end + 2, moves_to).unwrap();
    let mut wide = widen(&map);
    let boxes_before = wide.iter().flatten().filter(|cell| **cell == Some(Object2::BoxStart)).count();
    let mut at = (row, 2 * col);
    for dir in instructions {
        // every instruction can be carried out
        at = push_wide_boxes(&mut wide, at.0, at.1, &vec![dir]).unwrap();
        assert!(wide[at.0][at.1] == None);
        for line in &wide {
            for c in 0..line.len() {
                if line[c] == Some(Object2::BoxStart) {
                    assert!(line[c + 1] == Some(Object2::BoxEnd));
                }
                if line[c] == Some(Object2::BoxEnd) {
                    assert!(line[c - 1] == Some(Object2::BoxStart));
                }
            }
        }
    }
    let boxes_after = wide.iter().flatten().filter(|cell| **cell == Some(Object2::BoxStart)).count();
    assert_eq!(boxes_before, boxes_after);
    assert_eq!(sum_wide_boxes(&wide), 9021);
}
