use puzzle_solvers::maze::{solve, Direction, COST_STEP, COST_TURN};

fn parse(lines: &[&str]) -> (Vec<Vec<bool>>, (usize, usize), (usize, usize)) {
    let mut start = (0, 0);
    let mut end = (0, 0);
    let mut walls = Vec::new();
    for (row, line) in lines.iter().enumerate() {
        let mut cells = Vec::new();
        for (col, c) in line.chars().enumerate() {
            if c == 'S' {
                start = (row, col);
            }
            if c == 'E' {
                end = (row, col);
            }
            cells.push(c == '#');
        }
        walls.push(cells);
    }
    (walls, start, end)
}

#[test]
fn maze_directions() {
    assert_eq!(Direction::Left.apply(5, 5), (5, 4));
    assert_eq!(Direction::Right.apply(5, 5), (5, 6));
    assert_eq!(Direction::Up.apply(5, 5), (4, 5));
    assert_eq!(Direction::Down.apply(5, 5), (6, 5));
    for dir in [Direction::Left, Direction::Right, Direction::Up, Direction::Down] {
        assert!(dir.turn_right().turn_left() == dir);
        assert!(dir.turn_right().turn_right().turn_right().turn_right() == dir);
        assert!(dir.turn_left().turn_left() == dir.turn_right().turn_right());
    }
    assert!(Direction::Up.turn_right() == Direction::Right);
    assert!(Direction::Up.turn_left() == Direction::Left);
}

#[test]
fn costs() {
    assert_eq!(COST_STEP, 1);
    assert_eq!(COST_TURN, 1000);
}

#[test]
fn straight_corridor() {
    let (walls, start, end) = parse(&["#####", "#S.E#", "#####"]);
    assert_eq!(solve(&walls, start.0, start.1, end.0, end.1), (2, 3));
}

#[test]
fn one_turn() {
    let (walls, start, end) = parse(&["####", "#E##", "#.##", "#S.#", "####"]);
    assert_eq!(solve(&walls, start.0, start.1, end.0, end.1), (1002, 3));
}

#[test]
fn end_behind_the_start_takes_two_turns() {
    let (walls, start, end) = parse(&["####", "#ES#", "####"]);
    assert_eq!(solve(&walls, start.0, start.1, end.0, end.1), (2001, 2));
}

#[test]
fn end_beside_the_start_takes_one_turn() {
    let (walls, start, end) = parse(&["###", "#E#", "#S#", "###"]);
    assert_eq!(solve(&walls, start.0, start.1, end.0, end.1), (1001, 2));
}

#[test]
fn end_behind_a_wall_is_out_of_reach() {
    let (walls, start, end) = parse(&["#####", "#S#E#", "#####"]);
    assert_eq!(solve(&walls, start.0, start.1, end.0, end.1), (u64::MAX, 1));
    let (walls, start, _) = parse(&["###", "#S#", "###"]);
    assert_eq!(solve(&walls, start.0, start.1, 7, 7), (u64::MAX, 1));
}

#[test]
fn two_routes_of_one_cost_share_the_count() {
    let (walls, start, end) = parse(&[
        "#####",
        "#...#",
        "#S#E#",
        "#...#",
        "#####",
    ]);
    // up, right, right, down and down, right, right, up both cost 3004
    assert_eq!(solve(&walls, start.0, start.1, end.0, end.1), (3004, 8));
}

#[test]
fn start_is_the_end() {
    let (walls, start, _) = parse(&["###", "#S#", "###"]);
    assert_eq!(solve(&walls, start.0, start.1, start.0, start.1), (0, 1));
}

#[test]
fn cheaper_of_two_routes() {
    let (walls, start, end) = parse(&[
        "#####",
        "#..E#",
        "#.#.#",
        "#S..#",
        "#####",
    ]);
    // right, right, up, up costs 1004; up, up, right, right costs 2004
    assert_eq!(solve(&walls, start.0, start.1, end.0, end.1), (1004, 5));
}

#[test]
fn first_sample_maze() {
    let (walls, start, end) = parse(&[
        "###############",
        "#.......#....E#",
        "#.#.###.#.###.#",
        "#.....#.#...#.#",
        "#.###.#####.#.#",
        "#.#.#.......#.#",
        "#.#.#####.###.#",
        "#...........#.#",
        "###.#.#####.#.#",
        "#...#.....#.#.#",
        "#.#.#.###.#.#.#",
        "#.....#...#.#.#",
        "#.###.#.#.#.#.#",
        "#S..#.....#...#",
        "###############",
    ]);
    assert_eq!(solve(&walls, start.0, start.1, end.0, end.1), (7036, 45));
}

#[test]
fn second_sample_maze() {
    let (walls, start, end) = parse(&[
        "#################",
        "#...#...#...#..E#",
        "#.#.#.#.#.#.#.#.#",
        "#.#.#.#...#...#.#",
        "#.#.#.#.###.#.#.#",
        "#...#.#.#.....#.#",
        "#.#.#.#.#.#####.#",
        "#.#...#.#.#.....#",
        "#.#.#####.#.###.#",
        "#.#.#.......#...#",
        "#.#.###.#####.###",
        "#.#.#...#.....#.#",
        "#.#.#.#####.###.#",
        "#.#.#.........#.#",
        "#.#.#.#########.#",
        "#S#.............#",
        "#################",
    ]);
    assert_eq!(solve(&walls, start.0, start.1, end.0, end.1), (11048, 64));
}
