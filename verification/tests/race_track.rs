use puzzle_solvers::race_track::{find_all_cheats, find_shortest_path};

fn parse(lines: &[&str]) -> (Vec<Vec<bool>>, (usize, usize), (usize, usize)) {
    let mut start = (0, 0);
    let mut end = (0, 0);
    let mut walls = Vec::new();
    for (row, line) in lines.iter().enumerate() {
        let mut cells = Vec::new();
        for (col, c) in line.chars().enumerate() {
            if c == 'S' {
                start = (row, col);
            }
            if c == 'E' {
                end = (row, col);
            }
            cells.push(c == '#');
        }
        walls.push(cells);
    }
    (walls, start, end)
}

const SAMPLE: [&str; 15] = [
    "###############",
    "#...#...#.....#",
    "#.#.#.#.#.###.#",
    "#S#...#.#.#...#",
    "#######.#.#.###",
    "#######.#.#...#",
    "#######.#.###.#",
    "###..E#...#...#",
    "###.#######.###",
    "#...###...#...#",
    "#.#####.#.###.#",
    "#.#...#.#.#...#",
    "#.#.#.#.#.#.###",
    "#...#...#...###",
    "###############",
];

/// Two corridors of `len` cells, one above the other, joined at their right end.
fn hairpin(len: usize) -> (Vec<Vec<bool>>, (usize, usize), (usize, usize)) {
    let size = len + 2;
    let mut walls = vec![vec![true; size]; size];
    for col in 1..=len {
        walls[1][col] = false;
        walls[3][col] = false;
    }
    walls[2][len] = false;
    (walls, (1, 1), (3, 1))
}

#[test]
fn times_on_the_sample_track() {
    let (walls, start, end) = parse(&SAMPLE);
    let times = find_shortest_path(&walls, start.0, start.1, end.0, end.1);
    assert_eq!(times[start.0][start.1], Some(0));
    assert_eq!(times[end.0][end.1], Some(84));
    assert_eq!(times[2][1], Some(1));
    assert_eq!(times[0][0], None);
    assert_eq!(times.len(), 15);
}

#[test]
fn no_cheat_saves_a_hundred_on_the_sample() {
    let (walls, start, end) = parse(&SAMPLE);
    assert_eq!(find_all_cheats(&walls, start.0, start.1, end.0, end.1, 2), 0);
    assert_eq!(find_all_cheats(&walls, start.0, start.1, end.0, end.1, 20), 0);
}

#[test]
fn times_on_the_hairpin() {
    let (walls, start, end) = hairpin(60);
    let times = find_shortest_path(&walls, start.0, start.1, end.0, end.1);
    assert_eq!(times[1][60], Some(59));
    assert_eq!(times[2][60], Some(60));
    assert_eq!(times[3][60], Some(61));
    assert_eq!(times[3][1], Some(120));
}

#[test]
fn cheats_across_the_hairpin() {
    // jumping from (1, c) to (3, c) saves 120 - 2c steps: enough for c <= 10
    let (walls, start, end) = hairpin(60);
    assert_eq!(find_all_cheats(&walls, start.0, start.1, end.0, end.1, 2), 10);
}

#[test]
fn no_cheat_without_cheat_time() {
    let (walls, start, end) = hairpin(60);
    assert_eq!(find_all_cheats(&walls, start.0, start.1, end.0, end.1, 0), 0);
    assert_eq!(find_all_cheats(&walls, start.0, start.1, end.0, end.1, 1), 0);
}

#[test]
fn longer_cheats_across_the_hairpin() {
    // with three steps the jump may also end one column to the left or right
    let (walls, start, end) = hairpin(60);
    let mut expected = 0;
    for from in 1..=60i64 {
        for to in 1..=60i64 {
            let steps = 2 + (from - to).abs();
            let saved = (121 - to) - (from - 1) - steps;
            if steps <= 3 && saved >= 100 {
                expected += 1;
            }
        }
    }
    assert_eq!(find_all_cheats(&walls, start.0, start.1, end.0, end.1, 3), expected);
}

#[test]
fn a_track_need_not_be_square() {
    let walls: Vec<Vec<bool>> = ["#######", "#S...E#", "#######"]
        .iter()
        .map(|line| line.bytes().map(|byte| byte == b'#').collect())
        .collect();
    let times = puzzle_solvers::race_track::find_shortest_path(&walls, 1, 1, 1, 5);
    assert_eq!(times.len(), 3);
    assert_eq!(times[1], vec![None, Some(0), Some(1), Some(2), Some(3), Some(4), None]);
    assert_eq!(times[0], vec![None; 7]);
    assert_eq!(puzzle_solvers::race_track::find_all_cheats(&walls, 1, 1, 1, 5, 2), 0);
}
