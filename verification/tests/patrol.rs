use puzzle_solvers::patrol::{solve_a, solve_b, DIR};

fn lab(lines: &[&str]) -> Vec<Vec<char>> {
    lines.iter().map(|line| line.chars().collect()).collect()
}

const SAMPLE: [&str; 10] = [
    "....#.....",
    ".........#",
    "..........",
    "..#.......",
    ".......#..",
    "..........",
    ".#..^.....",
    "........#.",
    "#.........",
    "......#...",
];

#[test]
fn turning() {
    assert!(DIR::UP.rotate() == DIR::RIGHT);
    assert!(DIR::RIGHT.rotate() == DIR::DOWN);
    assert!(DIR::DOWN.rotate() == DIR::LEFT);
    assert!(DIR::LEFT.rotate() == DIR::UP);
    assert_eq!(DIR::UP.to_offset(), (-1, 0));
    assert_eq!(DIR::RIGHT.to_offset(), (0, 1));
    assert_eq!(DIR::DOWN.to_offset(), (1, 0));
    assert_eq!(DIR::LEFT.to_offset(), (0, -1));
}

#[test]
fn cells_on_the_patrol() {
    assert_eq!(solve_a(&lab(&SAMPLE)), 41);
}

#[test]
fn places_for_an_obstacle() {
    assert_eq!(solve_b(&lab(&SAMPLE)), 6);
}

#[test]
fn straight_out() {
    assert_eq!(solve_a(&lab(&["...", ".^.", "..."])), 2);
    assert_eq!(solve_b(&lab(&["...", ".^.", "..."])), 0);
}

#[test]
fn lab_without_a_mark() {
    // the guard starts in the upper left corner and leaves at once
    assert_eq!(solve_a(&lab(&["..", ".."])), 1);
}

#[test]
fn an_obstacle_that_closes_a_ring() {
    // right of the guard's way out, the obstacle at (0, 2) sends her round for ever
    let map = lab(&[".....", "....#", "..^..", ".#...", "...#."]);
    assert_eq!(solve_a(&map), 3);
    assert_eq!(solve_b(&map), 1);
}
