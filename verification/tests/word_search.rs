use puzzle_solvers::word_search::{solve_a, solve_b};

fn grid(lines: &[&str]) -> Vec<Vec<char>> {
    lines.iter().map(|line| line.chars().collect()).collect()
}

const SAMPLE: [&str; 10] = [
    "MMMSXXMASM",
    "MSAMXMSMSA",
    "AMXSXMAAMM",
    "MSAMASMSMX",
    "XMASAMXAMM",
    "XXAMMXXAMA",
    "SMSMSASXSS",
    "SAXAMASAAA",
    "MAMMMXMMMM",
    "MXMXAXMASX",
];

#[test]
fn words_in_the_sample() {
    assert_eq!(solve_a(&grid(&SAMPLE)), 18);
}

#[test]
fn crosses_in_the_sample() {
    assert_eq!(solve_b(&grid(&SAMPLE)), 9);
}

#[test]
fn word_in_every_direction() {
    assert_eq!(solve_a(&grid(&["XMAS"])), 1);
    assert_eq!(solve_a(&grid(&["SAMX"])), 1);
    assert_eq!(solve_a(&grid(&["X", "M", "A", "S"])), 1);
    assert_eq!(solve_a(&grid(&["X...", ".M..", "..A.", "...S"])), 1);
    assert_eq!(solve_a(&grid(&["...S", "..A.", ".M..", "X..."])), 1);
    assert_eq!(solve_a(&grid(&["XMA"])), 0);
}

#[test]
fn single_cross() {
    assert_eq!(solve_b(&grid(&["M.S", ".A.", "M.S"])), 1);
    assert_eq!(solve_b(&grid(&["M.S", ".A.", "S.M"])), 0);
    assert_eq!(solve_b(&grid(&["M.S", ".A."])), 0);
    assert_eq!(solve_b(&grid(&["A"])), 0);
}

#[test]
fn grid_without_columns() {
    assert_eq!(solve_a(&vec![vec![], vec![]]), 0);
    assert_eq!(solve_b(&vec![vec![], vec![], vec![]]), 0);
}
