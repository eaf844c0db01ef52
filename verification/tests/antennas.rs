use puzzle_solvers::antennas::solve;

fn roof(lines: &[&str]) -> (Vec<Vec<(isize, isize)>>, usize, usize) {
    let mut groups: Vec<(char, Vec<(isize, isize)>)> = Vec::new();
    for (row, line) in lines.iter().enumerate() {
        for (col, c) in line.chars().enumerate() {
            if c.is_alphanumeric() {
                match groups.iter_mut().find(|(key, _)| *key == c) {
                    Some((_, positions)) => positions.push((row as isize, col as isize)),
                    None => groups.push((c, vec![(row as isize, col as isize)])),
                }
            }
        }
    }
    (groups.into_iter().map(|(_, positions)| positions).collect(), lines.len(), lines[0].len())
}

const SAMPLE: [&str; 12] = [
    "............",
    "........0...",
    ".....0......",
    ".......0....",
    "....0.......",
    "......A.....",
    "............",
    "............",
    "........A...",
    ".........A..",
    "............",
    "............",
];

#[test]
fn antinodes_of_the_sample() {
    let (antennas, rows, cols) = roof(&SAMPLE);
    assert_eq!(solve(&antennas, rows, cols, true), 14);
    assert_eq!(solve(&antennas, rows, cols, false), 34);
}

#[test]
fn two_antennas() {
    let (antennas, rows, cols) = roof(&["..........", "...a......", "..........", "......a...", ".........."]);
    // (−1, 0) lies off the roof, (5, 9) too
    assert_eq!(solve(&antennas, rows, cols, true), 0);
    let (antennas, rows, cols) = roof(&[".....", ".a...", "..a..", ".....", "....."]);
    assert_eq!(solve(&antennas, rows, cols, true), 2);
    assert_eq!(solve(&antennas, rows, cols, false), 5);
}

#[test]
fn single_antennas_make_no_antinodes() {
    let (antennas, rows, cols) = roof(&["a.b", ".c."]);
    assert_eq!(solve(&antennas, rows, cols, true), 0);
    assert_eq!(solve(&antennas, rows, cols, false), 0);
    assert_eq!(solve(&vec![], 3, 3, false), 0);
}
