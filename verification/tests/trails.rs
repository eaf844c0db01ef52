use puzzle_solvers::trails::{solve, CellSet};

fn heights(lines: &[&str]) -> (Vec<Vec<u32>>, CellSet) {
    let mut trailheads = CellSet::default();
    let mut map = Vec::new();
    for (row, line) in lines.iter().enumerate() {
        let mut cells = Vec::new();
        for (col, c) in line.chars().enumerate() {
            if c == '0' {
                trailheads.insert((row as isize, col as isize));
            }
            cells.push(c as u32 - '0' as u32);
        }
        map.push(cells);
    }
    (map, trailheads)
}

#[test]
fn scores_and_ratings_of_the_sample() {
    let (map, trailheads) = heights(&[
        "89010123",
        "78121874",
        "87430965",
        "96549874",
        "45678903",
        "32019012",
        "01329801",
        "10456732",
    ]);
    assert_eq!(solve(&map, &trailheads), (36, 81));
}

#[test]
fn one_trailhead_two_tops() {
    let (map, trailheads) = heights(&["0123", "1234", "8765", "9876"]);
    assert_eq!(solve(&map, &trailheads), (1, 16));
}

#[test]
fn no_trailheads() {
    let (map, trailheads) = heights(&["123", "456"]);
    assert_eq!(solve(&map, &trailheads), (0, 0));
}

#[test]
fn trailhead_without_a_trail() {
    let (map, trailheads) = heights(&["09", "29"]);
    assert_eq!(solve(&map, &trailheads), (0, 0));
}

#[test]
fn parsed_sample_map() {
    let text = b"89010123\n78121874\n87430965\n96549874\n45678903\n32019012\n01329801\n10456732\n";
    let (map, heads) = puzzle_solvers::trails::parse(text).unwrap();
    assert_eq!(map.len(), 8);
    assert_eq!(map[0], vec![8, 9, 0, 1, 0, 1, 2, 3]);
    assert_eq!(heads.len(), 9);
    assert!(heads.contains(&(0, 2)) && heads.contains(&(7, 1)));
    assert_eq!(puzzle_solvers::trails::solve(&map, &heads), (36, 81));
}

#[test]
fn a_map_holds_digits_only() {
    assert!(puzzle_solvers::trails::parse(b"012\n3x5\n").is_none());
    let (map, heads) = puzzle_solvers::trails::parse(b"").unwrap();
    assert!(map.is_empty() && heads.is_empty());
}
