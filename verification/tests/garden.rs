use puzzle_solvers::garden::{
    find_region_sides, find_stats_a, find_stats_b, solve_a, solve_b, Direction, Perimeter,
};

fn garden(lines: &[&str]) -> Vec<Vec<char>> {
    lines.iter().map(|line| line.chars().collect()).collect()
}

const SMALL: [&str; 4] = ["AAAA", "BBCD", "BBCC", "EEEC"];

const HOLES: [&str; 5] = ["OOOOO", "OXOXO", "OOOOO", "OXOXO", "OOOOO"];

const LARGE: [&str; 10] = [
    "RRRRIICCFF",
    "RRRRIICCCF",
    "VVRRRCCFFF",
    "VVRCCCJFFF",
    "VVVVCJJCFE",
    "VVIVCCJJEE",
    "VVIIICJJEE",
    "MIIIIIJJEE",
    "MIIISIJEEE",
    "MMMISSJEEE",
];

#[test]
fn price_by_perimeter() {
    assert_eq!(solve_a(&garden(&SMALL)), 140);
    assert_eq!(solve_a(&garden(&HOLES)), 772);
    assert_eq!(solve_a(&garden(&LARGE)), 1930);
}

#[test]
fn price_by_sides() {
    assert_eq!(solve_b(&garden(&SMALL)), 80);
    assert_eq!(solve_b(&garden(&HOLES)), 436);
    assert_eq!(solve_b(&garden(&LARGE)), 1206);
    assert_eq!(solve_b(&garden(&["EEEEE", "EXXXX", "EEEEE", "EXXXX", "EEEEE"])), 236);
    assert_eq!(
        solve_b(&garden(&["AAAAAA", "AAABBA", "AAABBA", "ABBAAA", "ABBAAA", "AAAAAA"])),
        368
    );
}

#[test]
fn single_plot() {
    assert_eq!(solve_a(&garden(&["A"])), 4);
    assert_eq!(solve_b(&garden(&["A"])), 4);
}

#[test]
fn stats_of_one_region() {
    let map = garden(&SMALL);
    let mut visited = vec![vec![false; 4]; 4];
    assert_eq!(find_stats_a(&map, &mut visited, 1, 2, 'C'), (4, 10));
    assert!(visited[1][2] && visited[2][2] && visited[2][3] && visited[3][3]);
    assert!(!visited[1][3] && !visited[0][0]);
}

#[test]
fn stats_of_another_plant() {
    let map = garden(&SMALL);
    let mut visited = vec![vec![false; 4]; 4];
    assert_eq!(find_stats_a(&map, &mut visited, 0, 0, 'B'), (0, 0));
    assert!(!visited[0][0]);
}

#[test]
fn pieces_and_sides_of_one_region() {
    let map = garden(&SMALL);
    let mut visited = vec![vec![false; 4]; 4];
    let mut perimeter = Perimeter::new();
    assert_eq!(find_stats_b(&map, &mut visited, &mut perimeter, 1, 2, 'C'), 4);
    assert_eq!(perimeter.horizontal.len() + perimeter.vertical.len(), 10);
    assert_eq!(find_region_sides(&map, &mut perimeter, 'C'), 8);
    assert!(perimeter.horizontal.is_empty() && perimeter.vertical.is_empty());
}

#[test]
fn the_other_direction() {
    assert!(Direction::Vertical.inv() == Direction::Horizontal);
    assert!(Direction::Horizontal.inv() == Direction::Vertical);
}
