use puzzle_solvers::memory_grid::{corrupt, find_path, first_cut};

fn sample(bytes: usize) -> Vec<Vec<bool>> {
    let falling = [
        (5, 4), (4, 2), (4, 5), (3, 0), (2, 1), (6, 3), (2, 4), (1, 5), (0, 6), (3, 3), (2, 6),
        (5, 1), (1, 2), (5, 5), (2, 5), (6, 5), (1, 4), (0, 4), (6, 4), (1, 1), (6, 1), (1, 0),
        (0, 5), (1, 6), (2, 0),
    ];
    let mut map = vec![vec![false; 7]; 7];
    for &(row, col) in falling.iter().take(bytes) {
        map[row][col] = true;
    }
    map
}

#[test]
fn shortest_way_through_the_sample() {
    assert_eq!(find_path(&sample(12), 7, true), Some(22));
}

#[test]
fn any_way_through_the_sample() {
    let found = find_path(&sample(12), 7, false);
    assert!(found.is_some());
    assert!(found.unwrap() >= 22);
}

#[test]
fn way_is_cut_by_the_twenty_first_byte() {
    assert!(find_path(&sample(20), 7, false).is_some());
    assert_eq!(find_path(&sample(21), 7, false), None);
    assert_eq!(find_path(&sample(21), 7, true), None);
}

#[test]
fn single_cell() {
    assert_eq!(find_path(&vec![vec![false]], 1, true), Some(0));
    assert_eq!(find_path(&vec![vec![false]], 1, false), Some(0));
}

#[test]
fn empty_square() {
    let map = vec![vec![false; 5]; 5];
    assert_eq!(find_path(&map, 5, true), Some(8));
}

#[test]
fn only_the_corner_of_a_larger_map_counts() {
    let mut map = vec![vec![false; 6]; 6];
    map[0][1] = true;
    map[1][0] = true;
    assert_eq!(find_path(&map, 3, true), None);
    map[1][0] = false;
    assert_eq!(find_path(&map, 3, true), Some(4));
}

fn sample_bytes() -> Vec<(usize, usize)> {
    vec![
        (5, 4), (4, 2), (4, 5), (3, 0), (2, 1), (6, 3), (2, 4), (1, 5), (0, 6), (3, 3), (2, 6),
        (5, 1), (1, 2), (5, 5), (2, 5), (6, 5), (1, 4), (0, 4), (6, 4), (1, 1), (6, 1), (1, 0),
        (0, 5), (1, 6), (2, 0),
    ]
}

#[test]
fn sample_bytes_corrupt_the_memory() {
    let map = corrupt(&sample_bytes(), 12, 7);
    assert_eq!(map.len(), 7);
    assert!(map[5][4] && map[2][6] && map[5][1]);
    assert!(!map[1][2] && !map[0][0]);
    assert_eq!(map.iter().flatten().filter(|cell| **cell).count(), 12);
    assert_eq!(find_path(&map, 7, true), Some(22));
    let all = corrupt(&sample_bytes(), 100, 7);
    assert_eq!(all.iter().flatten().filter(|cell| **cell).count(), 25);
}

#[test]
fn sample_first_byte_that_cuts_the_way() {
    let bytes = sample_bytes();
    let mut map = corrupt(&bytes, 12, 7);
    assert_eq!(first_cut(&mut map, &bytes, 12, 7), (6, 1));
    assert_eq!(map.iter().flatten().filter(|cell| **cell).count(), 21);
}
