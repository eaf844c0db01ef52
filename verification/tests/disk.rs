use puzzle_solvers::disk::{solve_a, solve_b, Space};

fn layout(map: &str) -> (Vec<Space>, Vec<Space>, usize) {
    let mut files = Vec::new();
    let mut free_list = Vec::new();
    let mut total_size = 0;
    let mut next_file_id = 0;
    for (idx, c) in map.chars().enumerate() {
        let num = c as usize - '0' as usize;
        if num == 0 {
            continue;
        }
        if idx % 2 == 1 {
            free_list.push(Space { pos: total_size, len: num, id: None });
        } else {
            files.push(Space { pos: total_size, len: num, id: Some(next_file_id) });
            next_file_id += 1;
        }
        total_size += num;
    }
    (files, free_list, total_size)
}

#[test]
fn checksum_after_moving_blocks() {
    let (files, free_list, total_size) = layout("2333133121414131402");
    assert_eq!(solve_a(files, free_list, total_size), 1928);
}

#[test]
fn checksum_after_moving_files() {
    let (files, free_list, total_size) = layout("2333133121414131402");
    assert_eq!(solve_b(files, free_list, total_size), 2858);
}

#[test]
fn small_disk() {
    // 0..111....22222 becomes 022111222......
    let (files, free_list, total_size) = layout("12345");
    assert_eq!(solve_a(files, free_list, total_size), 1 * 2 + 2 * 2 + 3 + 4 + 5 + 6 * 2 + 7 * 2 + 8 * 2);
    let (files, free_list, total_size) = layout("12345");
    // no file fits into a free run before it
    assert_eq!(
        solve_b(files, free_list, total_size),
        3 + 4 + 5 + 2 * (10 + 11 + 12 + 13 + 14)
    );
}

#[test]
fn empty_disk() {
    assert_eq!(solve_a(vec![], vec![], 0), 0);
    assert_eq!(solve_b(vec![], vec![], 0), 0);
}
