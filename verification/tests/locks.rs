use puzzle_solvers::locks::{count_valid_pairs, key_fits, read_heights};
use puzzle_solvers::text::split_lines;

#[test]
fn heights_of_a_lock() {
    let text = b"#####\n.####\n.####\n.####\n.#.#.\n.#...\n.....";
    let lines = split_lines(text, 0, text.len());
    assert_eq!(read_heights(text, &lines), (true, [0, 5, 3, 4, 3]));
}

#[test]
fn heights_of_a_key() {
    let text = b".....\n#....\n#....\n#...#\n#.#.#\n#.###\n#####";
    let lines = split_lines(text, 0, text.len());
    assert_eq!(read_heights(text, &lines), (false, [5, 0, 2, 1, 3]));
}

#[test]
fn fitting() {
    assert!(!key_fits(&[5, 0, 2, 1, 3], &[0, 5, 3, 4, 3]));
    assert!(key_fits(&[3, 0, 2, 0, 1], &[0, 5, 3, 4, 3]));
    assert!(key_fits(&[0, 0, 0, 0, 0], &[5, 5, 5, 5, 5]));
}

#[test]
fn pairs_of_the_sample() {
    let locks = vec![[0, 5, 3, 4, 3], [1, 2, 0, 5, 3]];
    let keys = vec![[5, 0, 2, 1, 3], [4, 3, 4, 0, 2], [3, 0, 2, 0, 1]];
    assert_eq!(count_valid_pairs(&keys, &locks), 3);
    assert_eq!(count_valid_pairs(&vec![], &locks), 0);
}
