use puzzle_solvers::text::{
    all_lines, byte_grid, char_grid, find_block_end, find_digit_runs, number_rows, parse_number,
    parse_numbers, split_lines, split_words,
};

#[test]
fn numbers() {
    assert_eq!(parse_number(b"123", 0, 3), Some(123));
    assert_eq!(parse_number(b"+123", 0, 4), Some(123));
    assert_eq!(parse_number(b"x123y", 1, 4), Some(123));
    assert_eq!(parse_number(b"0", 0, 1), Some(0));
    assert_eq!(parse_number(b"007", 0, 3), Some(7));
    assert_eq!(parse_number(b"", 0, 0), None);
    assert_eq!(parse_number(b"+", 0, 1), None);
    assert_eq!(parse_number(b"-1", 0, 2), None);
    assert_eq!(parse_number(b"12a", 0, 3), None);
    assert_eq!(parse_number(b"18446744073709551615", 0, 20), Some(u64::MAX));
    assert_eq!(parse_number(b"18446744073709551616", 0, 20), None);
    assert_eq!(parse_number(b"99999999999999999999", 0, 20), None);
}

#[test]
fn lines() {
    assert_eq!(split_lines(b"ab\ncd", 0, 5), vec![(0, 2), (3, 5)]);
    assert_eq!(split_lines(b"ab\ncd\n", 0, 6), vec![(0, 2), (3, 5)]);
    assert_eq!(split_lines(b"ab\r\ncd\r", 0, 7), vec![(0, 2), (4, 7)]);
    assert_eq!(split_lines(b"\n\nx", 0, 3), vec![(0, 0), (1, 1), (2, 3)]);
    assert_eq!(split_lines(b"", 0, 0), Vec::<(usize, usize)>::new());
    assert_eq!(all_lines(b"a\nb"), vec![(0, 1), (2, 3)]);
}

#[test]
fn blocks() {
    assert_eq!(find_block_end(b"ab\ncd\n\nef", 0), 5);
    assert_eq!(find_block_end(b"ab\ncd\n\nef", 7), 9);
    assert_eq!(find_block_end(b"ab", 0), 2);
    assert_eq!(find_block_end(b"\n\n", 0), 0);
}

#[test]
fn digit_runs_and_words() {
    assert_eq!(find_digit_runs(b"a12b3 45", 0, 8), vec![(1, 3), (4, 5), (6, 8)]);
    assert_eq!(find_digit_runs(b"abc", 0, 3), Vec::<(usize, usize)>::new());
    assert_eq!(split_words(b"  ab  c\td ", 0, 10), vec![(2, 4), (6, 7), (8, 9)]);
    assert_eq!(parse_numbers(b"a12b3 45", &vec![(1, 3), (4, 5), (6, 8)]), Some(vec![12, 3, 45]));
    assert_eq!(parse_numbers(b"a12b3 45", &vec![(0, 3)]), None);
}

#[test]
fn grids_and_rows() {
    let text = b"ab\ncd";
    let lines = all_lines(text);
    assert_eq!(byte_grid(text, &lines), vec![vec![b'a', b'b'], vec![b'c', b'd']]);
    assert_eq!(char_grid(text, &lines), vec![vec!['a', 'b'], vec!['c', 'd']]);
    let text = b"1 2 3\n40  50\n\n6";
    let lines = all_lines(text);
    assert_eq!(number_rows(text, &lines), Some(vec![vec![1, 2, 3], vec![40, 50], vec![], vec![6]]));
    let text = b"1 x";
    assert_eq!(number_rows(text, &all_lines(text)), None);
}
