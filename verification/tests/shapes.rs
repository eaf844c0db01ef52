use puzzle_solvers::shapes::{
    find_shape, present, read_comma_list, read_lines, read_pieces, read_shape, Piece, Read,
};
use puzzle_solvers::text::all_lines;

fn pair() -> Vec<Piece> {
    vec![Piece::Number, Piece::Byte(b','), Piece::Signed]
}

#[test]
fn pieces_are_read_in_their_order() {
    let text = b"12,-7x";
    assert_eq!(read_pieces(text, 0, 6, &pair(), 0), Read::Found(vec![(false, 12), (true, 7)], 5));
    assert_eq!(read_pieces(text, 1, 6, &pair(), 0), Read::Found(vec![(false, 2), (true, 7)], 5));
    assert_eq!(read_pieces(text, 0, 6, &pair(), 2), Read::Found(vec![(false, 12)], 2));
    assert_eq!(read_pieces(text, 2, 6, &pair(), 2), Read::Miss);
    assert_eq!(read_pieces(text, 3, 6, &pair(), 2), Read::Found(vec![(true, 7)], 5));
    assert_eq!(read_pieces(text, 2, 6, &pair(), 0), Read::Miss);
    assert_eq!(read_pieces(text, 0, 2, &pair(), 0), Read::Miss);
    assert_eq!(read_pieces(text, 6, 6, &pair(), 3), Read::Found(vec![], 6));
}

#[test]
fn a_minus_sign_belongs_to_signed_numbers_only() {
    let unsigned = vec![Piece::Number];
    assert_eq!(read_pieces(b"-5", 0, 2, &unsigned, 0), Read::Miss);
    let signed = vec![Piece::Signed];
    assert_eq!(read_pieces(b"-5", 0, 2, &signed, 0), Read::Found(vec![(true, 5)], 2));
    assert_eq!(read_pieces(b"5", 0, 1, &signed, 0), Read::Found(vec![(false, 5)], 1));
    assert_eq!(read_pieces(b"-", 0, 1, &signed, 0), Read::Miss);
}

#[test]
fn numbers_beyond_64_bits_are_told_apart() {
    let number = vec![Piece::Number, Piece::Byte(b';')];
    assert_eq!(
        read_pieces(b"18446744073709551615;", 0, 21, &number, 0),
        Read::Found(vec![(false, u64::MAX)], 21)
    );
    assert_eq!(read_pieces(b"18446744073709551616;", 0, 21, &number, 0), Read::TooLarge(21));
    assert_eq!(read_pieces(b"18446744073709551616", 0, 20, &number, 0), Read::Miss);
}

#[test]
fn a_shape_spans_the_whole_text() {
    assert_eq!(read_shape(b"3,4", 0, 3, &pair()), Some(Some(vec![(false, 3), (false, 4)])));
    assert_eq!(read_shape(b"3,4 ", 0, 4, &pair()), Some(None));
    assert_eq!(read_shape(b"3,99999999999999999999", 0, 22, &pair()), None);
    assert_eq!(read_shape(b"3,99999999999999999999 ", 0, 23, &pair()), Some(None));
}

#[test]
fn lines_are_read_one_by_one() {
    let text = b"1,2\nnothing\n3,-4\n";
    let lines = all_lines(text);
    assert_eq!(
        read_lines(text, &lines, &pair()),
        Some(vec![Some(vec![(false, 1), (false, 2)]), None, Some(vec![(false, 3), (true, 4)])])
    );
    let text = b"1,2\n3,99999999999999999999\n";
    assert_eq!(read_lines(text, &all_lines(text), &pair()), None);
}

#[test]
fn the_first_place_of_a_shape_is_found() {
    let text = b"ab 1 2,3 4,5";
    assert_eq!(find_shape(text, 0, 12, &pair()), (5, Read::Found(vec![(false, 2), (false, 3)], 8)));
    assert_eq!(find_shape(text, 6, 12, &pair()), (9, Read::Found(vec![(false, 4), (false, 5)], 12)));
    assert_eq!(find_shape(text, 10, 12, &pair()), (13, Read::Miss));
    assert_eq!(find_shape(text, 0, 7, &pair()), (8, Read::Miss));
}

#[test]
fn lists_with_commas() {
    assert_eq!(read_comma_list(b"75,47,61", 0, 8), Some(Some(vec![75, 47, 61])));
    assert_eq!(read_comma_list(b"75", 0, 2), Some(Some(vec![75])));
    assert_eq!(read_comma_list(b"75,", 0, 3), Some(None));
    assert_eq!(read_comma_list(b",75", 0, 3), Some(None));
    assert_eq!(read_comma_list(b"7|5", 0, 3), Some(None));
    assert_eq!(read_comma_list(b"", 0, 0), Some(None));
    assert_eq!(read_comma_list(b"1,99999999999999999999", 0, 22), None);
}

#[test]
fn present_items_keep_their_order() {
    assert_eq!(present(&vec![None, Some(3), None, Some(1), Some(2)]), vec![3, 1, 2]);
    assert_eq!(present(&Vec::<Option<u8>>::new()), Vec::<u8>::new());
}
