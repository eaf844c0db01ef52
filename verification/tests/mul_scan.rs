use puzzle_solvers::mul_scan::{read_mul, solve_a, solve_b};

#[test]
fn multiplications_of_the_sample() {
    let text = b"xmul(2,4)%&mul[3,7]!@^do_not_mul(5,5)+mul(32,64]then(mul(11,8)mul(8,5))";
    assert_eq!(solve_a(text), Some(161));
}

#[test]
fn switched_multiplications_of_the_sample() {
    let text = b"xmul(2,4)&mul[3,7]!^don't()_mul(5,5)+mul(32,64](mul(11,8)undo()?mul(8,5))";
    assert_eq!(solve_b(text), Some(48));
    assert_eq!(solve_a(text), Some(161));
}

#[test]
fn shapes_that_are_no_multiplication() {
    assert_eq!(solve_a(b"mul(4*"), Some(0));
    assert_eq!(solve_a(b"mul(6,9!"), Some(0));
    assert_eq!(solve_a(b"?(12,34)"), Some(0));
    assert_eq!(solve_a(b"mul ( 2 , 4 )"), Some(0));
    assert_eq!(solve_a(b"mul(,4)"), Some(0));
    assert_eq!(solve_a(b"mul(3,)"), Some(0));
    assert_eq!(solve_a(b""), Some(0));
    assert_eq!(solve_a(b"mul(mul(2,3)"), Some(6));
}

#[test]
fn numbers_that_do_not_fit() {
    assert_eq!(solve_a(b"mul(99999999999999999999,1)"), None);
    assert_eq!(solve_a(b"mul(18446744073709551615,2)"), None);
    assert_eq!(solve_a(b"mul(18446744073709551615,1)mul(1,1)"), None);
    assert_eq!(solve_a(b"mul(18446744073709551615,1)"), Some(u64::MAX));
    assert_eq!(solve_b(b"don't()mul(99999999999999999999,1)"), Some(0));
}

#[test]
fn reading_one_multiplication() {
    let (found, shaped) = read_mul(b"xmul(12,345)y", 1);
    assert!(shaped);
    let found = found.unwrap();
    assert_eq!((found.n, found.m, found.end), (12, 345, 12));
    let (found, shaped) = read_mul(b"xmul(12,345)y", 0);
    assert!(!shaped && found.is_none());
}

#[test]
fn do_and_dont() {
    assert_eq!(solve_b(b"don'tmul(2,2)domul(3,3)"), Some(9));
    assert_eq!(solve_b(b"dmul(2,2)"), Some(4));
}
