use puzzle_solvers::location_lists::{solve_a, solve_b};

#[test]
fn distance_of_the_sample() {
    assert_eq!(solve_a(vec![3, 4, 2, 1, 3, 3], vec![4, 3, 5, 3, 9, 3]), 11);
}

#[test]
fn similarity_of_the_sample() {
    assert_eq!(solve_b(vec![3, 4, 2, 1, 3, 3], vec![4, 3, 5, 3, 9, 3]), 31);
}

#[test]
fn lists_of_different_length() {
    // the smallest two of the longer list are paired
    assert_eq!(solve_a(vec![10, 1, 5], vec![7, 2]), 1 + 2);
    assert_eq!(solve_a(vec![], vec![7, 2]), 0);
}

#[test]
fn order_does_not_matter() {
    assert_eq!(solve_a(vec![1, 2, 3], vec![3, 2, 1]), 0);
    assert_eq!(solve_b(vec![2, 2], vec![2, 1, 2, 2]), 12);
    assert_eq!(solve_b(vec![5], vec![]), 0);
}
