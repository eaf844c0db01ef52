use puzzle_solvers::reports::{is_report_save, solve_a, solve_b};

fn sample() -> Vec<Vec<u64>> {
    vec![
        vec![7, 6, 4, 2, 1],
        vec![1, 2, 7, 8, 9],
        vec![9, 7, 6, 2, 1],
        vec![1, 3, 2, 4, 5],
        vec![8, 6, 4, 4, 1],
        vec![1, 3, 6, 7, 9],
    ]
}

#[test]
fn safe_report_descending() {
    assert!(is_report_save(&vec![7, 6, 4, 2, 1]));
}

#[test]
fn unsafe_report_large_step() {
    assert!(!is_report_save(&vec![1, 2, 7, 8, 9]));
}

#[test]
fn unsafe_report_repeated_level() {
    assert!(!is_report_save(&vec![8, 6, 4, 4, 1]));
}

#[test]
fn unsafe_report_direction_change() {
    assert!(!is_report_save(&vec![1, 3, 2, 4, 5]));
}

#[test]
fn count_safe_reports() {
    assert_eq!(solve_a(&sample()), 2);
}

#[test]
fn count_tolerable_reports() {
    assert_eq!(solve_b(&sample()), 4);
}
