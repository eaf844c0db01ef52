use puzzle_solvers::calibration::{
    find_next_power_10, solve_a, solve_a_helper, solve_b, solve_b_helper, Calibration,
};

fn samples() -> Vec<Calibration> {
    let rows: Vec<(u64, Vec<u64>)> = vec![
        (190, vec![10, 19]),
        (3267, vec![81, 40, 27]),
        (83, vec![17, 5]),
        (156, vec![15, 6]),
        (7290, vec![6, 8, 6, 15]),
        (161011, vec![16, 10, 13]),
        (192, vec![17, 8, 14]),
        (21037, vec![9, 7, 18, 13]),
        (292, vec![11, 6, 16, 20]),
    ];
    rows.into_iter().map(|(test_value, inputs)| Calibration { test_value, inputs }).collect()
}

#[test]
fn sums_and_products() {
    assert!(solve_a_helper(190, &[10, 19]));
    assert!(solve_a_helper(3267, &[81, 40, 27]));
    assert!(solve_a_helper(292, &[11, 6, 16, 20]));
    assert!(!solve_a_helper(83, &[17, 5]));
    assert!(!solve_a_helper(156, &[15, 6]));
}

#[test]
fn joined_digits() {
    assert!(solve_b_helper(156, &[15, 6]));
    assert!(solve_b_helper(7290, &[6, 8, 6, 15]));
    assert!(solve_b_helper(192, &[17, 8, 14]));
    assert!(!solve_b_helper(21037, &[9, 7, 18, 13]));
}

#[test]
fn single_number_and_no_number() {
    assert!(solve_a_helper(5, &[5]));
    assert!(!solve_a_helper(6, &[5]));
    assert!(solve_a_helper(0, &[]));
    assert!(!solve_a_helper(1, &[]));
    assert!(solve_b_helper(5, &[5]));
    assert!(solve_b_helper(0, &[]));
}

#[test]
fn powers_of_ten() {
    assert_eq!(find_next_power_10(1), 10);
    assert_eq!(find_next_power_10(9), 10);
    assert_eq!(find_next_power_10(10), 100);
    assert_eq!(find_next_power_10(99), 100);
    assert_eq!(find_next_power_10(12345), 100000);
}

#[test]
fn sample_sums() {
    assert_eq!(solve_a(&samples()), 3749);
    assert_eq!(solve_b(&samples()), 11387);
}
