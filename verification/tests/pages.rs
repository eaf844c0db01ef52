use puzzle_solvers::pages::{has_rule, obeys_rules, solve_a, solve_b, sort_out};

fn sample_rules() -> Vec<(u64, u64)> {
    vec![
        (47, 53), (97, 13), (97, 61), (97, 47), (75, 29), (61, 13), (75, 53), (29, 13),
        (97, 29), (53, 29), (61, 53), (97, 53), (61, 29), (47, 13), (75, 47), (97, 75),
        (47, 61), (75, 61), (47, 29), (75, 13), (53, 13),
    ]
}

fn sample_updates() -> Vec<Vec<u64>> {
    vec![
        vec![75, 47, 61, 53, 29],
        vec![97, 61, 53, 29, 13],
        vec![75, 29, 13],
        vec![75, 97, 47, 61, 53],
        vec![61, 13, 29],
        vec![97, 13, 75, 29, 47],
    ]
}

#[test]
fn rules_are_found_in_one_direction() {
    let rules = sample_rules();
    assert!(has_rule(&rules, 47, 53));
    assert!(!has_rule(&rules, 53, 47));
    assert!(!has_rule(&rules, 1, 2));
}

#[test]
fn sample_updates_are_sorted_out() {
    let rules = sample_rules();
    let updates = sample_updates();
    assert!(obeys_rules(&rules, &updates[0]));
    assert!(obeys_rules(&rules, &updates[1]));
    assert!(obeys_rules(&rules, &updates[2]));
    assert!(!obeys_rules(&rules, &updates[3]));
    assert!(!obeys_rules(&rules, &updates[4]));
    assert!(!obeys_rules(&rules, &updates[5]));
    let (valid, invalid) = sort_out(&rules, &updates);
    assert_eq!(valid, updates[0..3].to_vec());
    assert_eq!(invalid, updates[3..6].to_vec());
}

#[test]
fn a_single_page_obeys_every_rule() {
    assert!(obeys_rules(&sample_rules(), &vec![13]));
}

#[test]
fn sample_middle_pages_of_valid_updates() {
    let updates = sample_updates();
    assert_eq!(solve_a(&updates[0..3].to_vec()), 143);
    assert_eq!(solve_a(&Vec::new()), 0);
}

#[test]
fn sample_middle_pages_after_ordering() {
    let updates = sample_updates();
    assert_eq!(solve_b(&sample_rules(), updates[3..6].to_vec()), 123);
}

#[test]
fn ordering_uses_the_rules_among_the_pages_only() {
    // The order puts a page before the pages that the rules put before it,
    // so of two pages the earlier one ends up in the second place.
    let rules = vec![(1, 2), (2, 3)];
    assert_eq!(solve_b(&rules, vec![vec![1, 3, 2]]), 2);
    assert_eq!(solve_b(&rules, vec![vec![1, 2]]), 1);
    assert_eq!(solve_b(&rules, vec![vec![2, 3]]), 2);
    assert_eq!(solve_b(&rules, vec![vec![7]]), 7);
}
