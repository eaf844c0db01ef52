use puzzle_solvers::stones::{
    calc_lookup_tables, solve_lookup, solve_memoization, solve_smart, solve_smart_fast,
    solve_stupid,
};

#[test]
fn single_blink_rules() {
    // 0 becomes 1, 1 becomes 2024, 10 splits into 1 and 0, 99 into 9 and 9.
    assert_eq!(solve_stupid::<1>(vec![0, 1, 10, 99, 999]), 7);
    assert_eq!(solve_smart::<1>(vec![0, 1, 10, 99, 999]), 7);
}

#[test]
fn no_blink_counts_the_row() {
    assert_eq!(solve_stupid::<0>(vec![5, 6, 7]), 3);
    assert_eq!(solve_smart::<0>(vec![5, 6, 7]), 3);
    assert_eq!(solve_smart_fast::<0>(vec![5, 6, 7]), 3);
    assert_eq!(solve_memoization(vec![5, 6, 7], 0), 3);
}

#[test]
fn empty_row_has_no_stones() {
    assert_eq!(solve_stupid::<6>(vec![]), 0);
    assert_eq!(solve_smart::<6>(vec![]), 0);
    assert_eq!(solve_memoization(vec![], 6), 0);
}

#[test]
fn six_blinks() {
    assert_eq!(solve_stupid::<6>(vec![125, 17]), 22);
    assert_eq!(solve_smart::<6>(vec![125, 17]), 22);
    assert_eq!(solve_smart_fast::<6>(vec![125, 17]), 22);
    assert_eq!(solve_memoization(vec![125, 17], 6), 22);
}

#[test]
fn twenty_five_blinks() {
    assert_eq!(solve_stupid::<25>(vec![125, 17]), 55312);
    assert_eq!(solve_smart::<25>(vec![125, 17]), 55312);
    assert_eq!(solve_smart_fast::<25>(vec![125, 17]), 55312);
    assert_eq!(solve_memoization(vec![125, 17], 25), 55312);
}

#[test]
fn tables_hold_counts_of_small_stones() {
    let tables = calc_lookup_tables::<10>(4);
    assert_eq!(tables.len(), 3);
    // one blink: every single digit stays one stone
    assert_eq!(tables[0], [1u64; 10]);
    // two blinks: 1 -> 2024 -> 20 24
    assert_eq!(tables[1][1], 2);
    // three blinks: 0 -> 1 -> 2024 -> 20 24
    assert_eq!(tables[2][0], 2);
    // three blinks: 1 -> 2024 -> 20 24 -> 2 0 2 4
    assert_eq!(tables[2][1], 4);
}

#[test]
fn no_tables_for_fewer_than_two_blinks() {
    assert_eq!(calc_lookup_tables::<10>(0).len(), 0);
    assert_eq!(calc_lookup_tables::<10>(1).len(), 0);
}

#[test]
fn lookup_agrees_with_the_walk() {
    let tables = calc_lookup_tables::<10>(30);
    assert_eq!(solve_lookup(vec![125, 17], 6, &tables), 22);
    assert_eq!(solve_lookup(vec![125, 17], 25, &tables), 55312);
    assert_eq!(solve_lookup(vec![125, 17], 40, &tables), solve_memoization(vec![125, 17], 40));
}

#[test]
fn lookup_without_tables() {
    let tables: Vec<[u64; 10]> = Vec::new();
    assert_eq!(solve_lookup(vec![125, 17], 25, &tables), 55312);
}

#[test]
fn seventy_five_blinks() {
    let tables = calc_lookup_tables::<10>(75);
    assert_eq!(solve_lookup(vec![125, 17], 75, &tables), 65601038650482);
    assert_eq!(solve_memoization(vec![125, 17], 75), 65601038650482);
}
