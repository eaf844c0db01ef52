use puzzle_solvers::claw::{cheapest_win, solve_a, Machine};

fn samples() -> Vec<Machine> {
    vec![
        Machine { button_a: [94, 34], button_b: [22, 67], prize: [8400, 5400] },
        Machine { button_a: [26, 66], button_b: [67, 21], prize: [12748, 12176] },
        Machine { button_a: [17, 86], button_b: [84, 37], prize: [7870, 6450] },
        Machine { button_a: [69, 23], button_b: [27, 71], prize: [18641, 10279] },
    ]
}

#[test]
fn cheapest_wins_of_the_samples() {
    let machines = samples();
    assert_eq!(cheapest_win(&machines[0]), Some(280));
    assert_eq!(cheapest_win(&machines[1]), None);
    assert_eq!(cheapest_win(&machines[2]), Some(200));
    assert_eq!(cheapest_win(&machines[3]), None);
}

#[test]
fn tokens_for_the_samples() {
    assert_eq!(solve_a(&samples()), 480);
}

#[test]
fn cheaper_of_two_ways() {
    // 3 presses of B or 1 press of A reach the prize: B costs 3, A costs 3 as well;
    // with A twice as far as B, one A (3 tokens) against two B (2 tokens)
    let machine = Machine { button_a: [2, 2], button_b: [1, 1], prize: [2, 2] };
    assert_eq!(cheapest_win(&machine), Some(2));
}

#[test]
fn prize_at_the_claw() {
    let machine = Machine { button_a: [1, 1], button_b: [1, 1], prize: [0, 0] };
    assert_eq!(cheapest_win(&machine), Some(0));
}

#[test]
fn a_hundred_presses_are_too_many() {
    let machine = Machine { button_a: [1, 0], button_b: [0, 1], prize: [100, 1] };
    assert_eq!(cheapest_win(&machine), None);
    let machine = Machine { button_a: [1, 0], button_b: [0, 1], prize: [99, 99] };
    assert_eq!(cheapest_win(&machine), Some(3 * 99 + 99));
}

#[test]
fn no_machines_no_tokens() {
    assert_eq!(solve_a(&vec![]), 0);
}
