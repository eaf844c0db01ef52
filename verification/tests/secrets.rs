use puzzle_solvers::secrets::{advance, next_secret_number, sum_of_secrets};

#[test]
fn secrets_after_123() {
    let expected = [
        15887950u64, 16495136, 527345, 704524, 1553684, 12683156, 11100544, 12249484, 7753432,
        5908254,
    ];
    let mut secret = 123;
    for next in expected {
        secret = next_secret_number(secret);
        assert_eq!(secret, next);
    }
}

#[test]
fn two_thousandth_secrets() {
    assert_eq!(advance(1, 2000), 8685429);
    assert_eq!(advance(10, 2000), 4700978);
    assert_eq!(advance(100, 2000), 15273692);
    assert_eq!(advance(2024, 2000), 8667524);
    assert_eq!(advance(7, 0), 7);
}

#[test]
fn sum_of_two_thousandth_secrets() {
    assert_eq!(sum_of_secrets(&vec![1, 10, 100, 2024]), 37327623);
    assert_eq!(sum_of_secrets(&vec![]), 0);
}

#[test]
fn secrets_stay_below_the_modulus() {
    assert!(next_secret_number(u64::MAX) < 0x1000000);
    assert!(next_secret_number(0) == 0);
}

#[test]
fn sample_best_sequence_of_changes() {
    let best = puzzle_solvers::secrets::best_sequence(&vec![1, 2, 3, 2024]);
    assert_eq!(best, (23, Some([-2, 1, -1, 3])));
}

#[test]
fn no_buyers_sell_nothing() {
    assert_eq!(puzzle_solvers::secrets::best_sequence(&Vec::new()), (0, None));
}

#[test]
fn one_buyer_pays_the_best_first_price() {
    // The prices of 123 begin 3, 0, 6, 5, 4, 4, 6, 4, 4, 2; some later price
    // is a 9 that four changes lead to for the first time.
    let best = puzzle_solvers::secrets::best_sequence(&vec![123]);
    assert_eq!(best.0, 9);
    assert!(best.1.is_some());
}
