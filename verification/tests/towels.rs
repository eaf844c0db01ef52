use puzzle_solvers::towels::{
    build_towels, count_all_ways, count_possible, count_ways, is_possible, Color, StripePattern,
};

fn pattern(text: &str) -> StripePattern {
    StripePattern(text.bytes().map(|letter| Color::try_from(letter).unwrap()).collect())
}

fn sample_towels() -> Vec<StripePattern> {
    ["r", "wr", "b", "g", "bwu", "rb", "gb", "br"].iter().map(|towel| pattern(towel)).collect()
}

fn sample_designs() -> Vec<StripePattern> {
    ["brwrr", "bggr", "gbbr", "rrbgbr", "ubwu", "bwurrg", "brgr", "bbrgwb"]
        .iter()
        .map(|design| pattern(design))
        .collect()
}

#[test]
fn colours_are_read_from_their_letters() {
    assert!(Color::try_from(b'w').is_ok());
    assert!(Color::try_from(b'u').is_ok());
    assert!(Color::try_from(b'b').is_ok());
    assert!(Color::try_from(b'r').is_ok());
    assert!(Color::try_from(b'g').is_ok());
    assert_eq!(Color::try_from(b'x').err(), Some(b'x'));
    assert_eq!(Color::try_from(b'r').unwrap().letter(), b'r');
}

#[test]
fn sample_designs_that_are_possible() {
    let towels = build_towels(&sample_towels());
    assert!(towels.get(&vec![Color::try_from(b'r').unwrap().code()]).is_some());
    let designs = sample_designs();
    let possible: Vec<bool> =
        designs.iter().map(|design| is_possible(&towels, &design.0)).collect();
    assert_eq!(possible, vec![true, true, true, true, false, true, true, false]);
    assert_eq!(count_possible(&towels, &designs), 6);
}

#[test]
fn sample_ways_to_make_the_designs() {
    let towels = build_towels(&sample_towels());
    let designs = sample_designs();
    let ways: Vec<u64> = designs.iter().map(|design| count_ways(&towels, &design.0)).collect();
    assert_eq!(ways, vec![2, 1, 4, 6, 0, 1, 2, 0]);
    assert_eq!(count_all_ways(&towels, &designs), 16);
}

#[test]
fn the_empty_design_is_made_in_one_way() {
    let towels = build_towels(&sample_towels());
    assert_eq!(count_ways(&towels, &Vec::new()), 1);
    assert!(is_possible(&towels, &Vec::new()));
}

#[test]
fn no_towels_make_no_design() {
    let towels = build_towels(&Vec::new());
    assert_eq!(count_ways(&towels, &pattern("r").0), 0);
    assert!(!is_possible(&towels, &pattern("r").0));
}

#[test]
fn a_design_that_can_be_laid_out_is_walked_through() {
    let towels = build_towels(&sample_towels());
    let mut designs = sample_designs();
    designs.push(pattern("rbgbrwrbwu"));
    designs.push(pattern("wrwrwrg"));
    designs.push(pattern("uuu"));
    for design in &designs {
        if count_ways(&towels, &design.0) > 0 {
            assert!(is_possible(&towels, &design.0));
        }
    }
    assert_eq!(count_ways(&towels, &pattern("wrwrwrg").0), 1);
    assert_eq!(count_ways(&towels, &pattern("uuu").0), 0);
}
