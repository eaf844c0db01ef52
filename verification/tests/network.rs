use puzzle_solvers::network::{
    bron_kerbosch_pivot, build_network, count_triangles, join_names, largest_clique,
    maximal_cliques, password,
};
use std::collections::HashSet;

fn connections(text: &str) -> Vec<(Vec<u8>, Vec<u8>)> {
    text.split_whitespace()
        .map(|pair| {
            let (a, b) = pair.split_once('-').unwrap();
            (a.as_bytes().to_vec(), b.as_bytes().to_vec())
        })
        .collect()
}

const SAMPLE: &str = "kh-tc qp-kh de-cg ka-co yn-aq qp-ub cg-tb vc-aq tb-ka wh-tc yn-cg kh-ub \
    ta-co de-co tc-td tb-wq wh-td ta-ka td-qp aq-cg wq-ub ub-vc de-ta wq-aq wq-vc wh-yn ka-de \
    kh-ta co-tc wh-qp tb-vc td-yn";

#[test]
fn sample_network_has_seven_triangles_with_t() {
    let net = build_network(&connections(SAMPLE));
    assert_eq!(net.node_count(), 16);
    assert_eq!(net.edge_count(), 32);
    assert_eq!(count_triangles(&net), 7);
}

#[test]
fn sample_network_password() {
    let net = build_network(&connections(SAMPLE));
    let cliques = maximal_cliques(&net);
    let place = largest_clique(&cliques);
    assert_eq!(cliques[place].len(), 4);
    assert_eq!(password(&net, &cliques[place]), b"co,de,ka,ta".to_vec());
}

#[test]
fn maximal_cliques_of_a_small_graph() {
    // 0 - 2 - 3, 0 - 1 - 2, and a computer that only joins itself to 3.
    let net = build_network(&connections("a-b a-c b-c c-d"));
    let mut found: Vec<Vec<usize>> = maximal_cliques(&net)
        .into_iter()
        .map(|clique| {
            let mut members: Vec<usize> = clique.into_iter().collect();
            members.sort();
            members
        })
        .collect();
    found.sort();
    assert_eq!(found, vec![vec![0, 1, 2], vec![2, 3]]);
}

#[test]
fn search_with_a_node_already_taken() {
    let net = build_network(&connections("a-b a-c b-c c-d"));
    let adjacency = vec![
        vec![false, true, true, false],
        vec![true, false, true, false],
        vec![true, true, false, true],
        vec![false, false, true, false],
    ];
    let r: HashSet<usize> = [2].into_iter().collect();
    let p: HashSet<usize> = [0, 1, 3].into_iter().collect();
    let x: HashSet<usize> = HashSet::new();
    let mut found: Vec<Vec<usize>> = bron_kerbosch_pivot(&net, &adjacency, r, p, x)
        .into_iter()
        .map(|clique| {
            let mut members: Vec<usize> = clique.into_iter().collect();
            members.sort();
            members
        })
        .collect();
    found.sort();
    assert_eq!(found, vec![vec![0, 1, 2], vec![2, 3]]);
}

#[test]
fn no_triangle_without_a_t() {
    let net = build_network(&connections("a-b a-c b-c"));
    assert_eq!(count_triangles(&net), 0);
    let net = build_network(&connections("a-b a-tc b-tc"));
    assert_eq!(count_triangles(&net), 1);
    let net = build_network(&connections("a-b a-ct b-ct"));
    assert_eq!(count_triangles(&net), 0);
}

#[test]
fn the_last_of_the_largest_sets_is_picked() {
    let sets: Vec<HashSet<usize>> = vec![
        [1, 2].into_iter().collect(),
        [3].into_iter().collect(),
        [4, 5].into_iter().collect(),
        HashSet::new(),
    ];
    assert_eq!(largest_clique(&sets), 2);
}

#[test]
fn names_are_joined_by_commas() {
    assert_eq!(join_names(&vec![]), Vec::<u8>::new());
    assert_eq!(join_names(&vec![b"ab".to_vec()]), b"ab".to_vec());
    assert_eq!(join_names(&vec![b"ab".to_vec(), b"c".to_vec()]), b"ab,c".to_vec());
}

#[test]
fn names_of_a_password_stand_in_order() {
    let net = build_network(&connections("zz-b b-za za-zz"));
    let all: HashSet<usize> = [0, 1, 2].into_iter().collect();
    assert_eq!(password(&net, &all), b"b,za,zz".to_vec());
}

#[test]
fn every_maximal_clique_is_listed_once() {
    let text = "a-b a-c b-c c-d";
    let mut net = build_network(&connections(text));
    net.add_node(b"e".to_vec());
    let mut found: Vec<Vec<usize>> = maximal_cliques(&net)
        .into_iter()
        .map(|clique| {
            let mut members: Vec<usize> = clique.into_iter().collect();
            members.sort();
            members
        })
        .collect();
    found.sort();
    assert_eq!(found, vec![vec![0, 1, 2], vec![2, 3], vec![4]]);
}
