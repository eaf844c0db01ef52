//! A network of computers joined in pairs: the groups of three that are all
//! joined to each other, and the largest group of computers that are.
//!
//! The network is kept as an undirected graph of `petgraph`; the groups are
//! found by the search of Bron and Kerbosch with a pivot.

use vstd::prelude::*;
use vstd::set_lib::{lemma_len_subset, lemma_set_subset_finite};
use vstd::std_specs::hash::spec_hash_keys_iter;
use vstd::std_specs::iter::IteratorSpec;
use std::collections::HashSet;
use petgraph::graph::{Graph, NodeIndex};
use petgraph::visit::GetAdjacencyMatrix;
use petgraph::Undirected;
use crate::counting::{
    lemma_sum_below_mono, lemma_sum_over_permuted, lemma_sum_over_take, sum_below, sum_over,
};
use crate::text::grid_view;

use crate::text::{
    all_lines, copy_part, copy_whole, first_where, lines_of, parts_within, same_bytes,
};

verus! {

/// The graph type of `petgraph`.
#[verifier::external_type_specification]
#[verifier::external_body]
#[verifier::reject_recursive_types(N)]
#[verifier::reject_recursive_types(E)]
#[verifier::reject_recursive_types(Ty)]
#[verifier::reject_recursive_types(Ix)]
pub struct ExGraph<N, E, Ty, Ix>(Graph<N, E, Ty, Ix>);

/// The marker of `petgraph` for graphs whose links have no direction.
#[verifier::external_type_specification]
#[verifier::external_body]
pub struct ExUndirected(Undirected);

/// A network: each node holds the name of a computer.
pub type Network = Graph<Vec<u8>, (), Undirected, u32>;

/// The names of the computers, by node index.
pub uninterp spec fn net_names(net: Network) -> Seq<Seq<u8>>;

/// The links of the network in the order in which they were made, each as
/// the pair of node indices it was made with.
pub uninterp spec fn net_links(net: Network) -> Seq<(int, int)>;

/// The most nodes, and the most links, that a graph indexed by 32 bits
/// takes.
pub open spec fn net_limit() -> nat {
    0xffff_ffff
}

/// The link at `k` joins `a` and `b`.
pub open spec fn joins(links: Seq<(int, int)>, k: int, a: int, b: int) -> bool {
    links[k] == (a, b) || links[k] == (b, a)
}

/// Some link joins `a` and `b`.
pub open spec fn linked(links: Seq<(int, int)>, a: int, b: int) -> bool {
    exists|k: int| 0 <= k < links.len() && #[trigger] joins(links, k, a, b)
}

/// Some link joins the two nodes.
pub open spec fn near(links: Seq<(int, int)>, a: usize, b: usize) -> bool {
    linked(links, a as int, b as int)
}

/// The number of links that join `a` and `b`.
pub open spec fn joint(links: Seq<(int, int)>, a: int, b: int) -> nat
    decreases links.len(),
{
    if links.len() == 0 {
        0
    } else {
        joint(links.drop_last(), a, b) + if joins(links, links.len() - 1, a, b) {
            1nat
        } else {
            0nat
        }
    }
}

/// The list holds the neighbours of a node: each node as often as links join
/// the two.
pub open spec fn neighbours_listed(links: Seq<(int, int)>, at: int, list: Seq<usize>) -> bool {
    forall|b: usize| #[trigger] list.to_multiset().count(b) == joint(links, at, b as int)
}

/// The table tells of any two nodes whether a link joins them.
pub open spec fn is_adjacency(links: Seq<(int, int)>, size: nat, table: Seq<Seq<bool>>) -> bool {
    &&& table.len() == size
    &&& forall|a: int| 0 <= a < size ==> (#[trigger] table[a]).len() == size
    &&& forall|a: int, b: int|
        0 <= a < size && 0 <= b < size ==> #[trigger] table[a][b] == linked(links, a, b)
}

/// The list holds each member of the set once.
pub open spec fn lists_set(set: Set<usize>, list: Seq<usize>) -> bool {
    &&& list.no_duplicates()
    &&& forall|v: usize| list.contains(v) <==> set.contains(v)
}

/// `Graph::new_undirected`: a network without nodes and links.
#[verifier::external_body]
fn net_new() -> (net: Network)
    ensures
        net_names(net).len() == 0,
        net_links(net).len() == 0,
{
    Graph::new_undirected()
}

/// `Graph::add_node`: the name gets the next node index.
#[verifier::external_body]
fn net_add_node(net: &mut Network, name: Vec<u8>) -> (at: usize)
    requires
        net_names(*old(net)).len() < net_limit(),
    ensures
        at == net_names(*old(net)).len(),
        net_names(*final(net)) == net_names(*old(net)).push(name@),
        net_links(*final(net)) == net_links(*old(net)),
{
    net.add_node(name).index()
}

/// `Graph::add_edge`: one more link between two nodes of the network.
#[verifier::external_body]
fn net_add_edge(net: &mut Network, a: usize, b: usize)
    requires
        a < net_names(*old(net)).len(),
        b < net_names(*old(net)).len(),
        net_links(*old(net)).len() < net_limit(),
    ensures
        net_names(*final(net)) == net_names(*old(net)),
        net_links(*final(net)) == net_links(*old(net)).push((a as int, b as int)),
{
    net.add_edge(NodeIndex::new(a), NodeIndex::new(b), ());
}

/// `Graph::node_count`: the number of nodes.
#[verifier::external_body]
fn net_size(net: &Network) -> (size: usize)
    ensures
        size == net_names(*net).len(),
{
    net.node_count()
}

/// `Graph::node_weight`: the name that a node holds.
#[verifier::external_body]
fn net_name(net: &Network, at: usize) -> (name: Vec<u8>)
    requires
        at < net_names(*net).len(),
    ensures
        name@ == net_names(*net)[at as int],
{
    net.node_weight(NodeIndex::new(at)).unwrap().clone()
}

/// `Graph::neighbors`: the nodes that a link joins to the node, each as
/// often as links do, in an order that is not told here.
#[verifier::external_body]
fn net_neighbors(net: &Network, at: usize) -> (list: Vec<usize>)
    requires
        at < net_names(*net).len(),
    ensures
        neighbours_listed(net_links(*net), at as int, list@),
{
    net.neighbors(NodeIndex::new(at)).map(|b| b.index()).collect()
}

/// `Graph::contains_edge`: whether a link joins the two nodes.
#[verifier::external_body]
fn net_contains_edge(net: &Network, a: usize, b: usize) -> (yes: bool)
    requires
        a < net_names(*net).len(),
        b < net_names(*net).len(),
    ensures
        yes == linked(net_links(*net), a as int, b as int),
{
    net.contains_edge(NodeIndex::new(a), NodeIndex::new(b))
}

/// `GetAdjacencyMatrix::adjacency_matrix` of a `Graph`, read out with
/// `is_adjacent` for every pair of nodes.
#[verifier::external_body]
fn net_adjacency(net: &Network) -> (table: Vec<Vec<bool>>)
    requires
        net_names(*net).len() * net_names(*net).len() <= usize::MAX,
    ensures
        is_adjacency(net_links(*net), net_names(*net).len(), grid_view(table@)),
{
    let matrix = net.adjacency_matrix();
    let size = net.node_count();
    (0..size).map(
        |a| (0..size).map(
            |b| net.is_adjacent(&matrix, NodeIndex::new(a), NodeIndex::new(b)),
        ).collect(),
    ).collect()
}

/// The members of the set as a list: every member once, in the order in
/// which the set hands them out.
fn set_list(set: &HashSet<usize>) -> (list: Vec<usize>)
    ensures
        lists_set(set@, list@),
{
    broadcast use vstd::std_specs::hash::group_hash_axioms;
    let mut list: Vec<usize> = Vec::new();
    for member in it: set.iter()
        invariant
            list@.len() == it.index(),
            forall|i: int| 0 <= i < list@.len() ==> list@[i] == *it.seq()[i],
            it.seq() == spec_hash_keys_iter(set).remaining(),
    {
        list.push(*member);
    }
    proof {
        let all = spec_hash_keys_iter(set).remaining();
        assert(list@ =~= all.unref());
        assert(all.unref().to_set() == set@);
    }
    list
}

/// A set with the same members.
fn set_copy(set: &HashSet<usize>) -> (copy: HashSet<usize>)
    ensures
        copy@ == set@,
{
    broadcast use vstd::std_specs::hash::group_hash_axioms;

    let list = set_list(set);
    let mut copy: HashSet<usize> = HashSet::new();
    let mut at: usize = 0;
    while at < list.len()
        invariant
            at <= list.len(),
            forall|v: usize| copy@.contains(v) <==> exists|i: int| 0 <= i < at && list@[i] == v,
        decreases list.len() - at,
    {
        copy.insert(list[at]);
        at += 1;
    }
    assert(copy@ =~= set@);
    copy
}

/// The members of both sets.
fn set_common(one: &HashSet<usize>, other: &HashSet<usize>) -> (both: HashSet<usize>)
    ensures
        both@ == one@.intersect(other@),
{
    broadcast use vstd::std_specs::hash::group_hash_axioms;

    let list = set_list(one);
    let mut both: HashSet<usize> = HashSet::new();
    let mut at: usize = 0;
    while at < list.len()
        invariant
            at <= list.len(),
            forall|v: usize|
                both@.contains(v) <==> other@.contains(v) && exists|i: int|
                    0 <= i < at && list@[i] == v,
        decreases list.len() - at,
    {
        if other.contains(&list[at]) {
            both.insert(list[at]);
        }
        at += 1;
    }
    assert(both@ =~= one@.intersect(other@));
    both
}

/// No link joins a node to itself.
pub open spec fn plain(links: Seq<(int, int)>) -> bool {
    forall|k: int| 0 <= k < links.len() ==> (#[trigger] links[k]).0 != links[k].1
}

/// Every link joins two of the first `size` nodes.
pub open spec fn links_within(links: Seq<(int, int)>, size: nat) -> bool {
    forall|k: int|
        0 <= k < links.len() ==> 0 <= (#[trigger] links[k]).0 < size && 0 <= links[k].1 < size
}

/// Every member is one of the first `size` nodes.
pub open spec fn within(set: Set<usize>, size: nat) -> bool {
    forall|v: usize| #[trigger] set.contains(v) ==> v < size
}

/// Any two members are joined by a link.
pub open spec fn clique(links: Seq<(int, int)>, c: Set<usize>) -> bool {
    forall|a: usize, b: usize|
        c.contains(a) && c.contains(b) && a != b ==> #[trigger] near(links, a, b)
}

/// The node is joined to every member.
pub open spec fn joins_all(links: Seq<(int, int)>, w: usize, c: Set<usize>) -> bool {
    forall|a: usize| c.contains(a) ==> #[trigger] near(links, w, a)
}

/// `c` is a clique of members of `p` that no other node of `p` or `x` is
/// joined to as a whole.
pub open spec fn grows(links: Seq<(int, int)>, p: Set<usize>, x: Set<usize>, c: Set<usize>) -> bool {
    &&& c.subset_of(p)
    &&& clique(links, c)
    &&& forall|w: usize|
        (p.contains(w) || x.contains(w)) && !c.contains(w) ==> !#[trigger] joins_all(links, w, c)
}

/// The set is `r` together with such a clique.
pub open spec fn reported(
    links: Seq<(int, int)>,
    r: Set<usize>,
    p: Set<usize>,
    x: Set<usize>,
    set: Set<usize>,
) -> bool {
    exists|c: Set<usize>| #[trigger] grows(links, p, x, c) && set == r + c
}

/// The set is one of the list.
pub open spec fn found(cliques: Seq<HashSet<usize>>, set: Set<usize>) -> bool {
    exists|i: int| 0 <= i < cliques.len() && (#[trigger] cliques[i])@ == set
}

/// The set holds the neighbours of the node.
pub open spec fn neighbours_of(links: Seq<(int, int)>, v: usize, nb: Set<usize>) -> bool {
    forall|b: usize| nb.contains(b) <==> #[trigger] near(links, v, b)
}

/// What joins `a` to `b` joins `b` to `a`.
pub proof fn lemma_near_both_ways(links: Seq<(int, int)>, a: usize, b: usize)
    ensures
        near(links, a, b) == near(links, b, a),
{
    if near(links, a, b) {
        let k = choose|k: int| 0 <= k < links.len() && #[trigger] joins(links, k, a as int, b as int);
        assert(joins(links, k, b as int, a as int));
    }
    if near(links, b, a) {
        let k = choose|k: int| 0 <= k < links.len() && #[trigger] joins(links, k, b as int, a as int);
        assert(joins(links, k, a as int, b as int));
    }
}

/// No node is its own neighbour where no link joins a node to itself.
pub proof fn lemma_not_near_itself(links: Seq<(int, int)>, a: usize)
    requires
        plain(links),
    ensures
        !near(links, a, a),
{
    if near(links, a, a) {
        let k = choose|k: int| 0 <= k < links.len() && #[trigger] joins(links, k, a as int, a as int);
        assert(links[k].0 != links[k].1);
    }
}

/// Every clique that grows holds the pivot or a node that is not joined to
/// it.
pub proof fn lemma_pivot(
    links: Seq<(int, int)>,
    p: Set<usize>,
    x: Set<usize>,
    u: usize,
    c: Set<usize>,
)
    requires
        grows(links, p, x, c),
        p.contains(u),
    ensures
        exists|v: usize| #[trigger] c.contains(v) && (v == u || !near(links, u, v)),
{
    if !c.contains(u) {
        if joins_all(links, u, c) {
            assert(false);
        }
        let a = choose|a: usize| c.contains(a) && !near(links, u, a);
        assert(c.contains(a));
    } else {
        assert(c.contains(u));
    }
}

/// What the search reports for the neighbours of `v` that are left is,
/// with `v`, reported for the whole.
pub proof fn lemma_step_sound(
    links: Seq<(int, int)>,
    r: Set<usize>,
    p: Set<usize>,
    x: Set<usize>,
    p_left: Set<usize>,
    x_now: Set<usize>,
    v: usize,
    nb: Set<usize>,
    set: Set<usize>,
)
    requires
        neighbours_of(links, v, nb),
        p_left.subset_of(p),
        p.contains(v),
        !p_left.contains(v),
        forall|w: usize|
            p.contains(w) || x.contains(w) ==> w == v || p_left.contains(w) || x_now.contains(w),
        reported(links, r.insert(v), p_left.intersect(nb), x_now.intersect(nb), set),
    ensures
        reported(links, r, p, x, set),
{
    let next_p = p_left.intersect(nb);
    let next_x = x_now.intersect(nb);
    let inner = choose|c: Set<usize>| #[trigger]
        grows(links, next_p, next_x, c) && set == r.insert(v) + c;
    let c = inner.insert(v);
    assert forall|a: usize, b: usize| c.contains(a) && c.contains(b) && a != b implies #[trigger] near(
        links,
        a,
        b,
    ) by {
        lemma_near_both_ways(links, a, b);
        if a == v {
            assert(next_p.contains(b));
        } else if b == v {
            assert(next_p.contains(a));
        }
    }
    assert forall|w: usize| (p.contains(w) || x.contains(w)) && !c.contains(w) implies !#[trigger] joins_all(
        links,
        w,
        c,
    ) by {
        if joins_all(links, w, c) {
            assert(c.contains(v));
            assert(near(links, w, v));
            lemma_near_both_ways(links, w, v);
            assert(nb.contains(w));
            assert(next_p.contains(w) || next_x.contains(w));
            assert forall|a: usize| inner.contains(a) implies #[trigger] near(links, w, a) by {
                assert(c.contains(a));
            }
            assert(joins_all(links, w, inner));
            assert(false);
        }
    }
    assert(c.subset_of(p));
    assert(grows(links, p, x, c));
    assert(set =~= r + c);
}

/// A clique that grows and holds `v` is, without `v`, a clique that grows
/// among the neighbours of `v` that are left.
pub proof fn lemma_step_complete(
    links: Seq<(int, int)>,
    r: Set<usize>,
    p: Set<usize>,
    x: Set<usize>,
    p_left: Set<usize>,
    x_now: Set<usize>,
    v: usize,
    nb: Set<usize>,
    c: Set<usize>,
)
    requires
        plain(links) || !x_now.contains(v),
        neighbours_of(links, v, nb),
        grows(links, p, x, c),
        c.contains(v),
        c.remove(v).subset_of(p_left),
        !p_left.contains(v),
        forall|w: usize| p_left.contains(w) || x_now.contains(w) ==> p.contains(w) || x.contains(w),
    ensures
        grows(links, p_left.intersect(nb), x_now.intersect(nb), c.remove(v)),
        r.insert(v) + c.remove(v) == r + c,
{
    let next_p = p_left.intersect(nb);
    let next_x = x_now.intersect(nb);
    let inner = c.remove(v);
    if plain(links) {
        lemma_not_near_itself(links, v);
    }
    assert forall|a: usize| inner.contains(a) implies next_p.contains(a) by {
        assert(near(links, v, a));
    }
    assert forall|a: usize, b: usize|
        inner.contains(a) && inner.contains(b) && a != b implies #[trigger] near(links, a, b) by {
        assert(c.contains(a) && c.contains(b));
    }
    assert forall|w: usize|
        (next_p.contains(w) || next_x.contains(w)) && !inner.contains(w) implies !#[trigger] joins_all(
        links,
        w,
        inner,
    ) by {
        if joins_all(links, w, inner) {
            assert(nb.contains(w));
            assert(w != v);
            lemma_near_both_ways(links, w, v);
            assert forall|a: usize| c.contains(a) implies #[trigger] near(links, w, a) by {
                if a != v {
                    assert(inner.contains(a));
                }
            }
            assert(joins_all(links, w, c));
            assert(!c.contains(w));
            assert(false);
        }
    }
    assert(r.insert(v) + inner =~= r + c);
}

/// No set stands twice in the list.
pub open spec fn apart(cliques: Seq<HashSet<usize>>) -> bool {
    forall|i: int, j: int|
        0 <= i < j < cliques.len() ==> (#[trigger] cliques[i])@ != (#[trigger] cliques[j])@
}

/// Every set of the list holds a member of `done`.
pub open spec fn all_touch(cliques: Seq<HashSet<usize>>, done: Set<usize>) -> bool {
    forall|i: int| 0 <= i < cliques.len() ==> touches(done, (#[trigger] cliques[i])@)
}

/// Some member of `done` is a member of `c`.
pub open spec fn touches(done: Set<usize>, c: Set<usize>) -> bool {
    exists|d: usize| #[trigger] done.contains(d) && c.contains(d)
}

/// The members of a list as a set.
fn to_set(list: &Vec<usize>) -> (set: HashSet<usize>)
    ensures
        set@ == list@.to_set(),
        set@.finite(),
{
    broadcast use vstd::std_specs::hash::group_hash_axioms;

    let mut set: HashSet<usize> = HashSet::new();
    let mut at: usize = 0;
    while at < list.len()
        invariant
            at <= list.len(),
            set@.finite(),
            forall|v: usize| set@.contains(v) <==> exists|i: int| 0 <= i < at && list@[i] == v,
        decreases list.len() - at,
    {
        set.insert(list[at]);
        at += 1;
    }
    assert(set@ =~= list@.to_set());
    set
}

/// A member with the most neighbours; of several, the last of the list.
fn pick_pivot(g: &Network, members: &Vec<usize>) -> (pivot: usize)
    requires
        members.len() > 0,
        forall|i: int| 0 <= i < members.len() ==> members@[i] < net_names(*g).len(),
    ensures
        members@.contains(pivot),
{
    let mut pivot = members[0];
    let mut most = net_neighbors(g, pivot).len();
    let mut at: usize = 1;
    while at < members.len()
        invariant
            1 <= at <= members.len(),
            forall|i: int| 0 <= i < members.len() ==> members@[i] < net_names(*g).len(),
            members@.contains(pivot),
        decreases members.len() - at,
    {
        let degree = net_neighbors(g, members[at]).len();
        if degree >= most {
            pivot = members[at];
            most = degree;
        }
        at += 1;
    }
    pivot
}

/// The members that the search has to try: the pivot and what is not joined
/// to it.
fn pick_todo(adj_mat: &Vec<Vec<bool>>, members: &Vec<usize>, u: usize, Ghost(links): Ghost<
    Seq<(int, int)>,
>) -> (todo: Vec<usize>)
    requires
        is_adjacency(links, adj_mat@.len() as nat, grid_view(adj_mat@)),
        members@.no_duplicates(),
        u < adj_mat@.len(),
        forall|i: int| 0 <= i < members.len() ==> members@[i] < adj_mat@.len(),
    ensures
        todo@.no_duplicates(),
        forall|v: usize| todo@.contains(v) ==> members@.contains(v),
        forall|v: usize|
            members@.contains(v) && (v == u || !near(links, u, v)) ==> todo@.contains(v),
{
    let mut todo: Vec<usize> = Vec::new();
    let mut at: usize = 0;
    while at < members.len()
        invariant
            at <= members.len(),
            is_adjacency(links, adj_mat@.len() as nat, grid_view(adj_mat@)),
            members@.no_duplicates(),
            u < adj_mat@.len(),
            forall|i: int| 0 <= i < members.len() ==> members@[i] < adj_mat@.len(),
            todo@.no_duplicates(),
            forall|k: int|
                0 <= k < todo@.len() ==> members@.take(at as int).contains(#[trigger] todo@[k]),
            forall|j: int|
                0 <= j < at && (members@[j] == u || !near(links, u, members@[j]))
                    ==> todo@.contains(members@[j]),
        decreases members.len() - at,
    {
        let v = members[at];
        proof {
            assert forall|k: int| 0 <= k < todo@.len() implies members@.take(
                at + 1,
            ).contains(#[trigger] todo@[k]) && todo@[k] != v by {
                let j = choose|j: int|
                    0 <= j < members@.take(at as int).len() && members@.take(at as int)[j]
                        == todo@[k];
                assert(members@.take(at + 1)[j] == todo@[k]);
            }
            assert(members@.take(at + 1)[at as int] == v);
            let table = grid_view(adj_mat@);
            assert(table[u as int][v as int] == linked(links, u as int, v as int));
            assert(table[u as int] == adj_mat@[u as int]@);
            assert(table[v as int] == adj_mat@[v as int]@);
            assert(table[u as int].len() == adj_mat@.len());
            assert(table[v as int].len() == adj_mat@.len());
        }
        if u == v || !adj_mat[u][v] || !adj_mat[v][u] {
            let ghost before = todo@;
            todo.push(v);
            proof {
                assert forall|j: int|
                    0 <= j < at + 1 && (members@[j] == u || !near(links, u, members@[j]))
                    implies todo@.contains(members@[j]) by {
                    if j < at {
                        let k = choose|k: int| 0 <= k < before.len() && before[k] == members@[j];
                        assert(todo@[k] == members@[j]);
                    } else {
                        assert(todo@[before.len() as int] == v);
                    }
                }
            }
        }
        at += 1;
    }
    todo
}

/// Finds the cliques that hold all of `r`, some members of `p` and none of
/// `x`: for every clique among `p` that no node of `p` or `x` extends, the
/// list holds that clique together with `r`, and it holds nothing else.
/// `p` and `x` share no node, or no link joins a node to itself.
pub fn bron_kerbosch_pivot(
    g: &Network,
    adj_mat: &Vec<Vec<bool>>,
    r: HashSet<usize>,
    p: HashSet<usize>,
    x: HashSet<usize>,
) -> (cliques: Vec<HashSet<usize>>)
    requires
        is_adjacency(net_links(*g), net_names(*g).len(), grid_view(adj_mat@)),
        plain(net_links(*g)) || p@.disjoint(x@),
        p@.finite(),
        within(p@, net_names(*g).len()),
        within(x@, net_names(*g).len()),
    ensures
        forall|i: int|
            0 <= i < cliques.len() ==> reported(
                net_links(*g),
                r@,
                p@,
                x@,
                (#[trigger] cliques[i])@,
            ),
        forall|c: Set<usize>| #[trigger]
            grows(net_links(*g), p@, x@, c) ==> found(cliques@, r@ + c),
        r@.disjoint(p@) ==> apart(cliques@),
    decreases p@.len(),
{
    broadcast use vstd::std_specs::hash::group_hash_axioms;

    let ghost links = net_links(*g);
    let ghost p0 = p@;
    let ghost x0 = x@;
    let ghost r0 = r@;
    let mut left = p;
    let mut seen = x;
    let mut cliques: Vec<HashSet<usize>> = Vec::with_capacity(1);
    if left.is_empty() {
        if seen.is_empty() {
            cliques.push(r);
            proof {
                let none = Set::<usize>::empty();
                assert(grows(links, p0, x0, none));
                assert(r0 =~= r0 + none);
                assert forall|c: Set<usize>| #[trigger] grows(links, p0, x0, c) implies found(
                    cliques@,
                    r0 + c,
                ) by {
                    assert(c =~= none);
                    assert(cliques@[0]@ == r0 + c);
                }
            }
        } else {
            proof {
                assert forall|c: Set<usize>| #[trigger] grows(links, p0, x0, c) implies found(
                    cliques@,
                    r0 + c,
                ) by {
                    assert(c =~= Set::<usize>::empty());
                    let w = choose|w: usize| x0.contains(w);
                    assert(joins_all(links, w, c));
                }
            }
        }
        return cliques;
    }
    let members = set_list(&left);
    proof {
        let m = choose|m: usize| p0.contains(m);
        assert(members@.contains(m));
        assert forall|i: int| 0 <= i < members.len() implies members@[i] < net_names(*g).len() by {
            assert(members@.contains(members@[i]));
        }
    }
    let u = pick_pivot(g, &members);
    let mut todo = pick_todo(adj_mat, &members, u, Ghost(links));
    let ghost todo0 = todo@;
    let ghost mut done = Set::<usize>::empty();
    assert(left@ =~= p0.difference(done));
    assert(seen@ =~= x0 + done);
    while todo.len() > 0
        invariant
            links == net_links(*g),
            is_adjacency(links, net_names(*g).len(), grid_view(adj_mat@)),
            plain(links) || p0.disjoint(x0),
            p0.finite(),
            p0 == p@,
            within(p0, net_names(*g).len()),
            within(x0, net_names(*g).len()),
            done.subset_of(p0),
            left@ == p0.difference(done),
            seen@ == x0 + done,
            r@ == r0,
            todo@.no_duplicates(),
            forall|i: int| 0 <= i < todo@.len() ==> left@.contains(#[trigger] todo@[i]),
            forall|v: usize| todo0.contains(v) ==> done.contains(v) || todo@.contains(v),
            forall|i: int|
                0 <= i < cliques.len() ==> reported(links, r0, p0, x0, (#[trigger] cliques[i])@),
            forall|c: Set<usize>| #[trigger]
                grows(links, p0, x0, c) && touches(done, c) ==> found(cliques@, r0 + c),
            r0.disjoint(p0) ==> apart(cliques@) && all_touch(cliques@, done),
        decreases todo@.len(),
    {
        let ghost todo_before = todo@;
        let v = todo.pop().unwrap();
        assert(v == todo_before[todo_before.len() - 1]);
        assert(left@.contains(v));
        let near_list = net_neighbors(g, v);
        let neighbors = to_set(&near_list);
        proof {
            lemma_neighbours(links, v, near_list@);
        }
        let ghost p_before = left@;
        left.remove(&v);
        let mut next_r = set_copy(&r);
        next_r.insert(v);
        let next_p = set_common(&left, &neighbors);
        let next_x = set_common(&seen, &neighbors);
        proof {
            assert(next_p@.subset_of(p0.remove(v)));
            lemma_set_subset_finite(p0, next_p@);
            lemma_len_subset(next_p@, p0.remove(v));
            if r0.disjoint(p0) {
                assert(next_r@.disjoint(next_p@));
            }
            assert(p0.remove(v).len() < p0.len());
        }
        let mut sub = bron_kerbosch_pivot(g, adj_mat, next_r, next_p, next_x);
        let ghost found_before = cliques@;
        let ghost found_new = sub@;
        cliques.append(&mut sub);
        proof {
            let done_after = done.insert(v);
            assert forall|i: int| 0 <= i < cliques.len() implies reported(
                links,
                r0,
                p0,
                x0,
                (#[trigger] cliques[i])@,
            ) by {
                if i < found_before.len() {
                    assert(cliques@[i] == found_before[i]);
                } else {
                    let j = i - found_before.len();
                    assert(cliques@[i] == found_new[j]);
                    lemma_step_sound(links, r0, p0, x0, left@, seen@, v, neighbors@, found_new[j]@);
                }
            }
            assert forall|c: Set<usize>| #[trigger]
                grows(links, p0, x0, c) && touches(done_after, c) implies found(
                cliques@,
                r0 + c,
            ) by {
                if touches(done, c) {
                    let i = choose|i: int|
                        0 <= i < found_before.len() && (#[trigger] found_before[i])@ == r0 + c;
                    assert(cliques@[i] == found_before[i]);
                } else {
                    let d = choose|d: usize| #[trigger] done_after.contains(d) && c.contains(d);
                    assert(d == v);
                    assert forall|a: usize| c.remove(v).contains(a) implies left@.contains(a) by {
                        assert(c.contains(a));
                        assert(p0.contains(a));
                        if done.contains(a) {
                            assert(touches(done, c));
                        }
                    }
                    lemma_step_complete(links, r0, p0, x0, left@, seen@, v, neighbors@, c);
                    let j = choose|j: int|
                        0 <= j < found_new.len() && (#[trigger] found_new[j])@ == r0.insert(v)
                            + c.remove(v);
                    assert(cliques@[found_before.len() + j] == found_new[j]);
                }
            }
            if r0.disjoint(p0) {
                assert forall|i: int| 0 <= i < cliques.len() implies touches(
                    done_after,
                    (#[trigger] cliques[i])@,
                ) by {
                    if i < found_before.len() {
                        assert(cliques@[i] == found_before[i]);
                        let d = choose|d: usize| #[trigger]
                            done.contains(d) && found_before[i]@.contains(d);
                        assert(done_after.contains(d));
                    } else {
                        let k = i - found_before.len();
                        assert(cliques@[i] == found_new[k]);
                        let c = choose|c: Set<usize>| #[trigger]
                            grows(links, next_p@, next_x@, c) && found_new[k]@ == next_r@ + c;
                        assert(done_after.contains(v) && found_new[k]@.contains(v));
                    }
                }
                assert forall|i: int, j: int| 0 <= i < j < cliques.len() implies (
                #[trigger] cliques[i])@ != (#[trigger] cliques[j])@ by {
                    if j < found_before.len() {
                        assert(cliques@[i] == found_before[i] && cliques@[j] == found_before[j]);
                    } else if i >= found_before.len() {
                        assert(cliques@[i] == found_new[i - found_before.len()]);
                        assert(cliques@[j] == found_new[j - found_before.len()]);
                    } else {
                        assert(cliques@[i] == found_before[i]);
                        let k = j - found_before.len();
                        assert(cliques@[j] == found_new[k]);
                        let d = choose|d: usize| #[trigger]
                            done.contains(d) && found_before[i]@.contains(d);
                        let c = choose|c: Set<usize>| #[trigger]
                            grows(links, next_p@, next_x@, c) && found_new[k]@ == next_r@ + c;
                        assert(!left@.contains(d));
                        assert(!c.contains(d));
                        assert(!r0.contains(d));
                        assert(d != v);
                        assert(!found_new[k]@.contains(d));
                    }
                }
            }
            done = done_after;
        }
        seen.insert(v);
        proof {
            assert(left@ =~= p0.difference(done));
            assert(seen@ =~= x0 + done);
            assert forall|i: int| 0 <= i < todo@.len() implies left@.contains(#[trigger] todo@[i]) by {
                assert(todo@[i] == todo_before[i]);
                assert(p_before.contains(todo_before[i]));
            }
            assert forall|w: usize| todo0.contains(w) implies done.contains(w) || todo@.contains(
                w,
            ) by {
                if !done.contains(w) {
                    let k = choose|k: int| 0 <= k < todo_before.len() && todo_before[k] == w;
                    assert(todo@[k] == w);
                }
            }
        }
    }
    proof {
        assert forall|c: Set<usize>| #[trigger] grows(links, p0, x0, c) implies found(
            cliques@,
            r0 + c,
        ) by {
            assert(members@.contains(u));
            lemma_pivot(links, p0, x0, u, c);
            let v = choose|v: usize| #[trigger] c.contains(v) && (v == u || !near(links, u, v));
            assert(p0.contains(v));
            assert(members@.contains(v));
            assert(todo0.contains(v));
            assert(done.contains(v));
            assert(touches(done, c));
        }
    }
    cliques
}

/// A list of the neighbours of a node holds the nodes that a link joins to
/// it.
pub proof fn lemma_neighbours(links: Seq<(int, int)>, v: usize, list: Seq<usize>)
    requires
        neighbours_listed(links, v as int, list),
    ensures
        neighbours_of(links, v, list.to_set()),
{
    list.to_multiset_ensures();
    assert forall|b: usize| list.to_set().contains(b) <==> #[trigger] near(links, v, b) by {
        assert(list.to_multiset().count(b) == joint(links, v as int, b as int));
        lemma_joint(links, v as int, b as int);
    }
}

/// Links join two nodes where their number is not zero.
pub proof fn lemma_joint(links: Seq<(int, int)>, a: int, b: int)
    ensures
        joint(links, a, b) > 0 <==> linked(links, a, b),
    decreases links.len(),
{
    if links.len() > 0 {
        let rest = links.drop_last();
        lemma_joint(rest, a, b);
        if linked(rest, a, b) {
            let k = choose|k: int| 0 <= k < rest.len() && #[trigger] joins(rest, k, a, b);
            assert(joins(links, k, a, b));
        }
        if linked(links, a, b) {
            let k = choose|k: int| 0 <= k < links.len() && #[trigger] joins(links, k, a, b);
            if k < links.len() - 1 {
                assert(joins(rest, k, a, b));
            }
        }
    }
}

/// All nodes of a network of the given size.
pub open spec fn all_nodes(size: nat) -> Set<usize> {
    Set::new(|v: usize| v < size)
}

/// `c` is a clique of the network that no further node can join.
pub open spec fn maximal(links: Seq<(int, int)>, size: nat, c: Set<usize>) -> bool {
    grows(links, all_nodes(size), Set::empty(), c)
}

/// The node indices below `size` as a set.
fn node_set(size: usize) -> (nodes: HashSet<usize>)
    ensures
        nodes@ == all_nodes(size as nat),
        nodes@.finite(),
{
    broadcast use vstd::std_specs::hash::group_hash_axioms;

    let mut nodes: HashSet<usize> = HashSet::new();
    let mut at: usize = 0;
    while at < size
        invariant
            at <= size,
            nodes@.finite(),
            nodes@ == all_nodes(at as nat),
        decreases size - at,
    {
        nodes.insert(at);
        assert(nodes@ =~= all_nodes((at + 1) as nat));
        at += 1;
    }
    nodes
}

/// All maximal cliques of a network: the list holds every clique that no
/// further node can join, and nothing else.
pub fn maximal_cliques(g: &Network) -> (cliques: Vec<HashSet<usize>>)
    requires
        net_names(*g).len() * net_names(*g).len() <= usize::MAX,
    ensures
        forall|i: int|
            0 <= i < cliques.len() ==> maximal(
                net_links(*g),
                net_names(*g).len(),
                (#[trigger] cliques[i])@,
            ),
        forall|c: Set<usize>| #[trigger]
            maximal(net_links(*g), net_names(*g).len(), c) ==> found(cliques@, c),
        apart(cliques@),
{
    broadcast use vstd::std_specs::hash::group_hash_axioms;

    let adj_mat = net_adjacency(g);
    let r: HashSet<usize> = HashSet::new();
    let p = node_set(net_size(g));
    let x: HashSet<usize> = HashSet::new();
    let cliques = bron_kerbosch_pivot(g, &adj_mat, r, p, x);
    proof {
        let links = net_links(*g);
        let size = net_names(*g).len();
        assert forall|i: int| 0 <= i < cliques.len() implies maximal(
            links,
            size,
            (#[trigger] cliques[i])@,
        ) by {
            let c = choose|c: Set<usize>| #[trigger]
                grows(links, p@, x@, c) && cliques[i]@ == r@ + c;
            assert(r@ + c =~= c);
            assert(x@ =~= Set::<usize>::empty());
        }
        assert forall|c: Set<usize>| #[trigger] maximal(links, size, c) implies found(
            cliques@,
            c,
        ) by {
            assert(x@ =~= Set::<usize>::empty());
            assert(grows(links, p@, x@, c));
            assert(r@ + c =~= c);
        }
    }
    cliques
}

/// The name begins with the letter t.
pub open spec fn has_t(name: Seq<u8>) -> bool {
    name.len() > 0 && name[0] == 0x74
}

/// Whether the name begins with the letter t.
fn starts_with_t(name: &Vec<u8>) -> (yes: bool)
    ensures
        yes == has_t(name@),
{
    name.len() > 0 && name[0] == 0x74
}

/// The nodes at the other end of the links of `a`, in the order of the
/// links.
pub open spec fn others(links: Seq<(int, int)>, a: int) -> Seq<usize>
    decreases links.len(),
{
    if links.len() == 0 {
        Seq::empty()
    } else {
        let rest = others(links.drop_last(), a);
        let link = links.last();
        if link.0 == a {
            rest.push(link.1 as usize)
        } else if link.1 == a {
            rest.push(link.0 as usize)
        } else {
            rest
        }
    }
}

/// Whether `c` closes a triangle with `a` and `b` that counts, as 1 or 0:
/// `c` comes after `b`, is joined to `a`, and one of the three names begins
/// with t.
pub open spec fn third(
    names: Seq<Seq<u8>>,
    links: Seq<(int, int)>,
    a: usize,
    b: usize,
) -> spec_fn(usize) -> nat {
    |c: usize|
        if c > b && near(links, c, a) && (has_t(names[a as int]) || has_t(names[b as int]) || has_t(
            names[c as int],
        )) {
            1nat
        } else {
            0nat
        }
}

/// The count of such triangles over the links of `b`, where `b` comes after
/// `a`.
pub open spec fn second(names: Seq<Seq<u8>>, links: Seq<(int, int)>, a: usize) -> spec_fn(
    usize,
) -> nat {
    |b: usize|
        if b > a {
            sum_over(others(links, b as int), third(names, links, a, b))
        } else {
            0nat
        }
}

/// The count of such triangles over the links of `a`.
pub open spec fn first(names: Seq<Seq<u8>>, links: Seq<(int, int)>) -> spec_fn(int) -> nat {
    |a: int| sum_over(others(links, a), second(names, links, a as usize))
}

/// The number of triangles with a name that begins with t: the triples of
/// nodes in ascending order of which a link joins the first to the second,
/// the second to the third and the third to the first, each as often as
/// the first two links can be picked.
pub open spec fn triangles(names: Seq<Seq<u8>>, links: Seq<(int, int)>) -> nat {
    sum_below(names.len(), first(names, links))
}

/// The nodes at the other end of the links of a node are its neighbours,
/// each as often as links join the two.
pub proof fn lemma_others(links: Seq<(int, int)>, size: nat, a: int, b: usize)
    requires
        links_within(links, size),
        size <= usize::MAX,
    ensures
        others(links, a).to_multiset().count(b) == joint(links, a, b as int),
    decreases links.len(),
{
    broadcast use vstd::multiset::group_multiset_axioms;

    if links.len() == 0 {
        others(links, a).to_multiset_ensures();
        assert(others(links, a).to_multiset().len() == 0);
    } else {
        let rest = links.drop_last();
        assert forall|k: int| 0 <= k < rest.len() implies 0 <= (#[trigger] rest[k]).0 < size && 0
            <= rest[k].1 < size by {
            assert(rest[k] == links[k]);
        }
        lemma_others(rest, size, a, b);
        let before = others(rest, a);
        let link = links.last();
        assert(link == links[links.len() - 1]);
        before.to_multiset_ensures();
        if link.0 == a {
            assert(others(links, a) == before.push(link.1 as usize));
        } else if link.1 == a {
            assert(others(links, a) == before.push(link.0 as usize));
        }
    }
}

/// A list of the neighbours of a node of a network holds what stands at
/// the other end of its links, and only nodes of the network.
pub proof fn lemma_neighbours_listed(links: Seq<(int, int)>, size: nat, a: usize, list: Seq<usize>)
    requires
        links_within(links, size),
        size <= usize::MAX,
        neighbours_listed(links, a as int, list),
    ensures
        list.to_multiset() == others(links, a as int).to_multiset(),
        forall|i: int| 0 <= i < list.len() ==> #[trigger] list[i] < size,
{
    assert forall|b: usize|
        list.to_multiset().count(b) == others(links, a as int).to_multiset().count(b) by {
        assert(list.to_multiset().count(b) == joint(links, a as int, b as int));
        lemma_others(links, size, a as int, b);
    }
    assert(list.to_multiset() =~= others(links, a as int).to_multiset());
    list.to_multiset_ensures();
    assert forall|i: int| 0 <= i < list.len() implies #[trigger] list[i] < size by {
        let b = list[i];
        assert(list.contains(b));
        assert(list.to_multiset().count(b) == joint(links, a as int, b as int));
        lemma_joint(links, a as int, b as int);
        let k = choose|k: int| 0 <= k < links.len() && #[trigger] joins(links, k, a as int, b as int);
        assert(0 <= links[k].0 < size && 0 <= links[k].1 < size);
    }
}

/// The triangles that count among those that `a` and `b` make with the
/// neighbours of `b`.
fn count_third(g: &Network, a: usize, b: usize, flagged: bool) -> (count: u64)
    requires
        a < net_names(*g).len(),
        b < net_names(*g).len(),
        links_within(net_links(*g), net_names(*g).len()),
        net_names(*g).len() <= usize::MAX,
        flagged == (has_t(net_names(*g)[a as int]) || has_t(net_names(*g)[b as int])),
        second(net_names(*g), net_links(*g), a)(b) <= u64::MAX,
        b > a,
    ensures
        count == second(net_names(*g), net_links(*g), a)(b),
{
    let ghost names = net_names(*g);
    let ghost links = net_links(*g);
    let ghost term = third(names, links, a, b);
    let list = net_neighbors(g, b);
    proof {
        lemma_neighbours_listed(links, names.len(), b, list@);
        lemma_sum_over_permuted(list@, others(links, b as int), term);
    }
    let mut count: u64 = 0;
    let mut at: usize = 0;
    while at < list.len()
        invariant
            at <= list.len(),
            names == net_names(*g),
            links == net_links(*g),
            a < names.len(),
            b < names.len(),
            term == third(names, links, a, b),
            flagged == (has_t(names[a as int]) || has_t(names[b as int])),
            forall|i: int| 0 <= i < list.len() ==> #[trigger] list@[i] < names.len(),
            sum_over(list@, term) <= u64::MAX,
            count == sum_over(list@.take(at as int), term),
        decreases list.len() - at,
    {
        let c = list[at];
        proof {
            let next = list@.take(at + 1);
            assert(next.drop_last() =~= list@.take(at as int));
            assert(next.last() == c);
            lemma_sum_over_take(list@, term, at + 1);
        }
        if c > b && net_contains_edge(g, c, a) {
            let name = net_name(g, c);
            let c_contains_t = starts_with_t(&name);
            if flagged || c_contains_t {
                count += 1;
            }
        }
        at += 1;
    }
    proof {
        assert(list@.take(at as int) =~= list@);
    }
    count
}

/// The triangles that count among those that `a` makes with its neighbours
/// and theirs.
fn count_second(g: &Network, a: usize) -> (count: u64)
    requires
        a < net_names(*g).len(),
        links_within(net_links(*g), net_names(*g).len()),
        net_names(*g).len() <= usize::MAX,
        first(net_names(*g), net_links(*g))(a as int) <= u64::MAX,
    ensures
        count == first(net_names(*g), net_links(*g))(a as int),
{
    let ghost names = net_names(*g);
    let ghost links = net_links(*g);
    let ghost term = second(names, links, a);
    let list = net_neighbors(g, a);
    proof {
        lemma_neighbours_listed(links, names.len(), a, list@);
        lemma_sum_over_permuted(list@, others(links, a as int), term);
    }
    let own_name = net_name(g, a);
    let a_contains_t = starts_with_t(&own_name);
    let mut count: u64 = 0;
    let mut at: usize = 0;
    while at < list.len()
        invariant
            at <= list.len(),
            names == net_names(*g),
            links == net_links(*g),
            a < names.len(),
            names.len() <= usize::MAX,
            links_within(links, names.len()),
            term == second(names, links, a),
            a_contains_t == has_t(names[a as int]),
            forall|i: int| 0 <= i < list.len() ==> #[trigger] list@[i] < names.len(),
            sum_over(list@, term) <= u64::MAX,
            count == sum_over(list@.take(at as int), term),
        decreases list.len() - at,
    {
        let b = list[at];
        proof {
            let next = list@.take(at + 1);
            assert(next.drop_last() =~= list@.take(at as int));
            assert(next.last() == b);
            lemma_sum_over_take(list@, term, at + 1);
        }
        if b > a {
            let name = net_name(g, b);
            let b_contains_t = starts_with_t(&name);
            count += count_third(g, a, b, a_contains_t || b_contains_t);
        }
        at += 1;
    }
    proof {
        assert(list@.take(at as int) =~= list@);
    }
    count
}

/// The number of triangles of the network with a name that begins with t.
pub fn count_triangles(g: &Network) -> (count: u64)
    requires
        links_within(net_links(*g), net_names(*g).len()),
        triangles(net_names(*g), net_links(*g)) <= u64::MAX,
    ensures
        count == triangles(net_names(*g), net_links(*g)),
{
    let ghost names = net_names(*g);
    let ghost links = net_links(*g);
    let ghost term = first(names, links);
    let size = net_size(g);
    let mut count: u64 = 0;
    let mut a: usize = 0;
    while a < size
        invariant
            a <= size,
            size == names.len(),
            names == net_names(*g),
            links == net_links(*g),
            links_within(links, names.len()),
            term == first(names, links),
            sum_below(names.len(), term) <= u64::MAX,
            count == sum_below(a as nat, term),
        decreases size - a,
    {
        proof {
            lemma_sum_below_mono((a + 1) as nat, names.len(), term);
        }
        count += count_second(g, a);
        a += 1;
    }
    count
}

/// A connection names the computer.
pub open spec fn names_it(connection: (Vec<u8>, Vec<u8>), name: Seq<u8>) -> bool {
    connection.0@ == name || connection.1@ == name
}

/// Some connection names the computer.
pub open spec fn named(connections: Seq<(Vec<u8>, Vec<u8>)>, name: Seq<u8>) -> bool {
    exists|k: int| 0 <= k < connections.len() && names_it(#[trigger] connections[k], name)
}

/// The network shows the connections: every computer that a connection
/// names has one node, and every connection has its link, in the order of
/// the connections.
pub open spec fn wired(
    names: Seq<Seq<u8>>,
    links: Seq<(int, int)>,
    connections: Seq<(Vec<u8>, Vec<u8>)>,
) -> bool {
    &&& names.no_duplicates()
    &&& links.len() == connections.len()
    &&& links_within(links, names.len())
    &&& forall|k: int|
        0 <= k < links.len() ==> names[(#[trigger] links[k]).0] == connections[k].0@
            && names[links[k].1] == connections[k].1@
    &&& forall|i: int| 0 <= i < names.len() ==> named(connections, #[trigger] names[i])
}

/// The node of a computer; a computer that has none yet gets the next one.
fn node_for(net: &mut Network, name: &Vec<u8>) -> (at: usize)
    requires
        net_names(*old(net)).no_duplicates(),
        net_names(*old(net)).len() < net_limit(),
    ensures
        net_links(*final(net)) == net_links(*old(net)),
        net_names(*final(net)).no_duplicates(),
        at < net_names(*final(net)).len(),
        net_names(*final(net))[at as int] == name@,
        net_names(*final(net)) == net_names(*old(net)) || net_names(*final(net)) == net_names(
            *old(net),
        ).push(name@),
{
    let size = net_size(net);
    let mut at: usize = 0;
    while at < size
        invariant
            at <= size,
            size == net_names(*net).len(),
            *net == *old(net),
            net_names(*net).no_duplicates(),
            net_names(*net).len() < net_limit(),
            forall|i: int| 0 <= i < at ==> net_names(*net)[i] != name@,
        decreases size - at,
    {
        let held = net_name(net, at);
        if same_bytes(&held, name) {
            return at;
        }
        at += 1;
    }
    net_add_node(net, copy_whole(name))
}

/// The network of the connections.
pub fn build_network(connections: &Vec<(Vec<u8>, Vec<u8>)>) -> (net: Network)
    requires
        connections.len() <= 0x7fff_ffff,
    ensures
        wired(net_names(net), net_links(net), connections@),
{
    let mut net = net_new();
    let mut at: usize = 0;
    assert(net_links(net) =~= Seq::<(int, int)>::empty());
    while at < connections.len()
        invariant
            at <= connections.len() <= 0x7fff_ffff,
            net_names(net).len() <= 2 * at,
            wired(net_names(net), net_links(net), connections@.take(at as int)),
        decreases connections.len() - at,
    {
        let ghost names_before = net_names(net);
        let ghost links_before = net_links(net);
        let ghost before = connections@.take(at as int);
        let ghost after = connections@.take(at + 1);
        let node_a = node_for(&mut net, &connections[at].0);
        let ghost names_between = net_names(net);
        let node_b = node_for(&mut net, &connections[at].1);
        net_add_edge(&mut net, node_a, node_b);
        proof {
            let names = net_names(net);
            let links = net_links(net);
            assert(after[at as int] == connections@[at as int]);
            assert forall|i: int| 0 <= i < names_before.len() implies names[i] == names_before[i] by {
                assert(names_between[i] == names_before[i]);
            }
            assert forall|k: int| 0 <= k < links.len() implies 0 <= (#[trigger] links[k]).0
                < names.len() && 0 <= links[k].1 < names.len() && names[links[k].0] == after[k].0@
                && names[links[k].1] == after[k].1@ by {
                if k < at {
                    assert(links[k] == links_before[k]);
                    assert(after[k] == before[k]);
                }
            }
            assert forall|i: int| 0 <= i < names.len() implies named(after, #[trigger] names[i]) by {
                if i < names_before.len() {
                    assert(named(before, names_before[i]));
                    let k = choose|k: int|
                        0 <= k < before.len() && names_it(#[trigger] before[k], names_before[i]);
                    assert(after[k] == before[k]);
                    assert(names_it(after[k], names[i]));
                } else {
                    assert(names_it(after[at as int], names[i]));
                }
            }
        }
        at += 1;
    }
    assert(connections@.take(at as int) =~= connections@);
    net
}

/// The place of the largest set of the list; of several, the last.
pub fn largest_clique(cliques: &Vec<HashSet<usize>>) -> (place: usize)
    requires
        cliques.len() > 0,
    ensures
        place < cliques.len(),
        forall|i: int| 0 <= i < cliques.len() ==> cliques[i]@.len() <= cliques[place as int]@.len(),
        forall|i: int|
            place < i < cliques.len() ==> cliques[i]@.len() < cliques[place as int]@.len(),
{
    broadcast use vstd::std_specs::hash::group_hash_axioms;

    let mut place: usize = 0;
    let mut at: usize = 1;
    while at < cliques.len()
        invariant
            1 <= at <= cliques.len(),
            place < at,
            forall|i: int| 0 <= i < at ==> cliques[i]@.len() <= cliques[place as int]@.len(),
            forall|i: int| place < i < at ==> cliques[i]@.len() < cliques[place as int]@.len(),
        decreases cliques.len() - at,
    {
        if cliques[at].len() >= cliques[place].len() {
            place = at;
        }
        at += 1;
    }
    place
}

/// The order of names: by the first byte in which two names differ, and a
/// name before every longer one that begins with it.
pub open spec fn name_le(a: Seq<u8>, b: Seq<u8>) -> bool
    decreases a.len(),
{
    if a.len() == 0 {
        true
    } else if b.len() == 0 {
        false
    } else if a[0] != b[0] {
        a[0] < b[0]
    } else {
        name_le(a.drop_first(), b.drop_first())
    }
}

/// Each name of the list stands before every later one in the order of
/// names.
pub open spec fn names_sorted(list: Seq<Seq<u8>>) -> bool {
    forall|i: int, j: int| 0 <= i < j < list.len() ==> name_le(#[trigger] list[i], #[trigger] list[j])
}

/// `slice::sort` on names: afterwards the same names stand in their order.
#[verifier::external_body]
pub(crate) fn sort_names(list: &mut Vec<Vec<u8>>)
    ensures
        names_sorted(grid_view(final(list)@)),
        grid_view(final(list)@).to_multiset() == grid_view(old(list)@).to_multiset(),
{
    list.sort();
}

/// The names of a list, with a comma between each two.
pub open spec fn joined(list: Seq<Seq<u8>>) -> Seq<u8>
    decreases list.len(),
{
    if list.len() == 0 {
        Seq::empty()
    } else if list.len() == 1 {
        list[0]
    } else {
        joined(list.drop_last()) + seq![0x2cu8] + list.last()
    }
}

/// The list holds the name of each member of the set once, in the order of
/// names.
pub open spec fn is_roll(names: Seq<Seq<u8>>, c: Set<usize>, list: Seq<Seq<u8>>) -> bool {
    &&& list.no_duplicates()
    &&& names_sorted(list)
    &&& forall|name: Seq<u8>|
        list.contains(name) <==> exists|v: usize| #[trigger]
            c.contains(v) && names[v as int] == name
}

/// The names of a list, with a comma between each two.
pub fn join_names(list: &Vec<Vec<u8>>) -> (text: Vec<u8>)
    ensures
        text@ == joined(grid_view(list@)),
{
    let ghost all = grid_view(list@);
    let mut text: Vec<u8> = Vec::new();
    let mut at: usize = 0;
    while at < list.len()
        invariant
            at <= list.len(),
            all == grid_view(list@),
            text@ == joined(all.take(at as int)),
        decreases list.len() - at,
    {
        let ghost before = text@;
        if at > 0 {
            text.push(0x2c);
        }
        let ghost started = text@;
        let name = &list[at];
        let mut i: usize = 0;
        while i < name.len()
            invariant
                i <= name.len(),
                text@ == started + name@.take(i as int),
            decreases name.len() - i,
        {
            text.push(name[i]);
            assert(name@.take(i + 1) =~= name@.take(i as int).push(name@[i as int]));
            i += 1;
        }
        proof {
            assert(name@.take(i as int) =~= name@);
            let next = all.take(at + 1);
            assert(next.drop_last() =~= all.take(at as int));
            assert(next.last() == name@);
            if at == 0 {
                assert(started =~= Seq::<u8>::empty());
                assert(text@ =~= next[0]);
            } else {
                assert(started =~= before + seq![0x2cu8]);
            }
        }
        at += 1;
    }
    assert(all.take(at as int) =~= all);
    text
}

/// The names of the members of the set in the order of names, with a comma
/// between each two.
pub fn password(g: &Network, clique: &HashSet<usize>) -> (text: Vec<u8>)
    requires
        net_names(*g).no_duplicates(),
        within(clique@, net_names(*g).len()),
    ensures
        exists|list: Seq<Seq<u8>>| #[trigger]
            is_roll(net_names(*g), clique@, list) && text@ == joined(list),
{
    let ghost names = net_names(*g);
    let members = set_list(clique);
    let mut list: Vec<Vec<u8>> = Vec::new();
    let mut at: usize = 0;
    while at < members.len()
        invariant
            at <= members.len(),
            names == net_names(*g),
            within(clique@, names.len()),
            lists_set(clique@, members@),
            list.len() == at,
            forall|i: int| 0 <= i < at ==> (#[trigger] list@[i])@ == names[members@[i] as int],
        decreases members.len() - at,
    {
        assert(members@.contains(members@[at as int]));
        let name = net_name(g, members[at]);
        list.push(name);
        at += 1;
    }
    let ghost unsorted = grid_view(list@);
    sort_names(&mut list);
    let text = join_names(&list);
    proof {
        let sorted = grid_view(list@);
        unsorted.to_multiset_ensures();
        sorted.to_multiset_ensures();
        assert forall|i: int, j: int| 0 <= i < j < unsorted.len() implies unsorted[i]
            != unsorted[j] by {
            assert(members@[i] != members@[j]);
            assert(members@.contains(members@[i]) && members@.contains(members@[j]));
        }
        unsorted.lemma_multiset_has_no_duplicates();
        sorted.lemma_multiset_has_no_duplicates_conv();
        assert forall|name: Seq<u8>|
            sorted.contains(name) <==> exists|v: usize| #[trigger]
                clique@.contains(v) && names[v as int] == name by {
            assert(sorted.contains(name) <==> sorted.to_multiset().count(name) > 0);
            assert(unsorted.contains(name) <==> unsorted.to_multiset().count(name) > 0);
            if unsorted.contains(name) {
                let i = choose|i: int| 0 <= i < unsorted.len() && unsorted[i] == name;
                assert(members@.contains(members@[i]));
                assert(clique@.contains(members@[i]));
            }
            if exists|v: usize| #[trigger] clique@.contains(v) && names[v as int] == name {
                let v = choose|v: usize| #[trigger] clique@.contains(v) && names[v as int] == name;
                assert(members@.contains(v));
                let i = choose|i: int| 0 <= i < members@.len() && members@[i] == v;
                assert(unsorted[i] == name);
            }
        }
        assert(is_roll(names, clique@, sorted));
    }
    text
}

/// The test that finds a hyphen.
pub open spec fn at_hyphen() -> spec_fn(u8) -> bool {
    |byte: u8| byte == 0x2d
}

/// Where the first hyphen of a line stands; the end of the line where it
/// holds none.
pub open spec fn hyphen_of(text: Seq<u8>, line: (usize, usize)) -> int {
    first_where(text, line.0 as int, line.1 as int, at_hyphen())
}

/// The connection is that of the line: the names before and after the
/// first hyphen.
pub open spec fn connection_of(
    text: Seq<u8>,
    line: (usize, usize),
    connection: (Vec<u8>, Vec<u8>),
) -> bool {
    &&& hyphen_of(text, line) < line.1
    &&& connection.0@ == text.subrange(line.0 as int, hyphen_of(text, line))
    &&& connection.1@ == text.subrange(hyphen_of(text, line) + 1, line.1 as int)
}

/// Reads the connections, one from each line: two names with a hyphen
/// between them. Nothing is read where a line holds no hyphen.
pub fn read_connections(text: &[u8]) -> (connections: Option<Vec<(Vec<u8>, Vec<u8>)>>)
    ensures
        match connections {
            Some(found) => {
                &&& found@.len() == lines_of(text@, 0, text@.len() as int).len()
                &&& forall|i: int|
                    0 <= i < found@.len() ==> connection_of(
                        text@,
                        lines_of(text@, 0, text@.len() as int)[i],
                        #[trigger] found@[i],
                    )
            },
            None => exists|i: int|
                0 <= i < lines_of(text@, 0, text@.len() as int).len() && hyphen_of(
                    text@,
                    #[trigger] lines_of(text@, 0, text@.len() as int)[i],
                ) >= lines_of(text@, 0, text@.len() as int)[i].1,
        },
{
    let lines = all_lines(text);
    let mut connections: Vec<(Vec<u8>, Vec<u8>)> = Vec::new();
    let mut at: usize = 0;
    while at < lines.len()
        invariant
            at <= lines.len(),
            lines@ == lines_of(text@, 0, text@.len() as int),
            parts_within(text@, lines@),
            connections@.len() == at,
            forall|i: int| 0 <= i < at ==> connection_of(text@, lines@[i], #[trigger] connections@[i]),
        decreases lines.len() - at,
    {
        let (from, to) = lines[at];
        let mut hyphen = from;
        while hyphen < to && text[hyphen] != 0x2d
            invariant
                from <= hyphen <= to <= text@.len(),
                first_where(text@, hyphen as int, to as int, at_hyphen()) == first_where(
                    text@,
                    from as int,
                    to as int,
                    at_hyphen(),
                ),
            decreases to - hyphen,
        {
            hyphen += 1;
        }
        if hyphen >= to {
            return None;
        }
        let a = copy_part(text, from, hyphen);
        let b = copy_part(text, hyphen + 1, to);
        connections.push((a, b));
        at += 1;
    }
    Some(connections)
}

} // verus!
