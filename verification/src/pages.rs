//! Page ordering rules and the lists of pages to print: which lists obey the
//! rules, and what stands in the middle of a list once it is put in order.
//!
//! The rules are kept as a directed graph with one node for each page and
//! one arc for each rule; a list is put in order by asking the graph which
//! of two pages leads to the other.

use vstd::prelude::*;
use vstd::multiset::Multiset;
use std::cmp::Ordering;
use std::collections::{HashMap, HashSet};
use petgraph::algo::has_path_connecting;
use petgraph::stable_graph::{NodeIndex, StableGraph};
use petgraph::Directed;
use crate::counting::{lemma_sum_over_take, sum_over};
use crate::shapes::{
    comma_list, figures_on, lemma_row_read, line_too_large, lines_show, naturals,
    numbers_fit, present, present_of, read_comma_list, read_lines, shaped, Piece,
};
use crate::text::{all_lines, grid_view, lines_of, parts_within};

verus! {

/// The graph type of `petgraph` that keeps its indices when items leave.
#[verifier::external_type_specification]
#[verifier::external_body]
#[verifier::reject_recursive_types(N)]
#[verifier::reject_recursive_types(E)]
#[verifier::reject_recursive_types(Ty)]
#[verifier::reject_recursive_types(Ix)]
pub struct ExStableGraph<N, E, Ty, Ix>(StableGraph<N, E, Ty, Ix>);

/// The marker of `petgraph` for graphs whose arcs have a direction.
#[verifier::external_type_specification]
#[verifier::external_body]
pub struct ExDirected(Directed);

/// A graph of pages: a node holds a page, an arc the rule it stands for.
pub type PageGraph = StableGraph<u64, (u64, u64), Directed, u32>;

/// An arc: the node it leaves, the node it enters, and the two pages of its
/// rule.
pub type Arc = (int, int, u64, u64);

/// The nodes of a graph: the page that each node index holds.
pub uninterp spec fn graph_nodes(graph: PageGraph) -> Map<int, u64>;

/// The arcs of a graph, each as often as the graph holds it.
pub uninterp spec fn graph_arcs(graph: PageGraph) -> Multiset<Arc>;

/// The most nodes, and the most arcs, that a graph indexed by 32 bits takes.
pub open spec fn graph_limit() -> nat {
    0xffff_ffff
}

/// The arcs whose rule names only pages of `keep`.
pub open spec fn kept_arcs(arcs: Multiset<Arc>, keep: Set<u64>) -> Multiset<Arc> {
    arcs.filter(|arc: Arc| keep.contains(arc.2) && keep.contains(arc.3))
}

/// The nodes whose page is in `keep`.
pub open spec fn kept_nodes(nodes: Map<int, u64>, keep: Set<u64>) -> Map<int, u64> {
    Map::new(|at: int| nodes.contains_key(at) && keep.contains(nodes[at]), |at: int| nodes[at])
}

/// The arcs that leave and enter nodes of `nodes`.
pub open spec fn joined_arcs(arcs: Multiset<Arc>, nodes: Map<int, u64>) -> Multiset<Arc> {
    arcs.filter(|arc: Arc| nodes.contains_key(arc.0) && nodes.contains_key(arc.1))
}

/// An arc leads from one node to the other.
pub open spec fn joined(arcs: Multiset<Arc>, from: int, to: int) -> bool {
    exists|pred: u64, succ: u64| #[trigger] arcs.contains((from, to, pred, succ))
}

/// An arc leads from the node at `i` of the path to the next one.
pub open spec fn hop(arcs: Multiset<Arc>, path: Seq<int>, i: int) -> bool {
    joined(arcs, path[i], path[i + 1])
}

/// A list of nodes of which each is joined to the next by an arc.
pub open spec fn is_path(arcs: Multiset<Arc>, path: Seq<int>) -> bool {
    &&& path.len() > 0
    &&& forall|i: int| 0 <= i < path.len() - 1 ==> #[trigger] hop(arcs, path, i)
}

/// A path leads from one node to the other. Every node is connected to
/// itself.
pub open spec fn connects(arcs: Multiset<Arc>, from: int, to: int) -> bool {
    exists|path: Seq<int>| #[trigger] is_path(arcs, path) && path[0] == from && path.last() == to
}

/// `StableGraph::new`: a graph without nodes and arcs.
#[verifier::external_body]
fn graph_new() -> (graph: PageGraph)
    ensures
        graph_nodes(graph).dom() == Set::<int>::empty(),
        graph_arcs(graph) == Multiset::<Arc>::empty(),
{
    StableGraph::new()
}

/// `StableGraph::add_node`: the page gets a node at an index that held none,
/// and nothing else changes.
#[verifier::external_body]
fn graph_add_node(graph: &mut PageGraph, page: u64) -> (at: usize)
    requires
        graph_nodes(*old(graph)).dom().finite(),
        graph_nodes(*old(graph)).dom().len() < graph_limit(),
    ensures
        !graph_nodes(*old(graph)).contains_key(at as int),
        graph_nodes(*final(graph)) == graph_nodes(*old(graph)).insert(at as int, page),
        graph_arcs(*final(graph)) == graph_arcs(*old(graph)),
{
    graph.add_node(page).index()
}

/// `StableGraph::add_edge`: one more arc between two nodes of the graph.
#[verifier::external_body]
fn graph_add_edge(graph: &mut PageGraph, from: usize, to: usize, pred: u64, succ: u64)
    requires
        graph_nodes(*old(graph)).contains_key(from as int),
        graph_nodes(*old(graph)).contains_key(to as int),
        graph_arcs(*old(graph)).len() < graph_limit(),
    ensures
        graph_nodes(*final(graph)) == graph_nodes(*old(graph)),
        graph_arcs(*final(graph)) == graph_arcs(*old(graph)).insert(
            (from as int, to as int, pred, succ),
        ),
{
    graph.add_edge(NodeIndex::new(from), NodeIndex::new(to), (pred, succ));
}

/// `Clone::clone` of a `StableGraph`: a graph with the same nodes and arcs
/// at the same indices.
#[verifier::external_body]
fn graph_copy(graph: &PageGraph) -> (copy: PageGraph)
    ensures
        graph_nodes(copy) == graph_nodes(*graph),
        graph_arcs(copy) == graph_arcs(*graph),
{
    graph.clone()
}

/// `StableGraph::retain_edges`: the arcs whose rule names a page outside
/// `keep` leave the graph.
#[verifier::external_body]
fn graph_retain_arcs(graph: &mut PageGraph, keep: &HashSet<u64>)
    ensures
        graph_nodes(*final(graph)) == graph_nodes(*old(graph)),
        graph_arcs(*final(graph)) == kept_arcs(graph_arcs(*old(graph)), keep@),
{
    graph.retain_edges(|frozen, arc| keeps_both(keep, frozen[arc].0, frozen[arc].1));
}

/// `StableGraph::retain_nodes`: the nodes whose page is outside `keep` leave
/// the graph, and with each of them the arcs that leave or enter it.
#[verifier::external_body]
fn graph_retain_nodes(graph: &mut PageGraph, keep: &HashSet<u64>)
    ensures
        graph_nodes(*final(graph)) == kept_nodes(graph_nodes(*old(graph)), keep@),
        graph_arcs(*final(graph)) == joined_arcs(
            graph_arcs(*old(graph)),
            graph_nodes(*final(graph)),
        ),
{
    graph.retain_nodes(|frozen, node| keeps(keep, frozen[node]));
}

/// `has_path_connecting` of `petgraph::algo`: whether a path leads from one
/// node of the graph to another.
#[verifier::external_body]
fn graph_connects(graph: &PageGraph, from: usize, to: usize) -> (yes: bool)
    requires
        graph_nodes(*graph).contains_key(from as int),
        graph_nodes(*graph).contains_key(to as int),
    ensures
        yes == connects(graph_arcs(*graph), from as int, to as int),
{
    has_path_connecting(graph, NodeIndex::new(from), NodeIndex::new(to), None)
}

/// The page is one of those to keep.
fn keeps(keep: &HashSet<u64>, page: u64) -> (yes: bool)
    ensures
        yes == keep@.contains(page),
{
    broadcast use vstd::std_specs::hash::group_hash_axioms;

    keep.contains(&page)
}

/// Both pages are among those to keep.
fn keeps_both(keep: &HashSet<u64>, pred: u64, succ: u64) -> (yes: bool)
    ensures
        yes == (keep@.contains(pred) && keep@.contains(succ)),
{
    keeps(keep, pred) && keeps(keep, succ)
}

/// The node index under which a page is kept.
pub open spec fn slot(index: Map<u64, usize>, page: u64) -> int {
    index[page] as int
}

/// A rule asks that `first` is printed before `then`.
pub open spec fn ruled(rules: Seq<(u64, u64)>, first: u64, then: u64) -> bool {
    rules.contains((first, then))
}

/// A rule asks that the page after `i` in the chain is printed before the
/// page at `i`.
pub open spec fn link(rules: Seq<(u64, u64)>, chain: Seq<u64>, i: int) -> bool {
    ruled(rules, chain[i + 1], chain[i])
}

/// A chain of pages of `pages`, each of which a rule puts after its
/// successor in the chain.
pub open spec fn is_chain(rules: Seq<(u64, u64)>, pages: Set<u64>, chain: Seq<u64>) -> bool {
    &&& chain.len() > 0
    &&& forall|i: int| 0 <= i < chain.len() ==> pages.contains(#[trigger] chain[i])
    &&& forall|i: int| 0 <= i < chain.len() - 1 ==> #[trigger] link(rules, chain, i)
}

/// A chain of rules among `pages` leads from `a` to `b`. Every page leads to
/// itself.
pub open spec fn leads(rules: Seq<(u64, u64)>, pages: Set<u64>, a: u64, b: u64) -> bool {
    exists|chain: Seq<u64>| #[trigger]
        is_chain(rules, pages, chain) && chain[0] == a && chain.last() == b
}

/// Of any two pages of the list exactly one leads to the other, and no page
/// stands twice in it.
pub open spec fn sortable(rules: Seq<(u64, u64)>, update: Seq<u64>) -> bool {
    &&& update.no_duplicates()
    &&& forall|a: u64, b: u64|
        update.contains(a) && update.contains(b) && a != b ==> (#[trigger] leads(
            rules,
            update.to_set(),
            a,
            b,
        )) != leads(rules, update.to_set(), b, a)
}

/// Each page of the list leads to every later one.
pub open spec fn in_order(rules: Seq<(u64, u64)>, pages: Set<u64>, list: Seq<u64>) -> bool {
    forall|i: int, j: int|
        0 <= i < j < list.len() ==> leads(rules, pages, #[trigger] list[i], #[trigger] list[j])
}

/// `list` holds the pages of `update`, in order.
pub open spec fn is_arranged(rules: Seq<(u64, u64)>, update: Seq<u64>, list: Seq<u64>) -> bool {
    &&& list.to_multiset() == update.to_multiset()
    &&& in_order(rules, update.to_set(), list)
}

/// The pages of `update` in order.
pub open spec fn arranged(rules: Seq<(u64, u64)>, update: Seq<u64>) -> Seq<u64> {
    choose|list: Seq<u64>| is_arranged(rules, update, list)
}

/// The page in the middle of a list.
pub open spec fn middle(list: Seq<u64>) -> u64 {
    list[list.len() as int / 2]
}

/// The sum of the middle pages of the lists.
pub open spec fn middle_sum(updates: Seq<Vec<u64>>) -> nat {
    sum_over(updates, |update: Vec<u64>| middle(update@) as nat)
}

/// The sum of the middle pages of the lists once each is put in order.
pub open spec fn arranged_sum(rules: Seq<(u64, u64)>, updates: Seq<Vec<u64>>) -> nat {
    sum_over(updates, |update: Vec<u64>| middle(arranged(rules, update@)) as nat)
}

/// Two lists that hold the same pages, both in order, are one list, where
/// of two different pages at most one leads to the other.
pub proof fn lemma_one_arrangement(
    rules: Seq<(u64, u64)>,
    pages: Set<u64>,
    one: Seq<u64>,
    other: Seq<u64>,
)
    requires
        one.to_multiset() == other.to_multiset(),
        in_order(rules, pages, one),
        in_order(rules, pages, other),
        forall|a: u64, b: u64|
            one.contains(a) && one.contains(b) && a != b ==> !(#[trigger] leads(rules, pages, a, b)
                && leads(rules, pages, b, a)),
    ensures
        one == other,
    decreases one.len(),
{
    one.to_multiset_ensures();
    other.to_multiset_ensures();
    assert(one.len() == other.len());
    if one.len() == 0 {
        assert(one =~= other);
    } else {
        let x = one[0];
        let y = other[0];
        assert(one.contains(x));
        assert(other.contains(y));
        assert(other.to_multiset().count(x) > 0);
        assert(one.to_multiset().count(y) > 0);
        assert(other.contains(x));
        assert(one.contains(y));
        if x != y {
            let k = choose|k: int| 0 <= k < one.len() && one[k] == y;
            let j = choose|j: int| 0 <= j < other.len() && other[j] == x;
            assert(leads(rules, pages, one[0], one[k]));
            assert(leads(rules, pages, other[0], other[j]));
            assert(false);
        }
        let rest = one.remove(0);
        let other_rest = other.remove(0);
        assert(rest.to_multiset() =~= other_rest.to_multiset());
        assert forall|i: int, j: int| 0 <= i < j < rest.len() implies leads(
            rules,
            pages,
            #[trigger] rest[i],
            #[trigger] rest[j],
        ) by {
            assert(rest[i] == one[i + 1] && rest[j] == one[j + 1]);
        }
        assert forall|i: int, j: int| 0 <= i < j < other_rest.len() implies leads(
            rules,
            pages,
            #[trigger] other_rest[i],
            #[trigger] other_rest[j],
        ) by {
            assert(other_rest[i] == other[i + 1] && other_rest[j] == other[j + 1]);
        }
        assert forall|a: u64| rest.contains(a) implies one.contains(a) by {
            let i = choose|i: int| 0 <= i < rest.len() && rest[i] == a;
            assert(one[i + 1] == a);
        }
        lemma_one_arrangement(rules, pages, rest, other_rest);
        assert(one =~= seq![x] + rest);
        assert(other =~= seq![y] + other_rest);
    }
}

/// The arc stands for a rule among `pages`, and joins the nodes of its two
/// pages: it leaves the later page and enters the earlier one.
pub open spec fn arc_ok(
    index: Map<u64, usize>,
    rules: Seq<(u64, u64)>,
    pages: Set<u64>,
    arc: Arc,
) -> bool {
    &&& pages.contains(arc.2)
    &&& pages.contains(arc.3)
    &&& ruled(rules, arc.2, arc.3)
    &&& index.contains_key(arc.2)
    &&& index.contains_key(arc.3)
    &&& slot(index, arc.3) == arc.0
    &&& slot(index, arc.2) == arc.1
}

/// A rule among `pages` has its arc.
pub open spec fn rule_drawn(
    arcs: Multiset<Arc>,
    index: Map<u64, usize>,
    pages: Set<u64>,
    rule: (u64, u64),
) -> bool {
    pages.contains(rule.0) && pages.contains(rule.1) ==> arcs.contains(
        (slot(index, rule.1), slot(index, rule.0), rule.0, rule.1),
    )
}

/// Each page of the index has its node.
pub open spec fn indexed(nodes: Map<int, u64>, index: Map<u64, usize>, pages: Set<u64>) -> bool {
    forall|page: u64|
        pages.contains(page) && #[trigger] index.contains_key(page) ==> nodes.contains_key(
            slot(index, page),
        ) && nodes[slot(index, page)] == page
}

/// Every page that a rule names is in the index.
pub open spec fn rules_indexed(index: Map<u64, usize>, rules: Seq<(u64, u64)>, upto: int) -> bool {
    forall|k: int|
        0 <= k < upto ==> index.contains_key((#[trigger] rules[k]).0) && index.contains_key(
            rules[k].1,
        )
}

/// The graph shows the rules among `pages`, and nothing else.
pub open spec fn drawn(
    nodes: Map<int, u64>,
    arcs: Multiset<Arc>,
    index: Map<u64, usize>,
    rules: Seq<(u64, u64)>,
    pages: Set<u64>,
) -> bool {
    &&& indexed(nodes, index, pages)
    &&& forall|arc: Arc| #[trigger] arcs.contains(arc) ==> arc_ok(index, rules, pages, arc)
    &&& forall|k: int| 0 <= k < rules.len() ==> rule_drawn(arcs, index, pages, #[trigger] rules[k])
    &&& rules_indexed(index, rules, rules.len() as int)
}

/// A path between the nodes of two pages gives a chain of rules between the
/// pages.
pub proof fn lemma_path_leads(
    nodes: Map<int, u64>,
    arcs: Multiset<Arc>,
    index: Map<u64, usize>,
    rules: Seq<(u64, u64)>,
    pages: Set<u64>,
    path: Seq<int>,
    a: u64,
    b: u64,
)
    requires
        drawn(nodes, arcs, index, rules, pages),
        is_path(arcs, path),
        pages.contains(a),
        pages.contains(b),
        index.contains_key(a),
        index.contains_key(b),
        path[0] == slot(index, a),
        path.last() == slot(index, b),
    ensures
        leads(rules, pages, a, b),
    decreases path.len(),
{
    if path.len() == 1 {
        assert(a == b);
        let chain = seq![a];
        assert(is_chain(rules, pages, chain));
        assert(chain[0] == a && chain.last() == b);
    } else {
        let n = path.len() as int;
        assert(hop(arcs, path, n - 2));
        let (pred, succ) = choose|pred: u64, succ: u64| #[trigger]
            arcs.contains((path[n - 2], path[n - 2 + 1], pred, succ));
        let arc = (path[n - 2], path[n - 1], pred, succ);
        assert(arcs.contains(arc));
        assert(arc_ok(index, rules, pages, arc));
        assert(pred == b);
        let shorter = path.drop_last();
        assert forall|i: int| 0 <= i < shorter.len() - 1 implies #[trigger] hop(
            arcs,
            shorter,
            i,
        ) by {
            assert(hop(arcs, path, i));
        }
        lemma_path_leads(nodes, arcs, index, rules, pages, shorter, a, succ);
        let chain = choose|chain: Seq<u64>| #[trigger]
            is_chain(rules, pages, chain) && chain[0] == a && chain.last() == succ;
        let longer = chain.push(b);
        assert forall|i: int| 0 <= i < longer.len() - 1 implies #[trigger] link(
            rules,
            longer,
            i,
        ) by {
            if i < chain.len() - 1 {
                assert(link(rules, chain, i));
            }
        }
        assert(is_chain(rules, pages, longer));
        assert(longer[0] == a && longer.last() == b);
    }
}

/// A chain of rules gives a path between the nodes of its first and its
/// last page.
pub proof fn lemma_chain_connects(
    nodes: Map<int, u64>,
    arcs: Multiset<Arc>,
    index: Map<u64, usize>,
    rules: Seq<(u64, u64)>,
    pages: Set<u64>,
    chain: Seq<u64>,
)
    requires
        drawn(nodes, arcs, index, rules, pages),
        is_chain(rules, pages, chain),
    ensures
        connects(arcs, slot(index, chain[0]), slot(index, chain.last())),
    decreases chain.len(),
{
    if chain.len() == 1 {
        let path = seq![slot(index, chain[0])];
        assert(is_path(arcs, path));
        assert(path[0] == slot(index, chain[0]) && path.last() == slot(index, chain.last()));
    } else {
        let n = chain.len() as int;
        let shorter = chain.drop_last();
        assert forall|i: int| 0 <= i < shorter.len() - 1 implies #[trigger] link(
            rules,
            shorter,
            i,
        ) by {
            assert(link(rules, chain, i));
        }
        assert forall|i: int| 0 <= i < shorter.len() implies pages.contains(
            #[trigger] shorter[i],
        ) by {
            assert(shorter[i] == chain[i]);
        }
        lemma_chain_connects(nodes, arcs, index, rules, pages, shorter);
        let path = choose|path: Seq<int>| #[trigger]
            is_path(arcs, path) && path[0] == slot(index, shorter[0]) && path.last() == slot(
                index,
                shorter.last(),
            );
        assert(link(rules, chain, n - 2));
        let k = choose|k: int| 0 <= k < rules.len() && rules[k] == (chain[n - 2 + 1], chain[n - 2]);
        assert(rule_drawn(arcs, index, pages, rules[k]));
        assert(pages.contains(chain[n - 1]) && pages.contains(chain[n - 2]));
        let end = slot(index, chain[n - 1]);
        assert(arcs.contains((path.last(), end, chain[n - 1], chain[n - 2])));
        let longer = path.push(end);
        assert forall|i: int| 0 <= i < longer.len() - 1 implies #[trigger] hop(
            arcs,
            longer,
            i,
        ) by {
            if i < path.len() - 1 {
                assert(hop(arcs, path, i));
            } else {
                assert(joined(arcs, path.last(), end));
            }
        }
        assert(is_path(arcs, longer));
        assert(longer[0] == slot(index, chain[0]) && longer.last() == slot(index, chain.last()));
    }
}

/// One page leads to another where the node of the one is connected to the
/// node of the other, and only there.
pub proof fn lemma_leads_connects(
    nodes: Map<int, u64>,
    arcs: Multiset<Arc>,
    index: Map<u64, usize>,
    rules: Seq<(u64, u64)>,
    pages: Set<u64>,
    a: u64,
    b: u64,
)
    requires
        drawn(nodes, arcs, index, rules, pages),
        pages.contains(a),
        pages.contains(b),
        index.contains_key(a),
        index.contains_key(b),
    ensures
        leads(rules, pages, a, b) == connects(arcs, slot(index, a), slot(index, b)),
{
    if leads(rules, pages, a, b) {
        let chain = choose|chain: Seq<u64>| #[trigger]
            is_chain(rules, pages, chain) && chain[0] == a && chain.last() == b;
        lemma_chain_connects(nodes, arcs, index, rules, pages, chain);
    }
    if connects(arcs, slot(index, a), slot(index, b)) {
        let path = choose|path: Seq<int>| #[trigger]
            is_path(arcs, path) && path[0] == slot(index, a) && path.last() == slot(index, b);
        lemma_path_leads(nodes, arcs, index, rules, pages, path, a, b);
    }
}

/// Two different pages of which one leads to the other are both named by
/// rules, and so in the index.
pub proof fn lemma_leads_indexed(
    index: Map<u64, usize>,
    rules: Seq<(u64, u64)>,
    pages: Set<u64>,
    a: u64,
    b: u64,
)
    requires
        rules_indexed(index, rules, rules.len() as int),
        leads(rules, pages, a, b),
        a != b,
    ensures
        index.contains_key(a),
        index.contains_key(b),
{
    let chain = choose|chain: Seq<u64>| #[trigger]
        is_chain(rules, pages, chain) && chain[0] == a && chain.last() == b;
    let n = chain.len() as int;
    assert(link(rules, chain, 0));
    assert(link(rules, chain, n - 2));
    let first = choose|k: int| 0 <= k < rules.len() && rules[k] == (chain[0int + 1], chain[0]);
    let last = choose|k: int| 0 <= k < rules.len() && rules[k] == (chain[n - 2 + 1], chain[n - 2]);
    assert(index.contains_key(rules[first].1));
    assert(index.contains_key(rules[last].0));
}

/// What is left of the graph of all rules, once only the pages of `keep`
/// and the rules among them stay, shows the rules among `keep`.
pub proof fn lemma_restricted(
    nodes: Map<int, u64>,
    arcs: Multiset<Arc>,
    index: Map<u64, usize>,
    rules: Seq<(u64, u64)>,
    keep: Set<u64>,
)
    requires
        drawn(nodes, arcs, index, rules, Set::full()),
    ensures
        drawn(
            kept_nodes(nodes, keep),
            joined_arcs(kept_arcs(arcs, keep), kept_nodes(nodes, keep)),
            index,
            rules,
            keep,
        ),
{
    broadcast use vstd::multiset::group_multiset_axioms;

    let part = kept_nodes(nodes, keep);
    let some = kept_arcs(arcs, keep);
    let left = joined_arcs(some, part);
    assert forall|arc: Arc| #[trigger] left.contains(arc) implies arc_ok(
        index,
        rules,
        keep,
        arc,
    ) by {
        assert(some.contains(arc));
        assert(arcs.contains(arc));
        assert(arc_ok(index, rules, Set::full(), arc));
    }
    assert forall|k: int| 0 <= k < rules.len() implies rule_drawn(
        left,
        index,
        keep,
        #[trigger] rules[k],
    ) by {
        let rule = rules[k];
        if keep.contains(rule.0) && keep.contains(rule.1) {
            assert(rule_drawn(arcs, index, Set::full(), rule));
            let arc = (slot(index, rule.1), slot(index, rule.0), rule.0, rule.1);
            assert(arcs.contains(arc));
            assert(index.contains_key(rule.0) && index.contains_key(rule.1));
            assert(some.contains(arc));
            assert(part.contains_key(arc.0) && part.contains_key(arc.1));
            assert(left.contains(arc));
        }
    }
}

/// The graph of all rules, and the node index of each page that a rule
/// names.
fn draw_rules(rules: &Vec<(u64, u64)>) -> (built: (PageGraph, HashMap<u64, usize>))
    requires
        rules.len() <= 0x7fff_ffff,
    ensures
        drawn(graph_nodes(built.0), graph_arcs(built.0), built.1@, rules@, Set::full()),
{
    broadcast use vstd::std_specs::hash::group_hash_axioms;
    broadcast use vstd::multiset::group_multiset_axioms;
    broadcast use vstd::multiset::group_multiset_properties;

    let mut graph = graph_new();
    let mut index: HashMap<u64, usize> = HashMap::new();
    let mut at: usize = 0;
    while at < rules.len()
        invariant
            at <= rules.len() <= 0x7fff_ffff,
            graph_nodes(graph).dom().finite(),
            graph_nodes(graph).dom().len() <= 2 * at,
            graph_arcs(graph) == Multiset::<Arc>::empty(),
            indexed(graph_nodes(graph), index@, Set::full()),
            rules_indexed(index@, rules@, at as int),
        decreases rules.len() - at,
    {
        let (pred, succ) = rules[at];
        add_page(&mut graph, &mut index, pred);
        add_page(&mut graph, &mut index, succ);
        at += 1;
    }
    let mut at: usize = 0;
    while at < rules.len()
        invariant
            at <= rules.len() <= 0x7fff_ffff,
            graph_arcs(graph).len() == at,
            indexed(graph_nodes(graph), index@, Set::full()),
            rules_indexed(index@, rules@, rules.len() as int),
            forall|arc: Arc| #[trigger]
                graph_arcs(graph).contains(arc) ==> arc_ok(index@, rules@, Set::full(), arc),
            forall|k: int|
                0 <= k < at ==> rule_drawn(
                    graph_arcs(graph),
                    index@,
                    Set::full(),
                    #[trigger] rules@[k],
                ),
        decreases rules.len() - at,
    {
        let (pred, succ) = rules[at];
        proof {
            assert(index@.contains_key(rules@[at as int].0));
            assert(index@.contains_key(rules@[at as int].1));
        }
        let from = *index.get(&succ).unwrap();
        let to = *index.get(&pred).unwrap();
        let ghost before = graph_arcs(graph);
        graph_add_edge(&mut graph, from, to, pred, succ);
        proof {
            let arc: Arc = (from as int, to as int, pred, succ);
            assert(rules@.contains((pred, succ)));
            assert(arc_ok(index@, rules@, Set::full(), arc));
            assert forall|other: Arc| #[trigger] graph_arcs(graph).contains(other) implies arc_ok(
                index@,
                rules@,
                Set::full(),
                other,
            ) by {
                if other != arc {
                    vstd::multiset::lemma_insert_other_elements_unchanged(before, arc, other);
                    assert(before.contains(other));
                }
            }
            assert forall|k: int| 0 <= k < at + 1 implies rule_drawn(
                graph_arcs(graph),
                index@,
                Set::full(),
                #[trigger] rules@[k],
            ) by {
                if k < at {
                    assert(rule_drawn(before, index@, Set::full(), rules@[k]));
                }
            }
        }
        at += 1;
    }
    (graph, index)
}

/// Gives the page a node and an index entry, unless it has them.
fn add_page(graph: &mut PageGraph, index: &mut HashMap<u64, usize>, page: u64)
    requires
        indexed(graph_nodes(*old(graph)), old(index)@, Set::full()),
        graph_nodes(*old(graph)).dom().finite(),
        graph_nodes(*old(graph)).dom().len() < graph_limit(),
    ensures
        indexed(graph_nodes(*final(graph)), final(index)@, Set::full()),
        graph_nodes(*final(graph)).dom().finite(),
        graph_nodes(*final(graph)).dom().len() <= graph_nodes(*old(graph)).dom().len() + 1,
        graph_arcs(*final(graph)) == graph_arcs(*old(graph)),
        final(index)@.contains_key(page),
        forall|other: u64|
            old(index)@.contains_key(other) ==> #[trigger] final(index)@.contains_key(other),
{
    broadcast use vstd::std_specs::hash::group_hash_axioms;

    if !index.contains_key(&page) {
        let at = graph_add_node(graph, page);
        index.insert(page, at);
    }
}

/// The pages of the list as a set.
fn page_set(update: &Vec<u64>) -> (keep: HashSet<u64>)
    ensures
        keep@ == update@.to_set(),
{
    broadcast use vstd::std_specs::hash::group_hash_axioms;

    let mut keep: HashSet<u64> = HashSet::new();
    let mut at: usize = 0;
    while at < update.len()
        invariant
            at <= update.len(),
            forall|page: u64|
                keep@.contains(page) <==> exists|i: int| 0 <= i < at && update@[i] == page,
        decreases update.len() - at,
    {
        keep.insert(update[at]);
        at += 1;
    }
    assert(keep@ =~= update@.to_set());
    keep
}

/// A copy of the list.
fn copy_pages(update: &Vec<u64>) -> (copy: Vec<u64>)
    ensures
        copy@ == update@,
{
    let mut copy: Vec<u64> = Vec::new();
    let mut at: usize = 0;
    while at < update.len()
        invariant
            at <= update.len(),
            copy@ == update@.take(at as int),
        decreases update.len() - at,
    {
        copy.push(update[at]);
        proof {
            assert(update@.take(at + 1) =~= update@.take(at as int).push(update@[at as int]));
        }
        at += 1;
    }
    assert(update@.take(at as int) =~= update@);
    copy
}

/// The nodes of two different pages of a list can be told apart by the
/// graph: every page of the list has its node, and of two nodes exactly one
/// is connected to the other. A list of one page asks nothing.
pub open spec fn comparable(
    nodes: Map<int, u64>,
    arcs: Multiset<Arc>,
    index: Map<u64, usize>,
    update: Seq<u64>,
) -> bool {
    update.len() >= 2 ==> {
        &&& update.no_duplicates()
        &&& forall|a: u64| #[trigger]
            update.contains(a) ==> index.contains_key(a) && nodes.contains_key(slot(index, a))
        &&& forall|a: u64, b: u64|
            update.contains(a) && update.contains(b) && a != b ==> (#[trigger] connects(
                arcs,
                slot(index, a),
                slot(index, b),
            )) != connects(arcs, slot(index, b), slot(index, a))
    }
}

/// The node of each page of the list is connected to the node of every
/// later one.
pub open spec fn sorted_pages(arcs: Multiset<Arc>, index: Map<u64, usize>, list: Seq<u64>) -> bool {
    forall|i: int, j: int|
        0 <= i < j < list.len() ==> connects(
            arcs,
            slot(index, #[trigger] list[i]),
            slot(index, #[trigger] list[j]),
        )
}

/// Which of two pages comes first: the one whose node is connected to the
/// node of the other.
fn page_order(graph: &PageGraph, index: &HashMap<u64, usize>, a: u64, b: u64) -> (order: Ordering)
    requires
        index@.contains_key(a),
        index@.contains_key(b),
        graph_nodes(*graph).contains_key(slot(index@, a)),
        graph_nodes(*graph).contains_key(slot(index@, b)),
        connects(graph_arcs(*graph), slot(index@, a), slot(index@, b)) != connects(
            graph_arcs(*graph),
            slot(index@, b),
            slot(index@, a),
        ),
    ensures
        order == (if connects(graph_arcs(*graph), slot(index@, a), slot(index@, b)) {
            Ordering::Less
        } else {
            Ordering::Greater
        }),
{
    broadcast use vstd::std_specs::hash::group_hash_axioms;

    let from = *index.get(&a).unwrap();
    let to = *index.get(&b).unwrap();
    let forth = graph_connects(graph, from, to);
    let back = graph_connects(graph, to, from);
    if forth {
        Ordering::Less
    } else {
        Ordering::Greater
    }
}

/// `slice::sort_by` with the order of the graph: afterwards the list holds
/// the same pages, and the node of each is connected to the node of every
/// later one.
#[verifier::external_body]
fn sort_pages(update: &mut Vec<u64>, graph: &PageGraph, index: &HashMap<u64, usize>)
    requires
        comparable(graph_nodes(*graph), graph_arcs(*graph), index@, old(update)@),
    ensures
        final(update)@.to_multiset() == old(update)@.to_multiset(),
        sorted_pages(graph_arcs(*graph), index@, final(update)@),
{
    update.sort_by(|a, b| page_order(graph, index, *a, *b));
}

/// The lists can be put in order and their middle pages summed: the graph
/// has room for the rules, no rule names one page twice, each list holds a
/// page and is sortable, and the sum fits.
pub open spec fn arrangeable(rules: Seq<(u64, u64)>, updates: Seq<Vec<u64>>) -> bool {
    &&& rules.len() <= 0x7fff_ffff
    &&& forall|k: int| 0 <= k < rules.len() ==> (#[trigger] rules[k]).0 != rules[k].1
    &&& forall|i: int|
        0 <= i < updates.len() ==> (#[trigger] updates[i])@.len() > 0 && sortable(
            rules,
            updates[i]@,
        )
    &&& arranged_sum(rules, updates) <= u64::MAX
}

/// A sortable list, sorted by the graph of its pages, is the list in order.
proof fn lemma_sorted_is_arranged(
    nodes: Map<int, u64>,
    arcs: Multiset<Arc>,
    index: Map<u64, usize>,
    rules: Seq<(u64, u64)>,
    update: Seq<u64>,
    list: Seq<u64>,
)
    requires
        drawn(nodes, arcs, index, rules, update.to_set()),
        sortable(rules, update),
        list.to_multiset() == update.to_multiset(),
        sorted_pages(arcs, index, list),
    ensures
        list == arranged(rules, update),
{
    let pages = update.to_set();
    list.to_multiset_ensures();
    update.to_multiset_ensures();
    assert forall|a: u64| list.contains(a) == update.contains(a) by {
        assert(list.contains(a) <==> list.to_multiset().count(a) > 0);
        assert(update.contains(a) <==> update.to_multiset().count(a) > 0);
    }
    assert forall|i: int, j: int| 0 <= i < j < list.len() implies leads(
        rules,
        pages,
        #[trigger] list[i],
        #[trigger] list[j],
    ) by {
        let a = list[i];
        let b = list[j];
        assert(list.contains(a) && list.contains(b));
        if a == b {
            let chain = seq![a];
            assert(is_chain(rules, pages, chain));
            assert(chain[0] == a && chain.last() == b);
        } else {
            if leads(rules, pages, a, b) {
                lemma_leads_indexed(index, rules, pages, a, b);
            } else {
                lemma_leads_indexed(index, rules, pages, b, a);
            }
            lemma_leads_connects(nodes, arcs, index, rules, pages, a, b);
        }
    }
    assert(is_arranged(rules, update, list));
    let chosen = arranged(rules, update);
    assert(is_arranged(rules, update, chosen));
    lemma_one_arrangement(rules, pages, list, chosen);
}

/// A sortable list can be sorted by the graph of its pages.
proof fn lemma_comparable(
    nodes: Map<int, u64>,
    arcs: Multiset<Arc>,
    index: Map<u64, usize>,
    rules: Seq<(u64, u64)>,
    update: Seq<u64>,
)
    requires
        drawn(nodes, arcs, index, rules, update.to_set()),
        sortable(rules, update),
    ensures
        comparable(nodes, arcs, index, update),
{
    let pages = update.to_set();
    if update.len() >= 2 {
        assert forall|a: u64| #[trigger] update.contains(a) implies index.contains_key(a)
            && nodes.contains_key(slot(index, a)) by {
            let i = choose|i: int| 0 <= i < update.len() && update[i] == a;
            let j = if i == 0 {
                1int
            } else {
                0int
            };
            let b = update[j];
            assert(update.contains(b));
            assert(a != b);
            if leads(rules, pages, a, b) {
                lemma_leads_indexed(index, rules, pages, a, b);
            } else {
                lemma_leads_indexed(index, rules, pages, b, a);
            }
        }
        assert forall|a: u64, b: u64|
            update.contains(a) && update.contains(b) && a != b implies (#[trigger] connects(
            arcs,
            slot(index, a),
            slot(index, b),
        )) != connects(arcs, slot(index, b), slot(index, a)) by {
            assert(leads(rules, pages, a, b) != leads(rules, pages, b, a));
            lemma_leads_connects(nodes, arcs, index, rules, pages, a, b);
            lemma_leads_connects(nodes, arcs, index, rules, pages, b, a);
        }
    }
}

/// The sum of the middle pages of the lists, once each list is put in the
/// order that the rules among its own pages ask for.
pub fn solve_b(rules: &Vec<(u64, u64)>, invalid_updates: Vec<Vec<u64>>) -> (sum: u64)
    requires
        arrangeable(rules@, invalid_updates@),
    ensures
        sum == arranged_sum(rules@, invalid_updates@),
{
    let (graph, index) = draw_rules(rules);
    let ghost term = |update: Vec<u64>| middle(arranged(rules@, update@)) as nat;
    let mut sum: u64 = 0;
    let mut at: usize = 0;
    while at < invalid_updates.len()
        invariant
            at <= invalid_updates.len(),
            arrangeable(rules@, invalid_updates@),
            drawn(graph_nodes(graph), graph_arcs(graph), index@, rules@, Set::full()),
            term == (|update: Vec<u64>| middle(arranged(rules@, update@)) as nat),
            sum == sum_over(invalid_updates@.take(at as int), term),
        decreases invalid_updates.len() - at,
    {
        let update = &invalid_updates[at];
        let mut pages = copy_pages(update);
        let keep = page_set(update);
        let mut part = graph_copy(&graph);
        graph_retain_arcs(&mut part, &keep);
        graph_retain_nodes(&mut part, &keep);
        proof {
            lemma_restricted(graph_nodes(graph), graph_arcs(graph), index@, rules@, keep@);
            lemma_comparable(graph_nodes(part), graph_arcs(part), index@, rules@, update@);
        }
        sort_pages(&mut pages, &part, &index);
        proof {
            lemma_sorted_is_arranged(
                graph_nodes(part),
                graph_arcs(part),
                index@,
                rules@,
                update@,
                pages@,
            );
            pages@.to_multiset_ensures();
            update@.to_multiset_ensures();
            let next = invalid_updates@.take(at + 1);
            assert(next.drop_last() =~= invalid_updates@.take(at as int));
            assert(next.last() == invalid_updates@[at as int]);
            lemma_sum_over_take(invalid_updates@, term, at + 1);
        }
        sum += pages[pages.len() / 2];
        at += 1;
    }
    proof {
        assert(invalid_updates@.take(at as int) =~= invalid_updates@);
    }
    sum
}

/// The sum of the middle pages of the lists.
pub fn solve_a(valid_updates: &Vec<Vec<u64>>) -> (sum: u64)
    requires
        forall|i: int| 0 <= i < valid_updates.len() ==> (#[trigger] valid_updates[i])@.len() > 0,
        middle_sum(valid_updates@) <= u64::MAX,
    ensures
        sum == middle_sum(valid_updates@),
{
    let ghost term = |update: Vec<u64>| middle(update@) as nat;
    let mut sum: u64 = 0;
    let mut at: usize = 0;
    while at < valid_updates.len()
        invariant
            at <= valid_updates.len(),
            forall|i: int|
                0 <= i < valid_updates.len() ==> (#[trigger] valid_updates[i])@.len() > 0,
            term == (|update: Vec<u64>| middle(update@) as nat),
            sum_over(valid_updates@, term) <= u64::MAX,
            sum == sum_over(valid_updates@.take(at as int), term),
        decreases valid_updates.len() - at,
    {
        let update = &valid_updates[at];
        proof {
            let next = valid_updates@.take(at + 1);
            assert(next.drop_last() =~= valid_updates@.take(at as int));
            assert(next.last() == valid_updates@[at as int]);
            lemma_sum_over_take(valid_updates@, term, at + 1);
        }
        sum += update[update.len() / 2];
        at += 1;
    }
    proof {
        assert(valid_updates@.take(at as int) =~= valid_updates@);
    }
    sum
}

/// A page of the list, not the last, stands at or before a page that a rule
/// puts before it.
pub open spec fn breaks(rules: Seq<(u64, u64)>, update: Seq<u64>) -> bool {
    exists|i: int, j: int|
        0 <= i < update.len() - 1 && i <= j < update.len() && #[trigger] ruled(
            rules,
            update[j],
            update[i],
        )
}

/// Whether a rule asks that `first` is printed before `then`.
pub fn has_rule(rules: &Vec<(u64, u64)>, first: u64, then: u64) -> (yes: bool)
    ensures
        yes == ruled(rules@, first, then),
{
    let mut at: usize = 0;
    while at < rules.len()
        invariant
            at <= rules.len(),
            forall|k: int| 0 <= k < at ==> rules@[k] != (first, then),
        decreases rules.len() - at,
    {
        let (pred, succ) = rules[at];
        if pred == first && succ == then {
            assert(rules@[at as int] == (first, then));
            return true;
        }
        at += 1;
    }
    false
}

/// Whether the list breaks no rule.
pub fn obeys_rules(rules: &Vec<(u64, u64)>, update: &Vec<u64>) -> (valid: bool)
    requires
        update.len() > 0,
    ensures
        valid == !breaks(rules@, update@),
{
    let mut pred_idx: usize = 0;
    while pred_idx < update.len() - 1
        invariant
            pred_idx <= update.len() - 1,
            forall|i: int, j: int|
                0 <= i < pred_idx && i <= j < update.len() ==> !#[trigger] ruled(
                    rules@,
                    update@[j],
                    update@[i],
                ),
        decreases update.len() - pred_idx,
    {
        let pred = update[pred_idx];
        let mut succ_idx: usize = pred_idx;
        while succ_idx < update.len()
            invariant
                pred_idx < update.len() - 1,
                pred_idx <= succ_idx <= update.len(),
                pred == update@[pred_idx as int],
                forall|j: int|
                    pred_idx <= j < succ_idx ==> !#[trigger] ruled(rules@, update@[j], pred),
            decreases update.len() - succ_idx,
        {
            if has_rule(rules, update[succ_idx], pred) {
                assert(ruled(rules@, update@[succ_idx as int], update@[pred_idx as int]));
                return false;
            }
            succ_idx += 1;
        }
        pred_idx += 1;
    }
    true
}

/// The lists that obey the rules, and those that break one, each group in
/// the order of the lists.
pub fn sort_out(rules: &Vec<(u64, u64)>, updates: &Vec<Vec<u64>>) -> (groups: (
    Vec<Vec<u64>>,
    Vec<Vec<u64>>,
))
    requires
        forall|i: int| 0 <= i < updates.len() ==> (#[trigger] updates[i])@.len() > 0,
    ensures
        grid_view(groups.0@) == grid_view(updates@).filter(
            |update: Seq<u64>| !breaks(rules@, update),
        ),
        grid_view(groups.1@) == grid_view(updates@).filter(
            |update: Seq<u64>| breaks(rules@, update),
        ),
{
    let ghost good = |update: Seq<u64>| !breaks(rules@, update);
    let ghost bad = |update: Seq<u64>| breaks(rules@, update);
    let ghost all = grid_view(updates@);
    let mut valid: Vec<Vec<u64>> = Vec::new();
    let mut invalid: Vec<Vec<u64>> = Vec::new();
    let mut at: usize = 0;
    proof {
        reveal(Seq::filter);
        assert(all.take(0) =~= Seq::<Seq<u64>>::empty());
        assert(grid_view(valid@) =~= Seq::<Seq<u64>>::empty());
        assert(grid_view(invalid@) =~= Seq::<Seq<u64>>::empty());
    }
    while at < updates.len()
        invariant
            at <= updates.len(),
            forall|i: int| 0 <= i < updates.len() ==> (#[trigger] updates[i])@.len() > 0,
            good == (|update: Seq<u64>| !breaks(rules@, update)),
            bad == (|update: Seq<u64>| breaks(rules@, update)),
            all == grid_view(updates@),
            grid_view(valid@) == all.take(at as int).filter(good),
            grid_view(invalid@) == all.take(at as int).filter(bad),
        decreases updates.len() - at,
    {
        let update = copy_pages(&updates[at]);
        let ghost valid_before = valid@;
        let ghost invalid_before = invalid@;
        proof {
            reveal(Seq::filter);
            let next = all.take(at + 1);
            assert(next.drop_last() =~= all.take(at as int));
            assert(next.last() == update@);
        }
        if obeys_rules(rules, &update) {
            valid.push(update);
            assert(grid_view(valid@) =~= grid_view(valid_before).push(update@));
        } else {
            invalid.push(update);
            assert(grid_view(invalid@) =~= grid_view(invalid_before).push(update@));
        }
        at += 1;
    }
    proof {
        assert(all.take(at as int) =~= all);
    }
    (valid, invalid)
}

/// The shape of a line that holds a rule: two numbers with a bar between
/// them.
pub open spec fn rule_shape() -> Seq<Piece> {
    seq![Piece::Number, Piece::Byte(0x7c), Piece::Number]
}

/// The rule of a line, where the line has the shape of a rule.
pub open spec fn rule_of(text: Seq<u8>, line: (usize, usize)) -> Option<(u64, u64)> {
    match figures_on(text, line, rule_shape(), 2) {
        Some(figures) => Some((figures[0].1 as u64, figures[1].1 as u64)),
        None => None,
    }
}

/// The rules of the lines, line by line.
pub open spec fn rules_of(text: Seq<u8>, lines: Seq<(usize, usize)>) -> Seq<Option<(u64, u64)>> {
    Seq::new(lines.len(), |i: int| rule_of(text, lines[i]))
}

/// The line has the shape of a rule or of a list of pages, and a number in
/// it is too large.
pub open spec fn page_line_fails(text: Seq<u8>, line: (usize, usize)) -> bool {
    ||| (shaped(text, line.0 as int, line.1 as int, rule_shape()) is Some && rule_of(text, line)
        is None)
    ||| (comma_list(text, line.0 as int, line.1 as int) matches Some(numbers) && !numbers_fit(
        numbers,
    ))
}

/// The lists of pages that were read are those of the lines that hold one,
/// in the order of the lines.
pub open spec fn updates_shown(
    text: Seq<u8>,
    lines: Seq<(usize, usize)>,
    updates: Seq<Vec<u64>>,
) -> bool
    decreases lines.len(),
{
    if lines.len() == 0 {
        updates.len() == 0
    } else {
        let line = lines.last();
        match comma_list(text, line.0 as int, line.1 as int) {
            Some(numbers) => updates.len() > 0 && naturals(updates.last()@) == numbers
                && updates_shown(text, lines.drop_last(), updates.drop_last()),
            None => updates_shown(text, lines.drop_last(), updates),
        }
    }
}

/// Reads the rules and the lists of pages: a rule from each line that is
/// two numbers with a bar between them, a list from each line that is
/// numbers with commas between them. Other lines are passed over. Nothing is
/// read where a number is too large.
pub fn read_pages(text: &[u8]) -> (pages: Option<(Vec<(u64, u64)>, Vec<Vec<u64>>)>)
    ensures
        match pages {
            Some(found) => {
                &&& found.0@ == present_of(rules_of(text@, lines_of(text@, 0, text@.len() as int)))
                &&& updates_shown(text@, lines_of(text@, 0, text@.len() as int), found.1@)
            },
            None => exists|i: int|
                0 <= i < lines_of(text@, 0, text@.len() as int).len() && page_line_fails(
                    text@,
                    #[trigger] lines_of(text@, 0, text@.len() as int)[i],
                ),
        },
{
    let lines = all_lines(text);
    let pieces = vec![Piece::Number, Piece::Byte(0x7c), Piece::Number];
    assert(pieces@ =~= rule_shape());
    let rows = match read_lines(text, &lines, &pieces) {
        Some(rows) => rows,
        None => {
            proof {
                let i = choose|i: int|
                    0 <= i < lines@.len() && #[trigger] line_too_large(text@, lines@, pieces@, i);
                assert(page_line_fails(text@, lines@[i]));
            }
            return None;
        },
    };
    let mut rules: Vec<Option<(u64, u64)>> = Vec::new();
    let mut updates: Vec<Vec<u64>> = Vec::new();
    let mut at: usize = 0;
    assert(lines@.take(0) =~= Seq::<(usize, usize)>::empty());
    while at < lines.len()
        invariant
            at <= lines.len(),
            rows@.len() == lines@.len(),
            lines@ == lines_of(text@, 0, text@.len() as int),
            parts_within(text@, lines@),
            pieces@ == rule_shape(),
            lines_show(text@, lines@, pieces@, rows@),
            rules@.len() == at,
            forall|i: int| 0 <= i < at ==> rule_of(text@, lines@[i]) == #[trigger] rules@[i],
            updates_shown(text@, lines@.take(at as int), updates@),
        decreases lines.len() - at,
    {
        proof {
            lemma_row_read(text@, lines@[at as int], pieces@, rows@[at as int], 2);
        }
        match &rows[at] {
            Some(numbers) => {
                if numbers.len() != 2 {
                    assert(page_line_fails(text@, lines@[at as int]));
                    return None;
                }
                rules.push(Some((numbers[0].1, numbers[1].1)));
            },
            None => {
                rules.push(None);
            },
        }
        let (from, to) = lines[at];
        let ghost before = updates@;
        proof {
            let next = lines@.take(at + 1);
            assert(next.drop_last() =~= lines@.take(at as int));
            assert(next.last() == lines@[at as int]);
        }
        match read_comma_list(text, from, to) {
            None => {
                assert(page_line_fails(text@, lines@[at as int]));
                return None;
            },
            Some(None) => {},
            Some(Some(list)) => {
                updates.push(list);
                assert(updates@.drop_last() =~= before);
            },
        }
        at += 1;
    }
    assert(lines@.take(at as int) =~= lines@);
    assert(rules@ =~= rules_of(text@, lines@));
    Some((present(&rules), updates))
}

} // verus!
