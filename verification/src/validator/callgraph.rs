//! The topology of the call graph.
//!
//! Nodes and edges live in a `petgraph` graph that carries no weights: a node
//! is known by its index and an edge by the order in which it was added. What
//! the graph holds is modelled by two names, [`graph_nodes`] and
//! [`graph_edges`]; every function of `petgraph` that the validator calls is
//! reached through one of the wrappers below, whose contract is believed, not
//! proved.

use petgraph::graph::{Graph, NodeIndex};
use petgraph::visit::EdgeRef;
use petgraph::Direction;
use vstd::prelude::*;

verus! {

#[verifier::external_type_specification]
#[verifier::external_body]
#[verifier::reject_recursive_types(N)]
#[verifier::reject_recursive_types(E)]
#[verifier::reject_recursive_types(Ty)]
#[verifier::reject_recursive_types(Ix)]
pub struct ExGraph<N, E, Ty, Ix>(Graph<N, E, Ty, Ix>);

#[verifier::external_type_specification]
#[verifier::external_body]
pub struct ExDirected(petgraph::Directed);

/// The number of nodes in the graph. Nodes are numbered from zero in the
/// order of their addition.
pub uninterp spec fn graph_nodes(g: &Graph<(), ()>) -> nat;

/// The edges of the graph as `(source, target)` pairs, in the order of their
/// addition. An edge's position in this sequence is its index.
pub uninterp spec fn graph_edges(g: &Graph<(), ()>) -> Seq<(int, int)>;

/// What `petgraph::algo::toposort` returns for a graph of `nodes` nodes and
/// the given edges: the order it found, or `None` for a cycle.
pub uninterp spec fn toposort_of(nodes: nat, edges: Seq<(int, int)>) -> Option<Seq<int>>;

/// What `petgraph::algo::tarjan_scc` returns for a graph of `nodes` nodes and
/// the given edges.
pub uninterp spec fn sccs_of(nodes: nat, edges: Seq<(int, int)>) -> Seq<Seq<int>>;

/// The largest number of nodes, and of edges, that the graph can hold.
pub const MAX_GRAPH_ITEMS: usize = 4294967295;

/// A sequence of machine integers read as mathematical ones.
pub open spec fn ints(s: Seq<usize>) -> Seq<int> {
    Seq::new(s.len(), |i: int| s[i] as int)
}

/// A sequence of sequences of machine integers read as mathematical ones.
pub open spec fn int_rows(s: Seq<Vec<usize>>) -> Seq<Seq<int>> {
    Seq::new(s.len(), |i: int| ints(s[i]@))
}

/// There is an edge from `a` to `b`.
pub open spec fn has_edge(edges: Seq<(int, int)>, a: int, b: int) -> bool {
    exists|e: int| 0 <= e < edges.len() && #[trigger] edges[e] == (a, b)
}

/// `walk` is a non-empty sequence of nodes, each joined to the next by an edge.
pub open spec fn is_walk(edges: Seq<(int, int)>, walk: Seq<int>) -> bool {
    &&& walk.len() > 0
    &&& forall|i: int| 0 <= i < walk.len() - 1 ==> has_edge(edges, #[trigger] walk[i], walk[i + 1])
}

/// Some walk leads from `a` to `b`. Every node reaches itself.
pub open spec fn reaches(edges: Seq<(int, int)>, a: int, b: int) -> bool {
    exists|walk: Seq<int>| #[trigger] is_walk(edges, walk) && walk.first() == a && walk.last() == b
}

/// `walk` returns to where it began after at least one edge.
pub open spec fn is_cycle(edges: Seq<(int, int)>, walk: Seq<int>) -> bool {
    is_walk(edges, walk) && walk.len() >= 2 && walk.first() == walk.last()
}

/// The graph has a cycle. A self-loop is one.
pub open spec fn has_cycle(edges: Seq<(int, int)>) -> bool {
    exists|walk: Seq<int>| is_cycle(edges, walk)
}

/// `order` lists each of the `nodes` nodes once, and every edge leads from an
/// earlier position to a later one.
pub open spec fn is_topological_order(nodes: nat, edges: Seq<(int, int)>, order: Seq<int>) -> bool {
    &&& order.len() == nodes
    &&& order.no_duplicates()
    &&& forall|k: int| 0 <= k < order.len() ==> 0 <= #[trigger] order[k] < nodes
    &&& forall|v: int| 0 <= v < nodes ==> #[trigger] order.contains(v)
    &&& forall|j: int, k: int|
        0 <= j < order.len() && 0 <= k < order.len() && #[trigger] has_edge(edges, order[j], order[k])
            ==> j < k
}

/// Component `i` of `sccs` holds the node `v`.
pub open spec fn scc_holds(sccs: Seq<Seq<int>>, i: int, v: int) -> bool {
    0 <= i < sccs.len() && sccs[i].contains(v)
}

/// Some component of `sccs` holds the node `v`.
pub open spec fn scc_covers(sccs: Seq<Seq<int>>, v: int) -> bool {
    exists|i: int| scc_holds(sccs, i, v)
}

/// `sccs` splits the `nodes` nodes into the strongly connected components of
/// the graph: every node stands in exactly one place, and two nodes share a
/// component exactly when each reaches the other.
pub open spec fn is_scc_partition(nodes: nat, edges: Seq<(int, int)>, sccs: Seq<Seq<int>>) -> bool {
    &&& forall|i: int| 0 <= i < sccs.len() ==> (#[trigger] sccs[i]).no_duplicates()
    &&& forall|i: int, v: int| #[trigger] scc_holds(sccs, i, v) ==> 0 <= v < nodes
    &&& forall|v: int| 0 <= v < nodes ==> #[trigger] scc_covers(sccs, v)
    &&& forall|i: int, k: int, u: int, v: int|
        #[trigger] scc_holds(sccs, i, u) && #[trigger] scc_holds(sccs, k, v) ==> (i == k <==> reaches(
            edges,
            u,
            v,
        ) && reaches(edges, v, u))
}

/// The indices of the edges that `keep` accepts, latest first.
pub open spec fn edges_where(edges: Seq<(int, int)>, keep: spec_fn((int, int)) -> bool) -> Seq<int>
    decreases edges.len(),
{
    if edges.len() == 0 {
        Seq::empty()
    } else {
        let rest = edges_where(edges.drop_last(), keep);
        if keep(edges.last()) {
            seq![edges.len() - 1] + rest
        } else {
            rest
        }
    }
}

/// Accepts the edges that leave `a`.
pub open spec fn leaves(a: int) -> spec_fn((int, int)) -> bool {
    |e: (int, int)| e.0 == a
}

/// Accepts the edges that enter `b`.
pub open spec fn enters(b: int) -> spec_fn((int, int)) -> bool {
    |e: (int, int)| e.1 == b
}

/// Accepts the edges from `a` to `b`.
pub open spec fn joins(a: int, b: int) -> spec_fn((int, int)) -> bool {
    |e: (int, int)| e.0 == a && e.1 == b
}

/// The indices of the edges that leave `a`, latest first.
pub open spec fn edges_from(edges: Seq<(int, int)>, a: int) -> Seq<int> {
    edges_where(edges, leaves(a))
}

/// The indices of the edges that enter `b`, latest first.
pub open spec fn edges_into(edges: Seq<(int, int)>, b: int) -> Seq<int> {
    edges_where(edges, enters(b))
}

/// The indices of the edges from `a` to `b`, latest first.
pub open spec fn edges_between(edges: Seq<(int, int)>, a: int, b: int) -> Seq<int> {
    edges_where(edges, joins(a, b))
}

/// The sources of the edges that enter `b`, latest edge first. A node that
/// calls `b` through several edges occurs once for each.
pub open spec fn callers_of(edges: Seq<(int, int)>, b: int) -> Seq<int> {
    let into = edges_into(edges, b);
    Seq::new(into.len(), |k: int| edges[into[k]].0)
}

/// `edges_where` lists exactly the indices of the edges that `keep` accepts,
/// in falling order.
pub proof fn lemma_edges_where(edges: Seq<(int, int)>, keep: spec_fn((int, int)) -> bool)
    ensures
        forall|k: int|
            0 <= k < edges_where(edges, keep).len() ==> 0 <= (#[trigger] edges_where(edges, keep)[k])
                < edges.len() && keep(edges[edges_where(edges, keep)[k]]),
        forall|e: int| 0 <= e < edges.len() && keep(#[trigger] edges[e]) ==> edges_where(edges, keep).contains(e),
        forall|j: int, k: int|
            0 <= j < k < edges_where(edges, keep).len() ==> edges_where(edges, keep)[j] > edges_where(
                edges,
                keep,
            )[k],
    decreases edges.len(),
{
    if edges.len() > 0 {
        let all = edges_where(edges, keep);
        let shorter = edges.drop_last();
        let rest = edges_where(shorter, keep);
        lemma_edges_where(shorter, keep);
        let shift: int = if keep(edges.last()) {
            1
        } else {
            0
        };
        assert forall|k: int| 0 <= k < all.len() implies 0 <= (#[trigger] all[k]) < edges.len() && keep(
            edges[all[k]],
        ) by {
            if k >= shift {
                assert(all[k] == rest[k - shift]);
                assert(shorter[rest[k - shift]] == edges[rest[k - shift]]);
            }
        }
        assert forall|e: int| 0 <= e < edges.len() && keep(#[trigger] edges[e]) implies all.contains(e) by {
            if e == edges.len() - 1 {
                assert(all[0] == e);
            } else {
                assert(shorter[e] == edges[e]);
                assert(rest.contains(e));
                let k = choose|k: int| 0 <= k < rest.len() && rest[k] == e;
                assert(all[k + shift] == e);
            }
        }
        assert forall|j: int, k: int| 0 <= j < k < all.len() implies all[j] > all[k] by {
            assert(all[k] == rest[k - shift]);
            if j >= shift {
                assert(all[j] == rest[j - shift]);
            }
        }
    }
}

/// The positions in a topological order: each scope stands at exactly one.
pub proof fn lemma_order_positions(nodes: nat, edges: Seq<(int, int)>, order: Seq<int>)
    requires
        is_topological_order(nodes, edges, order),
    ensures
        forall|k: int| 0 <= k < order.len() ==> order.index_of(#[trigger] order[k]) == k,
        forall|v: int|
            0 <= v < nodes ==> 0 <= #[trigger] order.index_of(v) < order.len() && order[order.index_of(v)]
                == v,
        forall|a: int, b: int|
            0 <= a < nodes && 0 <= b < nodes && #[trigger] has_edge(edges, a, b) ==> order.index_of(a)
                < order.index_of(b),
{
    assert forall|v: int| 0 <= v < nodes implies 0 <= #[trigger] order.index_of(v) < order.len()
        && order[order.index_of(v)] == v by {
        assert(order.contains(v));
    }
    assert forall|k: int| 0 <= k < order.len() implies order.index_of(#[trigger] order[k]) == k by {
        assert(order.contains(order[k]));
    }
    assert forall|a: int, b: int| 0 <= a < nodes && 0 <= b < nodes && #[trigger] has_edge(edges, a, b) implies order.index_of(
        a,
    ) < order.index_of(b) by {
        assert(order.contains(a));
        assert(order.contains(b));
        assert(has_edge(edges, order[order.index_of(a)], order[order.index_of(b)]));
    }
}

/// A graph with a topological order has no cycle.
pub proof fn lemma_ordered_is_acyclic(nodes: nat, edges: Seq<(int, int)>, order: Seq<int>)
    requires
        is_topological_order(nodes, edges, order),
        forall|e: int| 0 <= e < edges.len() ==> 0 <= (#[trigger] edges[e]).0 < nodes && 0 <= edges[e].1 < nodes,
    ensures
        !has_cycle(edges),
{
    if has_cycle(edges) {
        let walk = choose|walk: Seq<int>| is_cycle(edges, walk);
        lemma_walk_climbs(nodes, edges, order, walk, walk.len() - 1);
    }
}

/// Along a walk the position in a topological order climbs.
proof fn lemma_walk_climbs(nodes: nat, edges: Seq<(int, int)>, order: Seq<int>, walk: Seq<int>, i: int)
    requires
        is_topological_order(nodes, edges, order),
        forall|e: int| 0 <= e < edges.len() ==> 0 <= (#[trigger] edges[e]).0 < nodes && 0 <= edges[e].1 < nodes,
        is_walk(edges, walk),
        1 <= i < walk.len(),
    ensures
        order.index_of(walk[0]) < order.index_of(walk[i]),
        0 <= walk[0] < nodes,
        0 <= walk[i] < nodes,
    decreases i,
{
    lemma_order_positions(nodes, edges, order);
    assert(has_edge(edges, walk[i - 1], walk[i - 1 + 1]));
    let e = choose|e: int| 0 <= e < edges.len() && #[trigger] edges[e] == (walk[i - 1], walk[i]);
    assert(edges[e].0 == walk[i - 1] && edges[e].1 == walk[i]);
    if i > 1 {
        lemma_walk_climbs(nodes, edges, order, walk, i - 1);
    }
}

/// `Graph::new`: a graph without nodes or edges.
#[verifier::external_body]
pub(crate) fn topology_new() -> (g: Graph<(), ()>)
    ensures
        graph_nodes(&g) == 0,
        graph_edges(&g) == Seq::<(int, int)>::empty(),
{
    Graph::new()
}

/// `Graph::add_node`: adds one node, whose index is the number of nodes before
/// the call, and leaves the edges alone. The graph panics when it is full,
/// which `requires` excludes.
#[verifier::external_body]
pub(crate) fn topology_add_node(g: &mut Graph<(), ()>) -> (node: usize)
    requires
        graph_nodes(old(g)) < MAX_GRAPH_ITEMS,
    ensures
        node == graph_nodes(old(g)),
        graph_nodes(final(g)) == graph_nodes(old(g)) + 1,
        graph_edges(final(g)) == graph_edges(old(g)),
{
    g.add_node(()).index()
}

/// `Graph::add_edge`: appends the edge from `a` to `b`, whose index is the
/// number of edges before the call; parallel edges and self-loops are kept.
/// The graph panics on a node that does not exist and when it is full, which
/// `requires` excludes.
#[verifier::external_body]
pub(crate) fn topology_add_edge(g: &mut Graph<(), ()>, a: usize, b: usize) -> (edge: usize)
    requires
        a < graph_nodes(old(g)),
        b < graph_nodes(old(g)),
        graph_nodes(old(g)) <= MAX_GRAPH_ITEMS,
        graph_edges(old(g)).len() < MAX_GRAPH_ITEMS,
    ensures
        edge == graph_edges(old(g)).len(),
        graph_nodes(final(g)) == graph_nodes(old(g)),
        graph_edges(final(g)) == graph_edges(old(g)).push((a as int, b as int)),
{
    g.add_edge(NodeIndex::new(a), NodeIndex::new(b), ()).index()
}

/// `petgraph::algo::toposort`: for an acyclic graph an order in which each
/// node stands once and before its successors; for a graph with a cycle (a
/// self-loop is one) nothing.
#[verifier::external_body]
pub(crate) fn topology_toposort(g: &Graph<(), ()>) -> (r: Option<Vec<usize>>)
    ensures
        match r {
            Some(order) => {
                &&& toposort_of(graph_nodes(g), graph_edges(g)) == Some(ints(order@))
                &&& is_topological_order(graph_nodes(g), graph_edges(g), ints(order@))
            },
            None => {
                &&& toposort_of(graph_nodes(g), graph_edges(g)) is None
                &&& has_cycle(graph_edges(g))
            },
        },
{
    match petgraph::algo::toposort(g, None) {
        Ok(order) => Some(order.into_iter().map(|node| node.index()).collect()),
        Err(_) => None,
    }
}

/// `petgraph::algo::tarjan_scc`: the strongly connected components of the
/// graph. Every node stands in exactly one of them, once.
#[verifier::external_body]
pub(crate) fn topology_sccs(g: &Graph<(), ()>) -> (r: Vec<Vec<usize>>)
    ensures
        int_rows(r@) == sccs_of(graph_nodes(g), graph_edges(g)),
        is_scc_partition(graph_nodes(g), graph_edges(g), int_rows(r@)),
{
    petgraph::algo::tarjan_scc(g).into_iter().map(
        |scc| scc.into_iter().map(|node| node.index()).collect(),
    ).collect()
}

/// `Graph::edges_directed` with `Outgoing`: the indices of the edges that
/// leave `a`, the most recently added first.
#[verifier::external_body]
pub(crate) fn topology_outgoing(g: &Graph<(), ()>, a: usize) -> (r: Vec<usize>)
    requires
        a < graph_nodes(g),
        graph_nodes(g) <= MAX_GRAPH_ITEMS,
    ensures
        ints(r@) == edges_from(graph_edges(g), a as int),
{
    g.edges_directed(NodeIndex::new(a), Direction::Outgoing).map(|edge| edge.id().index()).collect()
}

/// `Graph::neighbors_directed` with `Incoming`: the source of each edge that
/// enters `b`, the most recently added edge first.
#[verifier::external_body]
pub(crate) fn topology_callers(g: &Graph<(), ()>, b: usize) -> (r: Vec<usize>)
    requires
        b < graph_nodes(g),
        graph_nodes(g) <= MAX_GRAPH_ITEMS,
    ensures
        ints(r@) == callers_of(graph_edges(g), b as int),
{
    g.neighbors_directed(NodeIndex::new(b), Direction::Incoming).map(|node| node.index()).collect()
}

/// `Graph::edges_connecting`: the indices of the edges from `a` to `b`, the
/// most recently added first.
#[verifier::external_body]
pub(crate) fn topology_connecting(g: &Graph<(), ()>, a: usize, b: usize) -> (r: Vec<usize>)
    requires
        a < graph_nodes(g),
        b < graph_nodes(g),
        graph_nodes(g) <= MAX_GRAPH_ITEMS,
    ensures
        ints(r@) == edges_between(graph_edges(g), a as int, b as int),
{
    g.edges_connecting(NodeIndex::new(a), NodeIndex::new(b)).map(|edge| edge.id().index()).collect()
}

} // verus!
