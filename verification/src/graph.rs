//! Directed graphs over node indices: what paths, reachability and dominance
//! mean, and the `petgraph` structures and algorithms the analyses run on.

use petgraph::algo::dominators::{simple_fast, Dominators};
use petgraph::graph::{EdgeIndex, NodeIndex};
use petgraph::stable_graph::StableGraph;
use petgraph::visit::{depth_first_search, DfsEvent};
use petgraph::Directed;
use vstd::prelude::*;

verus! {

/// `petgraph::stable_graph::StableGraph`, opaque to the verifier.
#[verifier::external_type_specification]
#[verifier::external_body]
#[verifier::reject_recursive_types(N)]
#[verifier::reject_recursive_types(E)]
#[verifier::reject_recursive_types(Ty)]
#[verifier::reject_recursive_types(Ix)]
pub struct ExStableGraph<N, E, Ty, Ix>(StableGraph<N, E, Ty, Ix>);

/// `petgraph::Directed`, the marker of directed edges.
#[verifier::external_type_specification]
#[verifier::external_body]
pub struct ExDirected(Directed);

/// `petgraph::graph::NodeIndex`, opaque to the verifier.
#[verifier::external_type_specification]
#[verifier::external_body]
#[verifier::reject_recursive_types(Ix)]
pub struct ExNodeIndex<Ix>(NodeIndex<Ix>);

/// `petgraph::algo::dominators::Dominators`, opaque to the verifier.
#[verifier::external_type_specification]
#[verifier::external_body]
#[verifier::reject_recursive_types(N)]
pub struct ExDominators<N: Copy + Eq + core::hash::Hash>(Dominators<N>);

/// The node slots of a graph: slot `i` holds the weight of node `i`, or nothing
/// where a node was removed.
pub uninterp spec fn graph_nodes(g: StableGraph<usize, (), Directed, usize>) -> Seq<Option<usize>>;

/// The edges of a graph: edge index to (source, target).
pub uninterp spec fn graph_edges(g: StableGraph<usize, (), Directed, usize>) -> Map<int, (int, int)>;

/// What a dominance relation holds: for each node that can be reached from the
/// root, the set of its strict dominators.
pub uninterp spec fn dominance(d: Dominators<NodeIndex<usize>>) -> Map<int, Set<int>>;

/// Whether `a` is the index of a node.
pub open spec fn is_node(nodes: Seq<Option<usize>>, a: int) -> bool {
    0 <= a < nodes.len() && nodes[a] is Some
}

/// Whether every slot holds a node.
pub open spec fn no_vacancy(nodes: Seq<Option<usize>>) -> bool {
    forall|i: int| 0 <= i < nodes.len() ==> (#[trigger] nodes[i]) is Some
}

/// The edges of a graph that has none.
pub open spec fn no_edges() -> Map<int, (int, int)> {
    Map::empty()
}

/// Whether some edge leads from `a` to `b`.
pub open spec fn has_edge(edges: Map<int, (int, int)>, a: int, b: int) -> bool {
    exists|e: int| edges.dom().contains(e) && #[trigger] edges[e] == (a, b)
}

/// The pairs (source, target) joined by an edge.
pub open spec fn edge_set(edges: Map<int, (int, int)>) -> Set<(int, int)> {
    Set::new(|p: (int, int)| has_edge(edges, p.0, p.1))
}

/// Whether an edge joins node `i` of `p` to the next.
pub open spec fn joined(edges: Set<(int, int)>, p: Seq<int>, i: int) -> bool {
    edges.contains((p[i], p[i + 1]))
}

/// Whether `p` is a walk along edges: at least one node, each joined to the next.
pub open spec fn is_path(edges: Set<(int, int)>, p: Seq<int>) -> bool {
    &&& p.len() >= 1
    &&& forall|i: int| 0 <= i < p.len() - 1 ==> #[trigger] joined(edges, p, i)
}

/// Whether `p` is a walk from `a` to `b`.
pub open spec fn path_between(edges: Set<(int, int)>, p: Seq<int>, a: int, b: int) -> bool {
    is_path(edges, p) && p[0] == a && p.last() == b
}

/// Whether `b` can be reached from `a` along edges; every node reaches itself.
#[verifier::opaque]
pub open spec fn reachable(edges: Set<(int, int)>, a: int, b: int) -> bool {
    exists|p: Seq<int>| #[trigger] path_between(edges, p, a, b)
}

/// Whether every walk from `root` to `n` passes through `d`.
#[verifier::opaque]
pub open spec fn dominates(edges: Set<(int, int)>, root: int, d: int, n: int) -> bool {
    forall|p: Seq<int>| #[trigger] path_between(edges, p, root, n) ==> p.contains(d)
}

/// Whether `d` dominates `n` and is not `n`.
pub open spec fn strictly_dominates(edges: Set<(int, int)>, root: int, d: int, n: int) -> bool {
    d != n && dominates(edges, root, d, n)
}

/// One event of a depth-first search.
#[derive(Debug, Clone, Copy, PartialEq, Eq, Structural)]
pub enum DfsRecord {
    /// A node is visited for the first time, at the given time.
    Discover(usize, usize),
    /// An edge to a node not visited before.
    TreeEdge(usize, usize),
    /// An edge to a node whose visit has not ended.
    BackEdge(usize, usize),
    /// An edge to a node whose visit has ended.
    CrossForwardEdge(usize, usize),
    /// All edges from a node have been reported, at the given time.
    Finish(usize, usize),
}

/// Whether the event is the discovery of node `n`.
pub open spec fn discovers(event: DfsRecord, n: int) -> bool {
    event matches DfsRecord::Discover(m, _) && m == n
}

/// Whether the event reports an edge from `u` to `v`.
pub open spec fn reports_edge(event: DfsRecord, u: int, v: int) -> bool {
    match event {
        DfsRecord::TreeEdge(a, b) => a == u && b == v,
        DfsRecord::BackEdge(a, b) => a == u && b == v,
        DfsRecord::CrossForwardEdge(a, b) => a == u && b == v,
        _ => false,
    }
}

/// Whether the events report the discovery of node `n`.
pub open spec fn discovered(events: Seq<DfsRecord>, n: int) -> bool {
    exists|i: int| 0 <= i < events.len() && discovers(#[trigger] events[i], n)
}

/// Whether the events report an edge from `u` to `v`.
pub open spec fn edge_reported(events: Seq<DfsRecord>, u: int, v: int) -> bool {
    exists|i: int| 0 <= i < events.len() && reports_edge(#[trigger] events[i], u, v)
}

/// How `after` relates to `before` once an edge from `a` to `b` is asked for: where
/// one exists nothing changes, else one is added under an unused edge index.
pub open spec fn edge_ensured(
    before: Map<int, (int, int)>,
    after: Map<int, (int, int)>,
    a: int,
    b: int,
) -> bool {
    if has_edge(before, a, b) {
        after == before
    } else {
        exists|e: int| !before.dom().contains(e) && after == #[trigger] before.insert(e, (a, b))
    }
}

/// Whether `out` lists exactly the targets of the edges that start at `a`.
pub open spec fn lists_targets(out: Seq<usize>, edges: Map<int, (int, int)>, a: int) -> bool {
    forall|b: int|
        has_edge(edges, a, b) <==> b == b as usize && #[trigger] out.contains(b as usize)
}

/// Whether the events of a search from `start` report a discovery for exactly the
/// nodes that can be reached from `start`, and an edge for exactly the edges that
/// leave such a node.
pub open spec fn search_covers(events: Seq<DfsRecord>, edges: Map<int, (int, int)>, start: int) -> bool {
    &&& forall|n: int| #[trigger] discovered(events, n) <==> reachable(edge_set(edges), start, n)
    &&& forall|u: int, v: int| #[trigger]
        edge_reported(events, u, v) <==> reachable(edge_set(edges), start, u) && has_edge(
            edges,
            u,
            v,
        )
}

/// Calls `StableGraph::with_capacity` with no capacity asked for: a graph without
/// nodes and edges.
#[verifier::external_body]
pub(crate) fn graph_new() -> (g: StableGraph<usize, (), Directed, usize>)
    ensures
        graph_nodes(g) == Seq::<Option<usize>>::empty(),
        graph_edges(g) == no_edges(),
{
    StableGraph::with_capacity(0, 0)
}

/// Calls `StableGraph::add_node` on a graph from which no node was removed: the
/// node takes the next slot, whose index is returned. With `usize` indices the
/// index type cannot be exhausted.
#[verifier::external_body]
pub(crate) fn graph_add_node(g: &mut StableGraph<usize, (), Directed, usize>, weight: usize) -> (i: usize)
    requires
        no_vacancy(graph_nodes(*old(g))),
    ensures
        i == graph_nodes(*old(g)).len(),
        graph_nodes(*final(g)) == graph_nodes(*old(g)).push(Some(weight)),
        graph_edges(*final(g)) == graph_edges(*old(g)),
{
    g.add_node(weight).index()
}

/// Calls `StableGraph::update_edge` between two nodes of the graph. Where an edge
/// from `a` to `b` exists nothing is added; else one is added under an unused edge
/// index. With `usize` indices the index type cannot be exhausted.
#[verifier::external_body]
pub(crate) fn graph_update_edge(g: &mut StableGraph<usize, (), Directed, usize>, a: usize, b: usize)
    requires
        is_node(graph_nodes(*old(g)), a as int),
        is_node(graph_nodes(*old(g)), b as int),
    ensures
        graph_nodes(*final(g)) == graph_nodes(*old(g)),
        edge_ensured(graph_edges(*old(g)), graph_edges(*final(g)), a as int, b as int),
{
    g.update_edge(NodeIndex::new(a), NodeIndex::new(b), ());
}

/// Calls `StableGraph::clone`: the copy has the same nodes and edges under the
/// same indices.
#[verifier::external_body]
pub(crate) fn graph_clone(g: &StableGraph<usize, (), Directed, usize>) -> (copy: StableGraph<
    usize,
    (),
    Directed,
    usize,
>)
    ensures
        graph_nodes(copy) == graph_nodes(*g),
        graph_edges(copy) == graph_edges(*g),
{
    g.clone()
}

/// Calls `StableGraph::neighbors` on a node of the graph: the targets of the
/// edges that start at `a`.
#[verifier::external_body]
pub(crate) fn graph_neighbors(g: &StableGraph<usize, (), Directed, usize>, a: usize) -> (out: Vec<usize>)
    requires
        is_node(graph_nodes(*g), a as int),
    ensures
        lists_targets(out@, graph_edges(*g), a as int),
{
    g.neighbors(NodeIndex::new(a)).map(|n| n.index()).collect()
}

/// Calls `StableGraph::find_edge` on two nodes of the graph: the index of an edge
/// from `a` to `b`, or `None` if there is no such edge.
#[verifier::external_body]
pub(crate) fn graph_find_edge(g: &StableGraph<usize, (), Directed, usize>, a: usize, b: usize) -> (r:
    Option<usize>)
    requires
        is_node(graph_nodes(*g), a as int),
        is_node(graph_nodes(*g), b as int),
    ensures
        r matches Some(e) ==> graph_edges(*g).dom().contains(e as int) && graph_edges(*g)[e as int]
            == (a as int, b as int),
        r is None ==> !has_edge(graph_edges(*g), a as int, b as int),
{
    g.find_edge(NodeIndex::new(a), NodeIndex::new(b)).map(|e| e.index())
}

/// Calls `StableGraph::remove_edge` on the index of an edge of the graph: that
/// edge is gone, every other edge and every node stays.
#[verifier::external_body]
pub(crate) fn graph_remove_edge(g: &mut StableGraph<usize, (), Directed, usize>, e: usize)
    requires
        graph_edges(*old(g)).dom().contains(e as int),
    ensures
        graph_nodes(*final(g)) == graph_nodes(*old(g)),
        graph_edges(*final(g)) == graph_edges(*old(g)).remove(e as int),
{
    g.remove_edge(EdgeIndex::new(e));
}

/// Calls `StableGraph::node_indices` on a graph from which no node was removed:
/// the indices of the nodes, in increasing order.
#[verifier::external_body]
pub(crate) fn graph_node_indices(g: &StableGraph<usize, (), Directed, usize>) -> (out: Vec<usize>)
    requires
        no_vacancy(graph_nodes(*g)),
    ensures
        out@.len() == graph_nodes(*g).len(),
        forall|i: int| 0 <= i < out@.len() ==> #[trigger] out@[i] == i,
{
    g.node_indices().map(|n| n.index()).collect()
}

/// Calls `petgraph::algo::dominators::simple_fast` with a node of the graph as
/// root: the dominance relation of the graph from that root. It covers the nodes
/// that can be reached from the root, each with its strict dominators.
#[verifier::external_body]
pub(crate) fn graph_dominators(g: &StableGraph<usize, (), Directed, usize>, root: usize) -> (d: Dominators<
    NodeIndex<usize>,
>)
    requires
        is_node(graph_nodes(*g), root as int),
    ensures
        forall|n: int| #[trigger]
            dominance(d).dom().contains(n) <==> reachable(
                edge_set(graph_edges(*g)),
                root as int,
                n,
            ),
        forall|n: int, x: int|
            dominance(d).dom().contains(n) ==> (#[trigger] dominance(d)[n].contains(x)
                <==> strictly_dominates(edge_set(graph_edges(*g)), root as int, x, n)),
{
    simple_fast(g, NodeIndex::new(root))
}

/// Calls `Dominators::strict_dominators`: the strict dominators of `n`, or `None`
/// for a node that cannot be reached from the root.
#[verifier::external_body]
pub(crate) fn strict_dominators_of(d: &Dominators<NodeIndex<usize>>, n: usize) -> (r: Option<Vec<usize>>)
    ensures
        r is Some <==> dominance(*d).dom().contains(n as int),
        r matches Some(v) ==> forall|x: int|
            dominance(*d)[n as int].contains(x) <==> x == x as usize && #[trigger] v@.contains(
                x as usize,
            ),
{
    d.strict_dominators(NodeIndex::new(n)).map(|it| it.map(|x| x.index()).collect())
}

/// Calls `petgraph::visit::depth_first_search` from one node of the graph and
/// records every event. A discovery is reported for exactly the nodes that can be
/// reached from `start`, and an edge for exactly the edges that leave such a node.
#[verifier::external_body]
pub(crate) fn graph_dfs(g: &StableGraph<usize, (), Directed, usize>, start: usize) -> (events: Vec<
    DfsRecord,
>)
    requires
        is_node(graph_nodes(*g), start as int),
    ensures
        search_covers(events@, graph_edges(*g), start as int),
{
    let mut events = Vec::new();
    depth_first_search(g, Some(NodeIndex::new(start)), |event| {
        events.push(match event {
            DfsEvent::Discover(n, t) => DfsRecord::Discover(n.index(), t.0),
            DfsEvent::TreeEdge(u, v) => DfsRecord::TreeEdge(u.index(), v.index()),
            DfsEvent::BackEdge(u, v) => DfsRecord::BackEdge(u.index(), v.index()),
            DfsEvent::CrossForwardEdge(u, v) => DfsRecord::CrossForwardEdge(u.index(), v.index()),
            DfsEvent::Finish(n, t) => DfsRecord::Finish(n.index(), t.0),
        })
    });
    events
}

} // verus!
