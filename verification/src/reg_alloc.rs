//! Analyses for register allocation: the control-flow graph, its reduced graph
//! and depth map, dominators, and liveness queries.
//!
//! The liveness queries follow "Fast Liveness Checking for SSA-Form Programs" by
//! Boissinot, Hack, Grund, Dupont de Dinechin and Rastello.

use crate::codegen::x86_64::{CodeGenError, CodeGenErrorReason};
use crate::graph::{
    discovered, discovers, dominance, edge_ensured, edge_set, graph_add_node, graph_clone,
    graph_dfs, graph_dominators, graph_edges, graph_find_edge, graph_neighbors, graph_new,
    graph_node_indices, graph_nodes, graph_remove_edge, graph_update_edge, has_edge, is_node,
    is_path, joined, lists_targets, no_vacancy, path_between, reachable, search_covers,
    strict_dominators_of, strictly_dominates, DfsRecord,
};
use crate::ir::{
    block_edges_in_range, defined_register, edges_in_range, find_out_of_range, first_out_of_range,
    lemma_first_out_of_range, registers_read, BasicBlockIndex, BasicBlockManager, BlockView,
    RegisterIndex,
};
use petgraph::algo::dominators::Dominators;
use petgraph::graph::NodeIndex;
use petgraph::stable_graph::StableGraph;
use petgraph::Directed;
use vstd::prelude::*;

verus! {

/// Whether no two edges join the same source to the same target.
pub open spec fn simple(edges: Map<int, (int, int)>) -> bool {
    forall|e1: int, e2: int|
        #![trigger edges[e1], edges[e2]]
        edges.dom().contains(e1) && edges.dom().contains(e2) && edges[e1] == edges[e2] ==> e1
            == e2
}

/// Whether every edge joins two nodes.
pub open spec fn endpoints_valid(nodes: Seq<Option<usize>>, edges: Map<int, (int, int)>) -> bool {
    forall|e: int|
        edges.dom().contains(e) ==> is_node(nodes, (#[trigger] edges[e]).0) && is_node(
            nodes,
            edges[e].1,
        )
}

/// Whether the graph has a node in every slot, joins nodes only, and has no two
/// edges with the same source and target.
pub open spec fn graph_wf(g: StableGraph<usize, (), Directed, usize>) -> bool {
    &&& no_vacancy(graph_nodes(g))
    &&& simple(graph_edges(g))
    &&& endpoints_valid(graph_nodes(g), graph_edges(g))
}

/// Whether the control-flow graph of the blocks has an edge from `a` to `b`: `b`
/// is an exit of `a`, or `a` a parent of `b`.
pub open spec fn cfg_edge(blocks: Seq<BlockView>, a: int, b: int) -> bool {
    &&& 0 <= a < blocks.len()
    &&& 0 <= b < blocks.len()
    &&& a == a as usize
    &&& b == b as usize
    &&& (blocks[a].exits.contains(b as usize) || blocks[b].parents.contains(a as usize))
}

/// The edges that block `c` contributes with the first `np` of its parents and
/// the first `ne` of its exits.
pub open spec fn edge_from_block(block: BlockView, c: int, a: int, b: int, np: int, ne: int) -> bool {
    ||| b == c && exists|k: int| 0 <= k < np && k < block.parents.len() && #[trigger] block.parents[k] == a
    ||| a == c && exists|k: int| 0 <= k < ne && k < block.exits.len() && #[trigger] block.exits[k] == b
}

/// The edges that the blocks before `i` contribute.
pub open spec fn edge_from_blocks(blocks: Seq<BlockView>, i: int, a: int, b: int) -> bool {
    exists|c: int|
        0 <= c < i && c < blocks.len() && #[trigger] edge_from_block(
            blocks[c],
            c,
            a,
            b,
            blocks[c].parents.len() as int,
            blocks[c].exits.len() as int,
        )
}

/// What asking for an edge from `a` to `b` does to the edge relation.
pub proof fn lemma_edge_ensured(
    nodes: Seq<Option<usize>>,
    before: Map<int, (int, int)>,
    after: Map<int, (int, int)>,
    a: int,
    b: int,
)
    requires
        edge_ensured(before, after, a, b),
        simple(before),
        endpoints_valid(nodes, before),
        is_node(nodes, a),
        is_node(nodes, b),
    ensures
        simple(after),
        endpoints_valid(nodes, after),
        forall|x: int, y: int| has_edge(after, x, y) <==> has_edge(before, x, y) || (x == a && y == b),
{
    if has_edge(before, a, b) {
    } else {
        let e = choose|e: int| !before.dom().contains(e) && after == #[trigger] before.insert(e, (a, b));
        assert forall|x: int, y: int| has_edge(after, x, y) <==> has_edge(before, x, y) || (x == a
            && y == b) by {
            if has_edge(after, x, y) {
                let e2 = choose|e2: int| after.dom().contains(e2) && #[trigger] after[e2] == (x, y);
                if e2 != e {
                    assert(before.dom().contains(e2) && before[e2] == (x, y));
                }
            }
            if has_edge(before, x, y) {
                let e2 = choose|e2: int| before.dom().contains(e2) && #[trigger] before[e2] == (x, y);
                assert(after.dom().contains(e2) && after[e2] == (x, y));
            }
            if x == a && y == b {
                assert(after.dom().contains(e) && after[e] == (x, y));
            }
        }
        assert forall|e1: int, e2: int|
            #![trigger after[e1], after[e2]]
            after.dom().contains(e1) && after.dom().contains(e2) && after[e1] == after[e2] implies e1
            == e2 by {
            if e1 == e && e2 != e {
                assert(before.dom().contains(e2) && before[e2] == (a, b));
            }
            if e2 == e && e1 != e {
                assert(before.dom().contains(e1) && before[e1] == (a, b));
            }
        }
    }
}

/// What removing the edge `e` does to the edge relation of a simple graph.
pub proof fn lemma_edge_removed(nodes: Seq<Option<usize>>, before: Map<int, (int, int)>, e: int)
    requires
        simple(before),
        endpoints_valid(nodes, before),
        before.dom().contains(e),
    ensures
        simple(before.remove(e)),
        endpoints_valid(nodes, before.remove(e)),
        forall|x: int, y: int|
            has_edge(before.remove(e), x, y) <==> has_edge(before, x, y) && (x, y) != before[e],
{
    let after = before.remove(e);
    assert forall|x: int, y: int| has_edge(after, x, y) <==> has_edge(before, x, y) && (x, y)
        != before[e] by {
        if has_edge(after, x, y) {
            let e2 = choose|e2: int| after.dom().contains(e2) && #[trigger] after[e2] == (x, y);
            assert(before.dom().contains(e2) && before[e2] == (x, y));
        }
        if has_edge(before, x, y) && (x, y) != before[e] {
            let e2 = choose|e2: int| before.dom().contains(e2) && #[trigger] before[e2] == (x, y);
            assert(after.dom().contains(e2) && after[e2] == (x, y));
        }
    }
    assert forall|e1: int, e2: int|
        #![trigger after[e1], after[e2]]
        after.dom().contains(e1) && after.dom().contains(e2) && after[e1] == after[e2] implies e1
        == e2 by {
        assert(before[e1] == before[e2]);
    }
}

/// Whether each node has its own index as weight: the index of its block.
pub open spec fn weighted_by_index(nodes: Seq<Option<usize>>) -> bool {
    forall|i: int| 0 <= i < nodes.len() ==> #[trigger] nodes[i] == Some(i as usize)
}

/// Builds the control-flow graph of the blocks: one node per block, in block
/// order and with the index of the block as weight, and one edge for each exit
/// and each declared parent.
pub fn build_cfg(bbm: &BasicBlockManager) -> (g: StableGraph<usize, (), Directed, usize>)
    requires
        edges_in_range(bbm@.blocks),
    ensures
        graph_wf(g),
        graph_nodes(g).len() == bbm@.blocks.len(),
        weighted_by_index(graph_nodes(g)),
        forall|a: int, b: int| has_edge(graph_edges(g), a, b) <==> cfg_edge(bbm@.blocks, a, b),
{
    let mut g = graph_new();
    let n = bbm.len();
    let ghost blocks = bbm@.blocks;
    let mut i: usize = 0;
    while i < n
        invariant
            i <= n,
            graph_nodes(g).len() == i,
            no_vacancy(graph_nodes(g)),
            weighted_by_index(graph_nodes(g)),
            graph_edges(g) == Map::<int, (int, int)>::empty(),
        decreases n - i,
    {
        let ni = graph_add_node(&mut g, i);
        i += 1;
    }
    let mut c: usize = 0;
    while c < n
        invariant
            c <= n,
            n == blocks.len(),
            blocks == bbm@.blocks,
            edges_in_range(blocks),
            graph_wf(g),
            graph_nodes(g).len() == n,
            weighted_by_index(graph_nodes(g)),
            forall|a: int, b: int| has_edge(graph_edges(g), a, b) <==> edge_from_blocks(blocks, c as int, a, b),
        decreases n - c,
    {
        let block = bbm.get(BasicBlockIndex(c)).unwrap();
        let ghost bv = blocks[c as int];
        assert(block_edges_in_range(bv, n as nat));
        let parents = block.parents();
        let exits = block.exits();
        let mut k: usize = 0;
        while k < parents.len()
            invariant
                k <= parents.len(),
                c < n,
                n == blocks.len(),
                bv == blocks[c as int],
                parents@ == bv.parents,
                block_edges_in_range(bv, n as nat),
                graph_wf(g),
                graph_nodes(g).len() == n,
                weighted_by_index(graph_nodes(g)),
                forall|a: int, b: int|
                    has_edge(graph_edges(g), a, b) <==> edge_from_blocks(blocks, c as int, a, b)
                        || edge_from_block(bv, c as int, a, b, k as int, 0),
            decreases parents.len() - k,
        {
            let p = parents[k];
            assert(bv.parents[k as int] < n);
            let ghost before = graph_edges(g);
            graph_update_edge(&mut g, p, c);
            proof {
                lemma_edge_ensured(graph_nodes(g), before, graph_edges(g), p as int, c as int);
                assert forall|a: int, b: int|
                    has_edge(graph_edges(g), a, b) <==> edge_from_blocks(blocks, c as int, a, b)
                        || edge_from_block(bv, c as int, a, b, k + 1, 0) by {
                    if edge_from_block(bv, c as int, a, b, k + 1, 0) {
                        let j = choose|j: int| 0 <= j < k + 1 && j < bv.parents.len() && #[trigger] bv.parents[j] == a;
                        if j < k {
                            assert(edge_from_block(bv, c as int, a, b, k as int, 0));
                        }
                    }
                    if edge_from_block(bv, c as int, a, b, k as int, 0) {
                        let j = choose|j: int| 0 <= j < k && j < bv.parents.len() && #[trigger] bv.parents[j] == a;
                        assert(0 <= j < k + 1 && bv.parents[j] == a);
                    }
                    if a == p && b == c {
                        assert(bv.parents[k as int] == a);
                    }
                }
            }
            k += 1;
        }
        let mut k: usize = 0;
        let ghost np = bv.parents.len() as int;
        while k < exits.len()
            invariant
                k <= exits.len(),
                c < n,
                n == blocks.len(),
                bv == blocks[c as int],
                exits@ == bv.exits,
                np == bv.parents.len(),
                block_edges_in_range(bv, n as nat),
                graph_wf(g),
                graph_nodes(g).len() == n,
                weighted_by_index(graph_nodes(g)),
                forall|a: int, b: int|
                    has_edge(graph_edges(g), a, b) <==> edge_from_blocks(blocks, c as int, a, b)
                        || edge_from_block(bv, c as int, a, b, np, k as int),
            decreases exits.len() - k,
        {
            let x = exits[k];
            assert(bv.exits[k as int] < n);
            let ghost before = graph_edges(g);
            graph_update_edge(&mut g, c, x);
            proof {
                lemma_edge_ensured(graph_nodes(g), before, graph_edges(g), c as int, x as int);
                assert forall|a: int, b: int|
                    has_edge(graph_edges(g), a, b) <==> edge_from_blocks(blocks, c as int, a, b)
                        || edge_from_block(bv, c as int, a, b, np, k + 1) by {
                    if edge_from_block(bv, c as int, a, b, np, k + 1) && !edge_from_block(bv, c as int, a, b, np, k as int) {
                        let j = choose|j: int| 0 <= j < k + 1 && j < bv.exits.len() && #[trigger] bv.exits[j] == b;
                        if j < k {
                            assert(edge_from_block(bv, c as int, a, b, np, k as int));
                        }
                    }
                    if edge_from_block(bv, c as int, a, b, np, k as int) {
                        if b == c && exists|j: int| 0 <= j < np && j < bv.parents.len() && #[trigger] bv.parents[j] == a {
                        } else {
                            let j = choose|j: int| 0 <= j < k && j < bv.exits.len() && #[trigger] bv.exits[j] == b;
                            assert(0 <= j < k + 1 && bv.exits[j] == b);
                        }
                    }
                    if a == c && b == x {
                        assert(bv.exits[k as int] == b);
                    }
                }
            }
            k += 1;
        }
        proof {
            assert forall|a: int, b: int|
                has_edge(graph_edges(g), a, b) <==> edge_from_blocks(blocks, c + 1, a, b) by {
                if edge_from_blocks(blocks, c + 1, a, b) {
                    let d = choose|d: int|
                        0 <= d < c + 1 && d < blocks.len() && #[trigger] edge_from_block(
                            blocks[d],
                            d,
                            a,
                            b,
                            blocks[d].parents.len() as int,
                            blocks[d].exits.len() as int,
                        );
                    if d < c {
                        assert(edge_from_blocks(blocks, c as int, a, b));
                    }
                }
                if edge_from_blocks(blocks, c as int, a, b) {
                    let d = choose|d: int|
                        0 <= d < c && d < blocks.len() && #[trigger] edge_from_block(
                            blocks[d],
                            d,
                            a,
                            b,
                            blocks[d].parents.len() as int,
                            blocks[d].exits.len() as int,
                        );
                    assert(0 <= d < c + 1);
                }
                if edge_from_block(bv, c as int, a, b, np, exits.len() as int) {
                    assert(edge_from_block(
                        blocks[c as int],
                        c as int,
                        a,
                        b,
                        blocks[c as int].parents.len() as int,
                        blocks[c as int].exits.len() as int,
                    ));
                }
            }
        }
        c += 1;
    }
    proof {
        assert forall|a: int, b: int| has_edge(graph_edges(g), a, b) <==> cfg_edge(blocks, a, b) by {
            if edge_from_blocks(blocks, n as int, a, b) {
                let d = choose|d: int|
                    0 <= d < n && d < blocks.len() && #[trigger] edge_from_block(
                        blocks[d],
                        d,
                        a,
                        b,
                        blocks[d].parents.len() as int,
                        blocks[d].exits.len() as int,
                    );
                assert(block_edges_in_range(blocks[d], n as nat));
                if b == d && exists|k: int| 0 <= k < blocks[d].parents.len() && k < blocks[d].parents.len() && #[trigger] blocks[d].parents[k] == a {
                    let k = choose|k: int| 0 <= k < blocks[d].parents.len() && k < blocks[d].parents.len() && #[trigger] blocks[d].parents[k] == a;
                    assert(blocks[d].parents[k] < n);
                    assert(blocks[b].parents.contains(a as usize));
                } else {
                    let k = choose|k: int| 0 <= k < blocks[d].exits.len() && k < blocks[d].exits.len() && #[trigger] blocks[d].exits[k] == b;
                    assert(blocks[d].exits[k] < n);
                    assert(blocks[a].exits.contains(b as usize));
                }
            }
            if cfg_edge(blocks, a, b) {
                if blocks[a].exits.contains(b as usize) {
                    let k = choose|k: int| 0 <= k < blocks[a].exits.len() && blocks[a].exits[k] == b as usize;
                    assert(edge_from_block(blocks[a], a, a, b, blocks[a].parents.len() as int, blocks[a].exits.len() as int));
                } else {
                    let k = choose|k: int| 0 <= k < blocks[b].parents.len() && blocks[b].parents[k] == a as usize;
                    assert(edge_from_block(blocks[b], b, a, b, blocks[b].parents.len() as int, blocks[b].exits.len() as int));
                }
            }
        }
    }
    g
}


/// Whether `depth` labels nodes with their breadth-first level from `root`: the
/// root has level 0, an edge leads at most one level down and never from a
/// labelled node to an unlabelled one, and every other labelled node has a
/// parent one level above it.
pub open spec fn is_level_map(depth: Seq<Option<usize>>, edges: Map<int, (int, int)>, root: int) -> bool {
    &&& 0 <= root < depth.len()
    &&& depth[root] == Some(0usize)
    &&& forall|u: int, v: int|
        #![trigger has_edge(edges, u, v)]
        has_edge(edges, u, v) && 0 <= u < depth.len() && depth[u] is Some ==> 0 <= v < depth.len()
            && depth[v] is Some && depth[v]->0 <= depth[u]->0 + 1
    &&& has_parent_level(depth, edges, root)
}

/// Whether every labelled node but the root has a parent one level above it.
pub open spec fn has_parent_level(depth: Seq<Option<usize>>, edges: Map<int, (int, int)>, root: int) -> bool {
    forall|v: int|
        0 <= v < depth.len() && v != root && (#[trigger] depth[v]) is Some ==> depth[v]->0 > 0
            && exists|u: int|
            #[trigger] has_edge(edges, u, v) && 0 <= u < depth.len() && depth[u] == Some(
                (depth[v]->0 - 1) as usize,
            )
}

/// Whether the edge from `u` to `v` is a back-edge: both are labelled and the
/// source lies deeper than the target.
pub open spec fn is_back_edge(depth: Seq<Option<usize>>, u: int, v: int) -> bool {
    &&& 0 <= u < depth.len()
    &&& 0 <= v < depth.len()
    &&& depth[u] is Some
    &&& depth[v] is Some
    &&& depth[v]->0 < depth[u]->0
}

/// Whether `reduced` holds exactly the edges of `edges` that are no back-edges.
pub open spec fn is_reduction(
    reduced: Map<int, (int, int)>,
    edges: Map<int, (int, int)>,
    depth: Seq<Option<usize>>,
) -> bool {
    forall|u: int, v: int|
        #![trigger has_edge(reduced, u, v)]
        #![trigger has_edge(edges, u, v)]
        has_edge(reduced, u, v) <==> has_edge(edges, u, v) && !is_back_edge(depth, u, v)
}

spec fn in_queue(queue: Seq<usize>, hi: int, u: int) -> bool {
    exists|j: int| 0 <= j < hi && j < queue.len() && #[trigger] queue[j] == u
}

spec fn queue_ok(depth: Seq<Option<usize>>, queue: Seq<usize>, head: int) -> bool {
    &&& 0 <= head <= queue.len()
    &&& forall|j: int|
        0 <= j < queue.len() ==> (#[trigger] queue[j]) < depth.len() && depth[queue[j] as int] is Some
            && depth[queue[j] as int]->0 <= j
    &&& forall|v: int|
        0 <= v < depth.len() && (#[trigger] depth[v]) is Some ==> in_queue(
            queue,
            queue.len() as int,
            v,
        )
    &&& forall|i: int, j: int|
        #![trigger queue[i], queue[j]]
        0 <= i <= j < queue.len() ==> depth[queue[i] as int]->0 <= depth[queue[j] as int]->0
    &&& head < queue.len() ==> forall|j: int|
        0 <= j < queue.len() ==> depth[(#[trigger] queue[j]) as int]->0 <= depth[queue[head] as int]->0
            + 1
    &&& forall|i: int, j: int|
        #![trigger queue[i], queue[j]]
        0 <= i < j < queue.len() ==> queue[i] != queue[j]
}

spec fn pruned(
    gedges: Map<int, (int, int)>,
    redges: Map<int, (int, int)>,
    depth: Seq<Option<usize>>,
    u: int,
) -> bool {
    forall|v: int| #[trigger]
        has_edge(gedges, u, v) ==> 0 <= v < depth.len() && depth[v] is Some && depth[v]->0
            <= depth[u]->0 + 1 && (has_edge(redges, u, v) <==> depth[v]->0 >= depth[u]->0)
}

spec fn untouched(gedges: Map<int, (int, int)>, redges: Map<int, (int, int)>, u: int) -> bool {
    forall|v: int| #[trigger] has_edge(gedges, u, v) ==> has_edge(redges, u, v)
}

spec fn subset_edges(gedges: Map<int, (int, int)>, redges: Map<int, (int, int)>) -> bool {
    forall|u: int, v: int| #[trigger] has_edge(redges, u, v) ==> has_edge(gedges, u, v)
}

spec fn all_pruned(
    gedges: Map<int, (int, int)>,
    redges: Map<int, (int, int)>,
    depth: Seq<Option<usize>>,
    queue: Seq<usize>,
    head: int,
) -> bool {
    forall|j: int| 0 <= j < head && j < queue.len() ==> pruned(gedges, redges, depth, #[trigger] queue[j] as int)
}

spec fn rest_untouched(
    gedges: Map<int, (int, int)>,
    redges: Map<int, (int, int)>,
    queue: Seq<usize>,
    head: int,
    skip: int,
) -> bool {
    forall|u: int| u != skip && !in_queue(queue, head, u) ==> #[trigger] untouched(gedges, redges, u)
}

/// The edges from `node` to the first `k` of its neighbours are pruned, the others
/// are as in the graph.
spec fn partly_pruned(
    gedges: Map<int, (int, int)>,
    redges: Map<int, (int, int)>,
    depth: Seq<Option<usize>>,
    nbrs: Seq<usize>,
    k: int,
    node: int,
) -> bool {
    forall|v: int| #[trigger]
        has_edge(gedges, node, v) ==> if in_queue(nbrs, k, v) {
            0 <= v < depth.len() && depth[v] is Some && depth[v]->0 <= depth[node]->0 + 1 && (
            has_edge(redges, node, v) <==> depth[v]->0 >= depth[node]->0)
        } else {
            has_edge(redges, node, v)
        }
}

/// Creates a copy of the graph with the back-edges removed, and the map of the
/// depth of each node that can be reached from `start`.
///
/// The graph is walked breadth-first from `start`. A node seen for the first time
/// is labelled one deeper than the node it is seen from; an edge to a node already
/// labelled strictly less deep than its source is a back-edge and is removed.
pub fn compute_reduced_graph_and_depth_map(
    graph: &StableGraph<usize, (), Directed, usize>,
    start: usize,
) -> (out: (StableGraph<usize, (), Directed, usize>, Vec<Option<usize>>))
    requires
        graph_wf(*graph),
        start < graph_nodes(*graph).len(),
    ensures
        graph_wf(out.0),
        graph_nodes(out.0) == graph_nodes(*graph),
        out.1@.len() == graph_nodes(*graph).len(),
        is_level_map(out.1@, graph_edges(*graph), start as int),
        is_reduction(graph_edges(out.0), graph_edges(*graph), out.1@),
{
    let mut reduced = graph_clone(graph);
    let ghost gedges = graph_edges(*graph);
    let ghost nodes = graph_nodes(*graph);
    let n = graph_node_indices(graph).len();
    let mut depth: Vec<Option<usize>> = Vec::new();
    let mut i: usize = 0;
    while i < n
        invariant
            i <= n,
            depth@.len() == i,
            forall|j: int| 0 <= j < i ==> (#[trigger] depth@[j]) is None,
        decreases n - i,
    {
        depth.push(None);
        i += 1;
    }
    depth.set(start, Some(0));
    let mut queue: Vec<usize> = Vec::new();
    queue.push(start);
    let mut head: usize = 0;
    proof {
        assert(queue@[0] == start);
        assert(in_queue(queue@, 1, start as int));
        assert forall|u: int| !in_queue(queue@, 0, u) implies #[trigger] untouched(
            gedges,
            graph_edges(reduced),
            u,
        ) by {}
    }
    while head < queue.len()
        invariant
            n == nodes.len(),
            nodes == graph_nodes(*graph),
            gedges == graph_edges(*graph),
            graph_wf(*graph),
            graph_wf(reduced),
            graph_nodes(reduced) == nodes,
            depth@.len() == n,
            start < n,
            depth@[start as int] == Some(0usize),
            queue_ok(depth@, queue@, head as int),
            queue@.len() <= n,
            subset_edges(gedges, graph_edges(reduced)),
            all_pruned(gedges, graph_edges(reduced), depth@, queue@, head as int),
            rest_untouched(gedges, graph_edges(reduced), queue@, head as int, -1),
            has_parent_level(depth@, gedges, start as int),
        decreases n - head,
    {
        let node = queue[head];
        let g = depth[node].unwrap();
        let nbrs = graph_neighbors(graph, node);
        proof {
            assert(!in_queue(queue@, head as int, node as int));
            assert(untouched(gedges, graph_edges(reduced), node as int));
            assert(partly_pruned(gedges, graph_edges(reduced), depth@, nbrs@, 0, node as int));
        }
        let mut k: usize = 0;
        while k < nbrs.len()
            invariant
                k <= nbrs.len(),
                n == nodes.len(),
                nodes == graph_nodes(*graph),
                gedges == graph_edges(*graph),
                graph_wf(*graph),
                graph_wf(reduced),
                graph_nodes(reduced) == nodes,
                depth@.len() == n,
                start < n,
                depth@[start as int] == Some(0usize),
                head < queue.len(),
                node == queue@[head as int],
                node < n,
                depth@[node as int] == Some(g),
                lists_targets(nbrs@, gedges, node as int),
                queue_ok(depth@, queue@, head as int),
                queue@.len() <= n,
                subset_edges(gedges, graph_edges(reduced)),
                all_pruned(gedges, graph_edges(reduced), depth@, queue@, head as int),
                rest_untouched(gedges, graph_edges(reduced), queue@, head as int, node as int),
                partly_pruned(gedges, graph_edges(reduced), depth@, nbrs@, k as int, node as int),
                has_parent_level(depth@, gedges, start as int),
            decreases nbrs.len() - k,
        {
            let v = nbrs[k];
            proof {
                let vi = v as int;
                assert(nbrs@[k as int] == vi as usize);
                assert(nbrs@.contains(vi as usize));
                assert(has_edge(gedges, node as int, vi));
                let e = choose|e: int| gedges.dom().contains(e) && #[trigger] gedges[e] == (node as int, v as int);
                assert(is_node(nodes, gedges[e].1));
            }
            let ghost depth0 = depth@;
            let ghost queue0 = queue@;
            let ghost redges0 = graph_edges(reduced);
            match depth[v] {
                Some(dv) => {
                    if dv < g {
                        match graph_find_edge(&reduced, node, v) {
                            Some(e) => {
                                graph_remove_edge(&mut reduced, e);
                                proof {
                                    lemma_edge_removed(nodes, redges0, e as int);
                                }
                            },
                            None => {},
                        }
                    }
                    proof {
                        let redges = graph_edges(reduced);
                        assert(depth0[queue0[head as int] as int]->0 == g);
                        assert(in_queue(queue0, queue0.len() as int, v as int));
                        assert(dv <= g + 1);
                        lemma_step_seen(gedges, redges0, redges, depth0, queue0, head as int, nbrs@, k as int, node as int, v as int);
                    }
                },
                None => {
                    assert(g <= head);
                    depth.set(v, Some(g + 1));
                    queue.push(v);
                    proof {
                        lemma_step_fresh(gedges, redges0, depth0, depth@, queue0, queue@, head as int, nbrs@, k as int, node as int, v as int, start as int);
                        lemma_distinct_bounded(queue@, n as nat);
                    }
                },
            }
            k += 1;
        }
        proof {
            lemma_node_done(gedges, graph_edges(reduced), depth@, queue@, head as int, nbrs@, node as int);
        }
        head += 1;
    }
    proof {
        lemma_bfs_done(nodes, gedges, graph_edges(reduced), depth@, queue@, start as int);
    }
    (reduced, depth)
}

/// A list of distinct numbers below `n` has at most `n` items.
proof fn lemma_distinct_bounded(s: Seq<usize>, n: nat)
    requires
        forall|j: int| 0 <= j < s.len() ==> (#[trigger] s[j]) < n,
        forall|i: int, j: int|
            #![trigger s[i], s[j]]
            0 <= i < j < s.len() ==> s[i] != s[j],
    ensures
        s.len() <= n,
{
    let ints = s.map_values(|x: usize| x as int);
    assert(ints.no_duplicates()) by {
        assert forall|i: int, j: int| 0 <= i < ints.len() && 0 <= j < ints.len() && i != j implies ints[i]
            != ints[j] by {
            if i < j {
                assert(s[i] != s[j]);
            } else {
                assert(s[j] != s[i]);
            }
        }
    }
    ints.unique_seq_to_set();
    let range = vstd::set_lib::set_int_range(0, n as int);
    vstd::set_lib::lemma_int_range(0, n as int);
    assert(ints.to_set().subset_of(range)) by {
        assert forall|x: int| ints.to_set().contains(x) implies range.contains(x) by {
            let j = choose|j: int| 0 <= j < ints.len() && ints[j] == x;
            assert(s[j] < n);
        }
    }
    vstd::set_lib::lemma_len_subset(ints.to_set(), range);
}

proof fn lemma_step_seen(
    gedges: Map<int, (int, int)>,
    redges0: Map<int, (int, int)>,
    redges: Map<int, (int, int)>,
    depth: Seq<Option<usize>>,
    queue: Seq<usize>,
    head: int,
    nbrs: Seq<usize>,
    k: int,
    node: int,
    v: int,
)
    requires
        0 <= k < nbrs.len(),
        nbrs[k] == v,
        0 <= head < queue.len(),
        queue[head] == node,
        0 <= node < depth.len(),
        0 <= v < depth.len(),
        depth[node] is Some,
        depth[v] is Some,
        depth[v]->0 <= depth[node]->0 + 1,
        has_edge(gedges, node, v),
        queue_ok(depth, queue, head),
        subset_edges(gedges, redges0),
        all_pruned(gedges, redges0, depth, queue, head),
        rest_untouched(gedges, redges0, queue, head, node),
        partly_pruned(gedges, redges0, depth, nbrs, k, node),
        depth[v]->0 >= depth[node]->0 ==> redges == redges0,
        depth[v]->0 < depth[node]->0 ==> forall|x: int, y: int|
            has_edge(redges, x, y) <==> has_edge(redges0, x, y) && !(x == node && y == v),
    ensures
        subset_edges(gedges, redges),
        all_pruned(gedges, redges, depth, queue, head),
        rest_untouched(gedges, redges, queue, head, node),
        partly_pruned(gedges, redges, depth, nbrs, k + 1, node),
{
    assert forall|j: int| 0 <= j < head && j < queue.len() implies pruned(
        gedges,
        redges,
        depth,
        #[trigger] queue[j] as int,
    ) by {
        assert(pruned(gedges, redges0, depth, queue[j] as int));
        assert(queue[j] != queue[head]);
    }
    assert forall|u: int| u != node && !in_queue(queue, head, u) implies #[trigger] untouched(
        gedges,
        redges,
        u,
    ) by {
        assert(untouched(gedges, redges0, u));
    }
    assert forall|w: int| #[trigger] has_edge(gedges, node, w) implies if in_queue(nbrs, k + 1, w) {
        0 <= w < depth.len() && depth[w] is Some && depth[w]->0 <= depth[node]->0 + 1 && (has_edge(
            redges,
            node,
            w,
        ) <==> depth[w]->0 >= depth[node]->0)
    } else {
        has_edge(redges, node, w)
    } by {
        if w == v {
            assert(in_queue(nbrs, k + 1, w));
            if in_queue(nbrs, k, w) {
            } else {
            }
        } else {
            if in_queue(nbrs, k + 1, w) {
                let j = choose|j: int| 0 <= j < k + 1 && j < nbrs.len() && #[trigger] nbrs[j] == w;
                assert(j < k);
                assert(in_queue(nbrs, k, w));
            } else {
                if in_queue(nbrs, k, w) {
                    let j = choose|j: int| 0 <= j < k && j < nbrs.len() && #[trigger] nbrs[j] == w;
                    assert(0 <= j < k + 1 && nbrs[j] == w);
                }
            }
        }
    }
}

#[verifier::rlimit(40)]
proof fn lemma_step_fresh(
    gedges: Map<int, (int, int)>,
    redges: Map<int, (int, int)>,
    depth0: Seq<Option<usize>>,
    depth: Seq<Option<usize>>,
    queue0: Seq<usize>,
    queue: Seq<usize>,
    head: int,
    nbrs: Seq<usize>,
    k: int,
    node: int,
    v: int,
    root: int,
)
    requires
        0 <= k < nbrs.len(),
        nbrs[k] == v,
        0 <= head < queue0.len(),
        queue0[head] == node,
        0 <= node < depth0.len(),
        0 <= v < depth0.len(),
        v == v as usize,
        depth0[node] is Some,
        depth0[v] is None,
        depth0[node]->0 < usize::MAX,
        depth == depth0.update(v, Some((depth0[node]->0 + 1) as usize)),
        queue == queue0.push(v as usize),
        has_edge(gedges, node, v),
        0 <= root < depth0.len(),
        depth0[root] is Some,
        queue_ok(depth0, queue0, head),
        subset_edges(gedges, redges),
        all_pruned(gedges, redges, depth0, queue0, head),
        rest_untouched(gedges, redges, queue0, head, node),
        partly_pruned(gedges, redges, depth0, nbrs, k, node),
        has_parent_level(depth0, gedges, root),
    ensures
        queue_ok(depth, queue, head),
        all_pruned(gedges, redges, depth, queue, head),
        rest_untouched(gedges, redges, queue, head, node),
        partly_pruned(gedges, redges, depth, nbrs, k + 1, node),
        has_parent_level(depth, gedges, root),
{
    let g = depth0[node]->0;
    assert(g <= head);
    // queue_ok
    assert forall|j: int| 0 <= j < queue.len() implies (#[trigger] queue[j]) < depth.len() && depth[queue[j] as int] is Some
        && depth[queue[j] as int]->0 <= j by {
        if j < queue0.len() {
            assert(queue0[j] == queue[j]);
        }
    }
    assert forall|w: int| 0 <= w < depth.len() && (#[trigger] depth[w]) is Some implies in_queue(
        queue,
        queue.len() as int,
        w,
    ) by {
        if w == v {
            assert(queue[queue0.len() as int] == v);
        } else {
            assert(depth0[w] is Some);
            let j = choose|j: int| 0 <= j < queue0.len() && j < queue0.len() && #[trigger] queue0[j] == w;
            assert(queue[j] == w);
        }
    }
    assert forall|i: int, j: int|
        #![trigger queue[i], queue[j]]
        0 <= i <= j < queue.len() implies depth[queue[i] as int]->0 <= depth[queue[j] as int]->0 by {
        if j < queue0.len() {
            assert(queue0[i] == queue[i] && queue0[j] == queue[j]);
        } else if i < queue0.len() {
            assert(queue0[i] == queue[i]);
        }
    }
    assert forall|j: int| 0 <= j < queue.len() implies depth[(#[trigger] queue[j]) as int]->0 <= depth[queue[head] as int]->0
        + 1 by {
        if j < queue0.len() {
            assert(queue0[j] == queue[j]);
        }
    }
    assert forall|i: int, j: int|
        #![trigger queue[i], queue[j]]
        0 <= i < j < queue.len() implies queue[i] != queue[j] by {
        if j < queue0.len() {
            assert(queue0[i] == queue[i] && queue0[j] == queue[j]);
        } else {
            assert(queue0[i] == queue[i]);
        }
    }
    // all_pruned
    assert forall|j: int| 0 <= j < head && j < queue.len() implies pruned(
        gedges,
        redges,
        depth,
        #[trigger] queue[j] as int,
    ) by {
        assert(queue0[j] == queue[j]);
        assert(pruned(gedges, redges, depth0, queue0[j] as int));
    }
    // rest_untouched
    assert forall|u: int| u != node && !in_queue(queue, head, u) implies #[trigger] untouched(
        gedges,
        redges,
        u,
    ) by {
        if in_queue(queue0, head, u) {
            let j = choose|j: int| 0 <= j < head && j < queue0.len() && #[trigger] queue0[j] == u;
            assert(queue[j] == u);
        }
        assert(untouched(gedges, redges, u));
    }
    // partly_pruned
    assert forall|w: int| #[trigger] has_edge(gedges, node, w) implies if in_queue(nbrs, k + 1, w) {
        0 <= w < depth.len() && depth[w] is Some && depth[w]->0 <= depth[node]->0 + 1 && (has_edge(
            redges,
            node,
            w,
        ) <==> depth[w]->0 >= depth[node]->0)
    } else {
        has_edge(redges, node, w)
    } by {
        if w == v {
            assert(in_queue(nbrs, k + 1, w));
            if in_queue(nbrs, k, w) {
            }
        } else {
            if in_queue(nbrs, k + 1, w) {
                let j = choose|j: int| 0 <= j < k + 1 && j < nbrs.len() && #[trigger] nbrs[j] == w;
                assert(j < k);
                assert(in_queue(nbrs, k, w));
            } else {
                if in_queue(nbrs, k, w) {
                    let j = choose|j: int| 0 <= j < k && j < nbrs.len() && #[trigger] nbrs[j] == w;
                    assert(0 <= j < k + 1 && nbrs[j] == w);
                }
            }
        }
    }
    // has_parent_level
    assert forall|w: int|
        0 <= w < depth.len() && w != root && (#[trigger] depth[w]) is Some implies depth[w]->0 > 0
        && exists|u: int|
        #[trigger] has_edge(gedges, u, w) && 0 <= u < depth.len() && depth[u] == Some(
            (depth[w]->0 - 1) as usize,
        ) by {
        if w == v {
            assert(has_edge(gedges, node, w) && depth[node] == Some((depth[w]->0 - 1) as usize));
        } else {
            assert(depth0[w] is Some);
            let u = choose|u: int|
                #[trigger] has_edge(gedges, u, w) && 0 <= u < depth0.len() && depth0[u] == Some(
                    (depth0[w]->0 - 1) as usize,
                );
            assert(has_edge(gedges, u, w) && depth[u] == Some((depth[w]->0 - 1) as usize));
        }
    }
}

proof fn lemma_node_done(
    gedges: Map<int, (int, int)>,
    redges: Map<int, (int, int)>,
    depth: Seq<Option<usize>>,
    queue: Seq<usize>,
    head: int,
    nbrs: Seq<usize>,
    node: int,
)
    requires
        0 <= head < queue.len(),
        queue[head] == node,
        lists_targets(nbrs, gedges, node),
        queue_ok(depth, queue, head),
        all_pruned(gedges, redges, depth, queue, head),
        rest_untouched(gedges, redges, queue, head, node),
        partly_pruned(gedges, redges, depth, nbrs, nbrs.len() as int, node),
    ensures
        queue_ok(depth, queue, head + 1),
        all_pruned(gedges, redges, depth, queue, head + 1),
        rest_untouched(gedges, redges, queue, head + 1, -1),
{
    assert forall|j: int| 0 <= j < head + 1 && j < queue.len() implies pruned(
        gedges,
        redges,
        depth,
        #[trigger] queue[j] as int,
    ) by {
        if j == head {
            assert forall|v: int| #[trigger] has_edge(gedges, node, v) implies 0 <= v < depth.len()
                && depth[v] is Some && depth[v]->0 <= depth[node]->0 + 1 && (has_edge(
                redges,
                node,
                v,
            ) <==> depth[v]->0 >= depth[node]->0) by {
                assert(nbrs.contains(v as usize));
                let j2 = choose|j2: int| 0 <= j2 < nbrs.len() && nbrs[j2] == v as usize;
                assert(in_queue(nbrs, nbrs.len() as int, v));
            }
        }
    }
    assert forall|u: int| u != -1 && !in_queue(queue, head + 1, u) implies #[trigger] untouched(
        gedges,
        redges,
        u,
    ) by {
        if u == node {
            assert(in_queue(queue, head + 1, u));
        }
        if in_queue(queue, head, u) {
            let j = choose|j: int| 0 <= j < head && j < queue.len() && #[trigger] queue[j] == u;
            assert(0 <= j < head + 1);
            assert(in_queue(queue, head + 1, u));
        }
    }
    if head + 1 < queue.len() {
        assert forall|j: int| 0 <= j < queue.len() implies depth[(#[trigger] queue[j]) as int]->0 <= depth[queue[head + 1] as int]->0
            + 1 by {
            assert(depth[queue[head] as int]->0 <= depth[queue[head + 1] as int]->0);
        }
    }
}

proof fn lemma_bfs_done(
    nodes: Seq<Option<usize>>,
    gedges: Map<int, (int, int)>,
    redges: Map<int, (int, int)>,
    depth: Seq<Option<usize>>,
    queue: Seq<usize>,
    root: int,
)
    requires
        nodes.len() == depth.len(),
        endpoints_valid(nodes, gedges),
        0 <= root < depth.len(),
        depth[root] == Some(0usize),
        queue_ok(depth, queue, queue.len() as int),
        subset_edges(gedges, redges),
        all_pruned(gedges, redges, depth, queue, queue.len() as int),
        rest_untouched(gedges, redges, queue, queue.len() as int, -1),
        has_parent_level(depth, gedges, root),
    ensures
        is_level_map(depth, gedges, root),
        is_reduction(redges, gedges, depth),
{
    assert forall|u: int, v: int|
        #![trigger has_edge(gedges, u, v)]
        has_edge(gedges, u, v) && 0 <= u < depth.len() && depth[u] is Some implies 0 <= v < depth.len()
        && depth[v] is Some && depth[v]->0 <= depth[u]->0 + 1 by {
        assert(in_queue(queue, queue.len() as int, u));
        let j = choose|j: int| 0 <= j < queue.len() && j < queue.len() && #[trigger] queue[j] == u;
        assert(pruned(gedges, redges, depth, queue[j] as int));
    }
    assert forall|u: int, v: int|
        #![trigger has_edge(redges, u, v)]
        #![trigger has_edge(gedges, u, v)]
        has_edge(redges, u, v) <==> has_edge(gedges, u, v) && !is_back_edge(depth, u, v) by {
        if has_edge(gedges, u, v) {
            let e = choose|e: int| gedges.dom().contains(e) && #[trigger] gedges[e] == (u, v);
            assert(is_node(nodes, gedges[e].0) && is_node(nodes, gedges[e].1));
            if in_queue(queue, queue.len() as int, u) {
                let j = choose|j: int| 0 <= j < queue.len() && j < queue.len() && #[trigger] queue[j] == u;
                assert(pruned(gedges, redges, depth, queue[j] as int));
            } else {
                assert(untouched(gedges, redges, u));
                assert(depth[u] is None);
            }
        }
    }
}


/// A node reached along edges that join nodes only is a node.
pub proof fn lemma_reachable_in_range(
    nodes: Seq<Option<usize>>,
    edges: Map<int, (int, int)>,
    a: int,
    b: int,
)
    requires
        endpoints_valid(nodes, edges),
        reachable(edge_set(edges), a, b),
        0 <= a < nodes.len(),
    ensures
        0 <= b < nodes.len(),
{
    reveal(reachable);
    let p = choose|p: Seq<int>| #[trigger] path_between(edge_set(edges), p, a, b);
    if p.len() > 1 {
        let i = p.len() - 2;
        assert(joined(edge_set(edges), p, i));
        assert(has_edge(edges, p[i], b));
        let e = choose|e: int| edges.dom().contains(e) && #[trigger] edges[e] == (p[i], b);
        assert(is_node(nodes, edges[e].1));
    }
}

/// The control-flow graph of a program with what the breadth-first walk from the
/// entry found.
#[derive(Debug)]
pub struct GraphData {
    /// How deep from the root each node is; `None` for a node that cannot be
    /// reached. Used to tell real back-edges.
    pub depth_map: Vec<Option<usize>>,
    /// One node per block, one edge per successor relation.
    pub graph: StableGraph<usize, (), Directed, usize>,
    /// The graph without its back-edges.
    pub reduced_graph: StableGraph<usize, (), Directed, usize>,
    /// The node of the entry block.
    pub root: usize,
}

impl GraphData {
    /// The number of nodes.
    pub open spec fn node_count(&self) -> nat {
        graph_nodes(self.graph).len()
    }

    /// The edges of the control-flow graph.
    pub open spec fn edges(&self) -> Map<int, (int, int)> {
        graph_edges(self.graph)
    }

    /// The edges of the reduced graph.
    pub open spec fn reduced_edges(&self) -> Map<int, (int, int)> {
        graph_edges(self.reduced_graph)
    }

    /// The two graphs have the same nodes, the depth map labels the breadth-first
    /// levels from the root, and the reduced graph lacks exactly the back-edges.
    pub open spec fn wf(&self) -> bool {
        &&& graph_wf(self.graph)
        &&& graph_wf(self.reduced_graph)
        &&& graph_nodes(self.reduced_graph) == graph_nodes(self.graph)
        &&& self.depth_map@.len() == self.node_count()
        &&& self.root < self.node_count()
        &&& is_level_map(self.depth_map@, self.edges(), self.root as int)
        &&& is_reduction(self.reduced_edges(), self.edges(), self.depth_map@)
    }

    /// Whether `x` can be reached from `node` without taking a back-edge.
    pub open spec fn reduced_reachable(&self, node: int, x: int) -> bool {
        reachable(edge_set(self.reduced_edges()), node, x)
    }

    /// Whether `t` is the target of a back-edge whose source can be reached from
    /// `node` without taking a back-edge.
    pub open spec fn back_edge_target(&self, node: int, t: int) -> bool {
        exists|s: int|
            self.reduced_reachable(node, s) && #[trigger] has_edge(self.edges(), s, t)
                && is_back_edge(self.depth_map@, s, t)
    }

    /// Whether the edge from `s` to `d` leads from a deeper node to a less deep one.
    pub fn leads_back(&self, s: usize, d: usize) -> (b: bool)
        requires
            s < self.depth_map@.len(),
            d < self.depth_map@.len(),
        ensures
            b == is_back_edge(self.depth_map@, s as int, d as int),
    {
        match (self.depth_map[s], self.depth_map[d]) {
            (Some(ds), Some(dd)) => dd < ds,
            _ => false,
        }
    }

    /// The nodes that can be reached from `node` in the reduced graph, as one flag
    /// per node.
    pub fn reduced_reach_from(&self, node: usize) -> (row: Vec<bool>)
        requires
            self.wf(),
            node < self.node_count(),
        ensures
            row@.len() == self.node_count(),
            forall|x: int| 0 <= x < row@.len() ==> (#[trigger] row@[x] <==> self.reduced_reachable(node as int, x)),
    {
        let n = self.depth_map.len();
        let events = graph_dfs(&self.reduced_graph, node);
        let mut row: Vec<bool> = Vec::new();
        let mut i: usize = 0;
        while i < n
            invariant
                i <= n,
                row@.len() == i,
                forall|j: int| 0 <= j < i ==> !(#[trigger] row@[j]),
            decreases n - i,
        {
            row.push(false);
            i += 1;
        }
        let mut k: usize = 0;
        while k < events.len()
            invariant
                k <= events.len(),
                row@.len() == n,
                n == self.node_count(),
                node < n,
                self.wf(),
                search_covers(events@, self.reduced_edges(), node as int),
                forall|x: int|
                    0 <= x < n ==> (#[trigger] row@[x] <==> exists|j: int|
                        0 <= j < k && discovers(#[trigger] events@[j], x)),
            decreases events.len() - k,
        {
            let ghost row0 = row@;
            match events[k] {
                DfsRecord::Discover(m, _) => {
                    proof {
                        assert(discovers(events@[k as int], m as int));
                        assert(discovered(events@, m as int));
                        lemma_reachable_in_range(
                            graph_nodes(self.reduced_graph),
                            self.reduced_edges(),
                            node as int,
                            m as int,
                        );
                    }
                    row.set(m, true);
                },
                _ => {},
            }
            proof {
                assert forall|x: int| 0 <= x < n implies (#[trigger] row@[x] <==> exists|j: int|
                    0 <= j < k + 1 && discovers(#[trigger] events@[j], x)) by {
                    if row0[x] {
                        let j = choose|j: int| 0 <= j < k && discovers(#[trigger] events@[j], x);
                        assert(0 <= j < k + 1 && discovers(events@[j], x));
                    }
                    if exists|j: int| 0 <= j < k + 1 && discovers(#[trigger] events@[j], x) {
                        let j = choose|j: int| 0 <= j < k + 1 && discovers(#[trigger] events@[j], x);
                        if j < k {
                            assert(row0[x]);
                        }
                    }
                }
            }
            k += 1;
        }
        proof {
            assert forall|x: int| 0 <= x < row@.len() implies (#[trigger] row@[x]
                <==> self.reduced_reachable(node as int, x)) by {
                if row@[x] {
                    let j = choose|j: int| 0 <= j < events@.len() && discovers(#[trigger] events@[j], x);
                    assert(discovered(events@, x));
                }
                if self.reduced_reachable(node as int, x) {
                    assert(discovered(events@, x));
                }
            }
        }
        row
    }

    /// The targets of the back-edges whose source is flagged in `reach`.
    pub fn back_edge_targets_from(&self, node: usize, reach: &Vec<bool>) -> (targets: Vec<usize>)
        requires
            self.wf(),
            node < self.node_count(),
            reach@.len() == self.node_count(),
            forall|x: int|
                0 <= x < reach@.len() ==> (#[trigger] reach@[x] <==> self.reduced_reachable(
                    node as int,
                    x,
                )),
        ensures
            forall|t: int|
                self.back_edge_target(node as int, t) <==> t == t as usize && #[trigger] targets@.contains(
                    t as usize,
                ),
            forall|j: int| 0 <= j < targets@.len() ==> (#[trigger] targets@[j]) < self.node_count(),
    {
        let n = self.depth_map.len();
        let mut targets: Vec<usize> = Vec::new();
        let ghost gedges = self.edges();
        let ghost depth = self.depth_map@;
        let mut s: usize = 0;
        while s < n
            invariant
                s <= n,
                n == self.node_count(),
                n == reach@.len(),
                self.wf(),
                gedges == self.edges(),
                depth == self.depth_map@,
                forall|j: int| 0 <= j < targets@.len() ==> (#[trigger] targets@[j]) < n,
                forall|t: usize| #[trigger]
                    targets@.contains(t) <==> exists|q: int|
                        0 <= q < s && reach@[q] && #[trigger] has_edge(gedges, q, t as int)
                            && is_back_edge(depth, q, t as int),
            decreases n - s,
        {
            if reach[s] {
                let nbrs = graph_neighbors(&self.graph, s);
                let mut k: usize = 0;
                while k < nbrs.len()
                    invariant
                        k <= nbrs.len(),
                        s < n,
                        n == self.node_count(),
                        n == reach@.len(),
                        reach@[s as int],
                        self.wf(),
                        gedges == self.edges(),
                        depth == self.depth_map@,
                        lists_targets(nbrs@, gedges, s as int),
                        forall|j: int| 0 <= j < targets@.len() ==> (#[trigger] targets@[j]) < n,
                        forall|t: usize| #[trigger]
                            targets@.contains(t) <==> (exists|q: int|
                                0 <= q < s && reach@[q] && #[trigger] has_edge(gedges, q, t as int)
                                    && is_back_edge(depth, q, t as int)) || (exists|j: int|
                                0 <= j < k && #[trigger] nbrs@[j] == t && is_back_edge(
                                    depth,
                                    s as int,
                                    t as int,
                                )),
                    decreases nbrs.len() - k,
                {
                    let d = nbrs[k];
                    proof {
                        let di = d as int;
                        assert(nbrs@[k as int] == di as usize);
                        assert(nbrs@.contains(di as usize));
                        assert(has_edge(gedges, s as int, di));
                        let e = choose|e: int| gedges.dom().contains(e) && #[trigger] gedges[e] == (s as int, di);
                        assert(is_node(graph_nodes(self.graph), gedges[e].1));
                    }
                    let ghost targets0 = targets@;
                    if self.leads_back(s, d) {
                        if !vec_contains(&targets, d) {
                            targets.push(d);
                        }
                    }
                    proof {
                        assert forall|t: usize| #[trigger]
                            targets@.contains(t) <==> (exists|q: int|
                                0 <= q < s && reach@[q] && #[trigger] has_edge(gedges, q, t as int)
                                    && is_back_edge(depth, q, t as int)) || (exists|j: int|
                                0 <= j < k + 1 && #[trigger] nbrs@[j] == t && is_back_edge(
                                    depth,
                                    s as int,
                                    t as int,
                                )) by {
                            if targets@.contains(t) && !targets0.contains(t) {
                                let j = choose|j: int| 0 <= j < targets@.len() && targets@[j] == t;
                                if j < targets0.len() {
                                    assert(targets0[j] == t);
                                }
                                assert(t == d);
                                assert(nbrs@[k as int] == t);
                            }
                            if targets0.contains(t) {
                                let j = choose|j: int| 0 <= j < targets0.len() && targets0[j] == t;
                                assert(targets@[j] == t);
                                if exists|j: int|
                                    0 <= j < k && #[trigger] nbrs@[j] == t && is_back_edge(depth, s as int, t as int) {
                                    let j2 = choose|j2: int|
                                        0 <= j2 < k && #[trigger] nbrs@[j2] == t && is_back_edge(
                                            depth,
                                            s as int,
                                            t as int,
                                        );
                                    assert(0 <= j2 < k + 1 && nbrs@[j2] == t);
                                }
                            }
                            if exists|j: int|
                                0 <= j < k + 1 && #[trigger] nbrs@[j] == t && is_back_edge(depth, s as int, t as int) {
                                let j2 = choose|j2: int|
                                    0 <= j2 < k + 1 && #[trigger] nbrs@[j2] == t && is_back_edge(
                                        depth,
                                        s as int,
                                        t as int,
                                    );
                                if j2 < k {
                                    assert(targets0.contains(t));
                                } else {
                                    assert(t == d);
                                    if targets0.contains(d) {
                                    } else {
                                        assert(targets@[targets0.len() as int] == d);
                                    }
                                }
                            }
                        }
                    }
                    k += 1;
                }
                proof {
                    assert forall|t: usize| #[trigger]
                        targets@.contains(t) <==> exists|q: int|
                            0 <= q < s + 1 && reach@[q] && #[trigger] has_edge(gedges, q, t as int)
                                && is_back_edge(depth, q, t as int) by {
                        if exists|q: int|
                            0 <= q < s + 1 && reach@[q] && #[trigger] has_edge(gedges, q, t as int)
                                && is_back_edge(depth, q, t as int) {
                            let q = choose|q: int|
                                0 <= q < s + 1 && reach@[q] && #[trigger] has_edge(gedges, q, t as int)
                                    && is_back_edge(depth, q, t as int);
                            if q == s {
                                let ti = t as int;
                                assert(nbrs@.contains(ti as usize));
                                let j = choose|j: int| 0 <= j < nbrs@.len() && nbrs@[j] == t;
                                assert(0 <= j < nbrs.len() && nbrs@[j] == t);
                            }
                        }
                        if targets@.contains(t) {
                            if exists|j: int|
                                0 <= j < nbrs.len() && #[trigger] nbrs@[j] == t && is_back_edge(depth, s as int, t as int) {
                                let ti = t as int;
                                let j = choose|j: int| 0 <= j < nbrs.len() && #[trigger] nbrs@[j] == t && is_back_edge(depth, s as int, t as int);
                                assert(nbrs@[j] == ti as usize);
                                assert(nbrs@.contains(ti as usize));
                                assert(has_edge(gedges, s as int, ti));
                            } else {
                                let q = choose|q: int|
                                    0 <= q < s && reach@[q] && #[trigger] has_edge(gedges, q, t as int)
                                        && is_back_edge(depth, q, t as int);
                                assert(0 <= q < s + 1);
                            }
                        }
                    }
                }
            } else {
                proof {
                    assert forall|t: usize| #[trigger]
                        targets@.contains(t) <==> exists|q: int|
                            0 <= q < s + 1 && reach@[q] && #[trigger] has_edge(gedges, q, t as int)
                                && is_back_edge(depth, q, t as int) by {
                        if targets@.contains(t) {
                            let q = choose|q: int|
                                0 <= q < s && reach@[q] && #[trigger] has_edge(gedges, q, t as int)
                                    && is_back_edge(depth, q, t as int);
                            assert(0 <= q < s + 1);
                        }
                    }
                }
            }
            s += 1;
        }
        proof {
            assert forall|t: int|
                self.back_edge_target(node as int, t) <==> t == t as usize && #[trigger] targets@.contains(
                    t as usize,
                ) by {
                if self.back_edge_target(node as int, t) {
                    let q = choose|q: int|
                        self.reduced_reachable(node as int, q) && #[trigger] has_edge(self.edges(), q, t)
                            && is_back_edge(self.depth_map@, q, t);
                    assert(reach@[q]);
                    assert(has_edge(gedges, q, (t as usize) as int));
                }
                if t == t as usize && targets@.contains(t as usize) {
                    let q = choose|q: int|
                        0 <= q < n && reach@[q] && #[trigger] has_edge(gedges, q, (t as usize) as int)
                            && is_back_edge(depth, q, (t as usize) as int);
                    assert(self.reduced_reachable(node as int, q));
                }
            }
        }
        targets
    }

    /// Returns the "transitive closure" of reachability on the reduced graph, that
    /// is for each node the nodes that can be reached from it without back-edges,
    /// and for each node the targets of the back-edges met on the way.
    pub fn compute_reduced_reachability_and_back_edges(&self) -> (out: (Vec<Vec<bool>>, Vec<Vec<usize>>))
        requires
            self.wf(),
        ensures
            reach_table_ok(*self, out.0@),
            back_table_ok(*self, out.1@),
    {
        let n = self.depth_map.len();
        let mut rr_out: Vec<Vec<bool>> = Vec::new();
        let mut back_edge_out: Vec<Vec<usize>> = Vec::new();
        let nodes = graph_node_indices(&self.reduced_graph);
        let mut i: usize = 0;
        while i < n
            invariant
                i <= n,
                n == self.node_count(),
                nodes@.len() == n,
                forall|j: int| 0 <= j < n ==> #[trigger] nodes@[j] == j,
                self.wf(),
                rr_out@.len() == i,
                back_edge_out@.len() == i,
                forall|a: int| 0 <= a < i ==> reach_row_ok(*self, a, #[trigger] rr_out@[a]@),
                forall|a: int| 0 <= a < i ==> back_row_ok(*self, a, #[trigger] back_edge_out@[a]@),
            decreases n - i,
        {
            let node_idx = nodes[i];
            let connected_nodes = self.reduced_reach_from(node_idx);
            let back_edge_targets = self.back_edge_targets_from(node_idx, &connected_nodes);
            rr_out.push(connected_nodes);
            back_edge_out.push(back_edge_targets);
            i += 1;
        }
        (rr_out, back_edge_out)
    }
}

/// Whether `row` flags exactly the nodes that can be reached from `node` in the
/// reduced graph.
pub open spec fn reach_row_ok(gd: GraphData, node: int, row: Seq<bool>) -> bool {
    &&& row.len() == gd.node_count()
    &&& forall|x: int| 0 <= x < row.len() ==> (#[trigger] row[x] <==> gd.reduced_reachable(node, x))
}

/// Whether `row` lists exactly the back-edge targets of `node`.
pub open spec fn back_row_ok(gd: GraphData, node: int, row: Seq<usize>) -> bool {
    &&& forall|t: int|
        gd.back_edge_target(node, t) <==> t == t as usize && #[trigger] row.contains(t as usize)
    &&& forall|j: int| 0 <= j < row.len() ==> (#[trigger] row[j]) < gd.node_count()
}

/// Whether the table holds the reduced reachability of every node.
pub open spec fn reach_table_ok(gd: GraphData, table: Seq<Vec<bool>>) -> bool {
    &&& table.len() == gd.node_count()
    &&& forall|a: int| 0 <= a < table.len() ==> reach_row_ok(gd, a, #[trigger] table[a]@)
}

/// Whether the table holds the back-edge targets of every node.
pub open spec fn back_table_ok(gd: GraphData, table: Seq<Vec<usize>>) -> bool {
    &&& table.len() == gd.node_count()
    &&& forall|a: int| 0 <= a < table.len() ==> back_row_ok(gd, a, #[trigger] table[a]@)
}

/// Whether `x` occurs in `v`.
pub fn vec_contains(v: &Vec<usize>, x: usize) -> (found: bool)
    ensures
        found == v@.contains(x),
{
    let mut i: usize = 0;
    while i < v.len()
        invariant
            i <= v.len(),
            forall|j: int| 0 <= j < i ==> v@[j] != x,
        decreases v.len() - i,
    {
        if v[i] == x {
            return true;
        }
        i += 1;
    }
    false
}


/// Builds the control-flow graph of the blocks, its reduced graph and the depth map.
pub fn compute_graph(bbm: &BasicBlockManager) -> (gd: GraphData)
    requires
        edges_in_range(bbm@.blocks),
        bbm@.start < bbm@.blocks.len(),
    ensures
        gd.wf(),
        gd.root == bbm@.start,
        gd.node_count() == bbm@.blocks.len(),
        weighted_by_index(graph_nodes(gd.graph)),
        weighted_by_index(graph_nodes(gd.reduced_graph)),
        forall|a: int, b: int| has_edge(gd.edges(), a, b) <==> cfg_edge(bbm@.blocks, a, b),
{
    let graph = build_cfg(bbm);
    let start_ni = bbm.start().0;
    let (reduced_graph, depth_map) = compute_reduced_graph_and_depth_map(&graph, start_ni);
    GraphData { depth_map, graph, reduced_graph, root: start_ni }
}

/// Whether position (`b1`, `i1`) comes before (`b`, `i`) in program order.
pub open spec fn before(b1: int, i1: int, b: int, i: int) -> bool {
    b1 < b || (b1 == b && i1 < i)
}

/// Whether the instruction at (`b`, `i`) defines register `r`.
pub open spec fn defines_at(blocks: Seq<BlockView>, b: int, i: int, r: usize) -> bool {
    0 <= b < blocks.len() && 0 <= i < blocks[b].code.len() && defined_register(blocks[b].code[i])
        == Some(r)
}

/// Whether the instruction at (`b`, `i`) reads register `r`.
pub open spec fn reads_at(blocks: Seq<BlockView>, b: int, i: int, r: usize) -> bool {
    0 <= b < blocks.len() && 0 <= i < blocks[b].code.len() && registers_read(
        blocks[b].code[i],
    ).contains(r)
}

/// Whether register `r` is defined before position (`b`, `i`).
pub open spec fn defined_before(blocks: Seq<BlockView>, b: int, i: int, r: usize) -> bool {
    exists|b1: int, i1: int| before(b1, i1, b, i) && #[trigger] defines_at(blocks, b1, i1, r)
}

/// Whether block `b` reads register `r` before its instruction `i`.
pub open spec fn read_before(blocks: Seq<BlockView>, b: int, i: int, r: usize) -> bool {
    exists|i1: int| i1 < i && #[trigger] reads_at(blocks, b, i1, r)
}

/// What is wrong with the registers of the instruction at (`b`, `i`), if anything:
/// it reads or defines a register above `count`, or defines one defined before.
pub open spec fn fault_at(blocks: Seq<BlockView>, count: usize, b: int, i: int) -> Option<
    CodeGenErrorReason,
> {
    let inst = blocks[b].code[i];
    match first_out_of_range(registers_read(inst), (count + 1) as nat) {
        Some(r) => Some(CodeGenErrorReason::RegisterNotFound(r)),
        None => match defined_register(inst) {
            Some(r) => if r > count {
                Some(CodeGenErrorReason::RegisterNotFound(r))
            } else if defined_before(blocks, b, i, r) {
                Some(CodeGenErrorReason::RegisterValueTaken(r))
            } else {
                None
            },
            None => None,
        },
    }
}

/// The first instruction, in program order from (`b`, `i`), with a register fault.
pub open spec fn first_register_fault(blocks: Seq<BlockView>, count: usize, b: int, i: int) -> Option<
    CodeGenError,
>
    decreases blocks.len() - b, (if 0 <= b < blocks.len() {
            blocks[b].code.len() - i
        } else {
            0
        }),
{
    if b < 0 || b >= blocks.len() || i < 0 {
        None
    } else if i >= blocks[b].code.len() {
        first_register_fault(blocks, count, b + 1, 0)
    } else {
        match fault_at(blocks, count, b, i) {
            Some(reason) => Some(
                CodeGenError { block: b as usize, instruction: i as usize, reason },
            ),
            None => first_register_fault(blocks, count, b, i + 1),
        }
    }
}

/// Whether no register is defined twice before position (`b`, `i`).
pub open spec fn single_definition_before(blocks: Seq<BlockView>, b: int, i: int) -> bool {
    forall|b1: int, i1: int, b2: int, i2: int, r: usize|
        #![trigger defines_at(blocks, b1, i1, r), defines_at(blocks, b2, i2, r)]
        before(b1, i1, b, i) && before(b2, i2, b, i) && defines_at(blocks, b1, i1, r)
            && defines_at(blocks, b2, i2, r) ==> b1 == b2 && i1 == i2
}

/// Whether every register is defined by at most one instruction.
pub open spec fn single_definition(blocks: Seq<BlockView>) -> bool {
    single_definition_before(blocks, blocks.len() as int, 0)
}

/// Whether every register read or defined before (`b`, `i`) is at most `count`.
pub open spec fn registers_known_before(blocks: Seq<BlockView>, count: usize, b: int, i: int) -> bool {
    &&& forall|b1: int, i1: int, r: usize|
        before(b1, i1, b, i) && #[trigger] defines_at(blocks, b1, i1, r) ==> r <= count
    &&& forall|b1: int, i1: int, r: usize|
        before(b1, i1, b, i) && #[trigger] reads_at(blocks, b1, i1, r) ==> r <= count
}

/// Whether block `x` reads register `r` before position (`b`, `i`).
pub open spec fn read_in_before(blocks: Seq<BlockView>, x: int, r: usize, b: int, i: int) -> bool {
    exists|i1: int| before(x, i1, b, i) && #[trigger] reads_at(blocks, x, i1, r)
}

/// Whether block `x` defines register `r` before position (`b`, `i`).
pub open spec fn defined_in_before(blocks: Seq<BlockView>, x: int, r: usize, b: int, i: int) -> bool {
    exists|i1: int| before(x, i1, b, i) && #[trigger] defines_at(blocks, x, i1, r)
}

/// Whether the table records, for each register up to `count`, the blocks that
/// read it before position (`b`, `i`).
pub open spec fn uses_recorded(
    use_map: Seq<Vec<usize>>,
    blocks: Seq<BlockView>,
    count: usize,
    b: int,
    i: int,
) -> bool {
    &&& use_map.len() == count + 1
    &&& forall|r: int, k: int|
        0 <= r <= count && 0 <= k < use_map[r]@.len() ==> read_in_before(
            blocks,
            (#[trigger] use_map[r]@[k]) as int,
            r as usize,
            b,
            i,
        )
    &&& forall|b1: int, i1: int, r: usize|
        before(b1, i1, b, i) && #[trigger] reads_at(blocks, b1, i1, r) && r <= count
            ==> use_map[r as int]@.contains(b1 as usize)
}

/// Whether the table records, for each register up to `count`, the block that
/// defines it before position (`b`, `i`).
pub open spec fn definitions_recorded(
    define_map: Seq<Option<usize>>,
    blocks: Seq<BlockView>,
    count: usize,
    b: int,
    i: int,
) -> bool {
    &&& define_map.len() == count + 1
    &&& forall|r: int|
        0 <= r <= count && (#[trigger] define_map[r]) is Some ==> defined_in_before(
            blocks,
            define_map[r]->0 as int,
            r as usize,
            b,
            i,
        )
    &&& forall|b1: int, i1: int, r: usize|
        before(b1, i1, b, i) && #[trigger] defines_at(blocks, b1, i1, r) && r <= count
            ==> define_map[r as int] == Some(b1 as usize)
}

/// Records that block `b` reads the registers `reads`.
fn note_reads(use_map: &mut Vec<Vec<usize>>, reads: &Vec<usize>, b: usize)
    requires
        forall|k: int| 0 <= k < reads@.len() ==> (#[trigger] reads@[k]) < old(use_map)@.len(),
    ensures
        final(use_map)@.len() == old(use_map)@.len(),
        forall|r: int, x: usize|
            #![trigger final(use_map)@[r]@.contains(x)]
            0 <= r < old(use_map)@.len() ==> (final(use_map)@[r]@.contains(x) <==> old(use_map)@[r]@.contains(x)
                || (x == b && reads@.contains(r as usize))),
{
    let mut k: usize = 0;
    while k < reads.len()
        invariant
            k <= reads.len(),
            use_map@.len() == old(use_map)@.len(),
            forall|j: int| 0 <= j < reads@.len() ==> (#[trigger] reads@[j]) < use_map@.len(),
            forall|r: int, x: usize|
                #![trigger use_map@[r]@.contains(x)]
                0 <= r < use_map@.len() ==> (use_map@[r]@.contains(x) <==> old(use_map)@[r]@.contains(x)
                    || (x == b && exists|j: int| 0 <= j < k && #[trigger] reads@[j] == r)),
        decreases reads.len() - k,
    {
        let reg = reads[k];
        let ghost before_map = use_map@;
        if !vec_contains(&use_map[reg], b) {
            let row = &mut use_map[reg];
            row.push(b);
        }
        proof {
            assert forall|r: int, x: usize|
                #![trigger use_map@[r]@.contains(x)]
                0 <= r < use_map@.len() implies (use_map@[r]@.contains(x) <==> old(use_map)@[r]@.contains(x)
                || (x == b && exists|j: int| 0 <= j < k + 1 && #[trigger] reads@[j] == r)) by {
                if r == reg {
                    if before_map[r]@.contains(b) {
                        assert(use_map@[r]@ == before_map[r]@);
                    } else {
                        assert(use_map@[r]@ == before_map[r]@.push(b));
                        assert(use_map@[r]@[before_map[r]@.len() as int] == b);
                        if use_map@[r]@.contains(x) && x != b {
                            let j = choose|j: int| 0 <= j < use_map@[r]@.len() && use_map@[r]@[j] == x;
                            assert(before_map[r]@[j] == x);
                        }
                        if before_map[r]@.contains(x) {
                            let j = choose|j: int| 0 <= j < before_map[r]@.len() && before_map[r]@[j] == x;
                            assert(use_map@[r]@[j] == x);
                        }
                    }
                    assert(reads@[k as int] == r);
                } else {
                    assert(use_map@[r] == before_map[r]);
                }
                if exists|j: int| 0 <= j < k && #[trigger] reads@[j] == r {
                    let j = choose|j: int| 0 <= j < k && #[trigger] reads@[j] == r;
                    assert(0 <= j < k + 1 && reads@[j] == r);
                }
                if exists|j: int| 0 <= j < k + 1 && #[trigger] reads@[j] == r {
                    let j = choose|j: int| 0 <= j < k + 1 && #[trigger] reads@[j] == r;
                    if j < k {
                    } else {
                        assert(r == reg);
                    }
                }
            }
        }
        k += 1;
    }
    proof {
        assert forall|r: int, x: usize|
            #![trigger use_map@[r]@.contains(x)]
            0 <= r < old(use_map)@.len() implies (use_map@[r]@.contains(x) <==> old(use_map)@[r]@.contains(x)
            || (x == b && reads@.contains(r as usize))) by {
            assert(r < use_map.len());
            if reads@.contains(r as usize) {
                let j = choose|j: int| 0 <= j < reads@.len() && reads@[j] == r as usize;
                assert(reads@[j] == r);
            }
        }
    }
}


/// Whether the scan of the registers has looked at everything before (`b`, `i`)
/// and found no fault.
pub open spec fn scanned(
    use_map: Seq<Vec<usize>>,
    define_map: Seq<Option<usize>>,
    blocks: Seq<BlockView>,
    count: usize,
    b: int,
    i: int,
) -> bool {
    &&& uses_recorded(use_map, blocks, count, b, i)
    &&& definitions_recorded(define_map, blocks, count, b, i)
    &&& single_definition_before(blocks, b, i)
    &&& registers_known_before(blocks, count, b, i)
    &&& first_register_fault(blocks, count, 0, 0) == first_register_fault(blocks, count, b, i)
}

proof fn lemma_scan_next_block(
    use_map: Seq<Vec<usize>>,
    define_map: Seq<Option<usize>>,
    blocks: Seq<BlockView>,
    count: usize,
    b: int,
)
    requires
        0 <= b < blocks.len(),
        scanned(use_map, define_map, blocks, count, b, blocks[b].code.len() as int),
    ensures
        scanned(use_map, define_map, blocks, count, b + 1, 0),
{
    let m = blocks[b].code.len() as int;
    assert forall|b1: int, i1: int, r: usize| #[trigger] defines_at(blocks, b1, i1, r) implies (before(b1, i1, b + 1, 0)
        <==> before(b1, i1, b, m)) by {}
    assert forall|b1: int, i1: int, r: usize| #[trigger] reads_at(blocks, b1, i1, r) implies (before(b1, i1, b + 1, 0)
        <==> before(b1, i1, b, m)) by {}
    assert(first_register_fault(blocks, count, b, m) == first_register_fault(blocks, count, b + 1, 0));
    assert(single_definition_before(blocks, b + 1, 0)) by {
        assert forall|b1: int, i1: int, b2: int, i2: int, r: usize|
            #![trigger defines_at(blocks, b1, i1, r), defines_at(blocks, b2, i2, r)]
            before(b1, i1, b + 1, 0) && before(b2, i2, b + 1, 0) && defines_at(blocks, b1, i1, r)
                && defines_at(blocks, b2, i2, r) implies b1 == b2 && i1 == i2 by {
            assert(before(b1, i1, b, m) && before(b2, i2, b, m));
        }
    }
    assert(registers_known_before(blocks, count, b + 1, 0)) by {
        assert forall|b1: int, i1: int, r: usize|
            before(b1, i1, b + 1, 0) && #[trigger] defines_at(blocks, b1, i1, r) implies r <= count by {
            assert(before(b1, i1, b, m));
        }
        assert forall|b1: int, i1: int, r: usize|
            before(b1, i1, b + 1, 0) && #[trigger] reads_at(blocks, b1, i1, r) implies r <= count by {
            assert(before(b1, i1, b, m));
        }
    }
    assert forall|b1: int, i1: int, r: usize|
        before(b1, i1, b + 1, 0) && #[trigger] reads_at(blocks, b1, i1, r) && r <= count implies use_map[r as int]@.contains(
        b1 as usize,
    ) by {
        assert(before(b1, i1, b, m));
    }
    assert forall|b1: int, i1: int, r: usize|
        before(b1, i1, b + 1, 0) && #[trigger] defines_at(blocks, b1, i1, r) && r <= count implies define_map[r as int]
        == Some(b1 as usize) by {
        assert(before(b1, i1, b, m));
    }
    assert forall|r: int, k: int|
        0 <= r <= count && 0 <= k < use_map[r]@.len() implies read_in_before(
        blocks,
        (#[trigger] use_map[r]@[k]) as int,
        r as usize,
        b + 1,
        0,
    ) by {
        let x = use_map[r]@[k] as int;
        assert(read_in_before(blocks, x, r as usize, b, m));
        let i1 = choose|i1: int| before(x, i1, b, m) && #[trigger] reads_at(blocks, x, i1, r as usize);
        assert(before(x, i1, b + 1, 0));
    }
    assert forall|r: int| 0 <= r <= count && (#[trigger] define_map[r]) is Some implies defined_in_before(
        blocks,
        define_map[r]->0 as int,
        r as usize,
        b + 1,
        0,
    ) by {
        let x = define_map[r]->0 as int;
        assert(defined_in_before(blocks, x, r as usize, b, m));
        let i1 = choose|i1: int| before(x, i1, b, m) && #[trigger] defines_at(blocks, x, i1, r as usize);
        assert(before(x, i1, b + 1, 0));
    }
    assert(uses_recorded(use_map, blocks, count, b + 1, 0));
    assert(definitions_recorded(define_map, blocks, count, b + 1, 0));
}

proof fn lemma_scan_next_instruction(
    use_map0: Seq<Vec<usize>>,
    use_map: Seq<Vec<usize>>,
    define_map0: Seq<Option<usize>>,
    define_map: Seq<Option<usize>>,
    blocks: Seq<BlockView>,
    count: usize,
    b: int,
    i: int,
)
    requires
        0 <= b < blocks.len(),
        0 <= i < blocks[b].code.len(),
        b == b as usize,
        scanned(use_map0, define_map0, blocks, count, b, i),
        fault_at(blocks, count, b, i) is None,
        use_map.len() == use_map0.len(),
        forall|r: int, x: usize|
            #![trigger use_map[r]@.contains(x)]
            0 <= r < use_map0.len() ==> (use_map[r]@.contains(x) <==> use_map0[r]@.contains(x) || (x
                == b && registers_read(blocks[b].code[i]).contains(r as usize))),
        define_map == (match defined_register(blocks[b].code[i]) {
            Some(r) => define_map0.update(r as int, Some(b as usize)),
            None => define_map0,
        }),
    ensures
        scanned(use_map, define_map, blocks, count, b, i + 1),
{
    let inst = blocks[b].code[i];
    lemma_first_out_of_range(registers_read(inst), (count + 1) as nat);
    assert(first_register_fault(blocks, count, b, i) == first_register_fault(blocks, count, b, i + 1));
    assert(defined_register(inst) matches Some(r) ==> r <= count && !defined_before(blocks, b, i, r));
    // registers known
    assert forall|b1: int, i1: int, r: usize|
        before(b1, i1, b, i + 1) && #[trigger] defines_at(blocks, b1, i1, r) implies r <= count by {
        if !before(b1, i1, b, i) {
            assert(b1 == b && i1 == i);
        }
    }
    assert forall|b1: int, i1: int, r: usize|
        before(b1, i1, b, i + 1) && #[trigger] reads_at(blocks, b1, i1, r) implies r <= count by {
        if !before(b1, i1, b, i) {
            assert(b1 == b && i1 == i);
            let k = choose|k: int| 0 <= k < registers_read(inst).len() && registers_read(inst)[k] == r;
        }
    }
    // single definition
    assert forall|b1: int, i1: int, b2: int, i2: int, r: usize|
        #![trigger defines_at(blocks, b1, i1, r), defines_at(blocks, b2, i2, r)]
        before(b1, i1, b, i + 1) && before(b2, i2, b, i + 1) && defines_at(blocks, b1, i1, r)
            && defines_at(blocks, b2, i2, r) implies b1 == b2 && i1 == i2 by {
        if before(b1, i1, b, i) && before(b2, i2, b, i) {
        } else if before(b1, i1, b, i) {
            assert(b2 == b && i2 == i);
            assert(defined_before(blocks, b, i, r));
        } else if before(b2, i2, b, i) {
            assert(b1 == b && i1 == i);
            assert(defined_before(blocks, b, i, r));
        } else {
        }
    }
    // uses
    assert forall|r: int, k: int|
        0 <= r <= count && 0 <= k < use_map[r]@.len() implies read_in_before(
        blocks,
        (#[trigger] use_map[r]@[k]) as int,
        r as usize,
        b,
        i + 1,
    ) by {
        let x = use_map[r]@[k];
        assert(use_map[r]@.contains(x));
        if use_map0[r]@.contains(x) {
            let k0 = choose|k0: int| 0 <= k0 < use_map0[r]@.len() && use_map0[r]@[k0] == x;
            assert(read_in_before(blocks, use_map0[r]@[k0] as int, r as usize, b, i));
            let i1 = choose|i1: int|
                before(x as int, i1, b, i) && #[trigger] reads_at(blocks, x as int, i1, r as usize);
            assert(before(x as int, i1, b, i + 1) && reads_at(blocks, x as int, i1, r as usize));
        } else {
            assert(before(x as int, i, b, i + 1) && reads_at(blocks, x as int, i, r as usize));
        }
    }
    assert forall|b1: int, i1: int, r: usize|
        before(b1, i1, b, i + 1) && #[trigger] reads_at(blocks, b1, i1, r) && r <= count implies use_map[r as int]@.contains(
        b1 as usize,
    ) by {
        if before(b1, i1, b, i) {
            assert(use_map0[r as int]@.contains(b1 as usize));
        } else {
            assert(b1 == b && i1 == i);
        }
    }
    // definitions
    assert forall|r: int| 0 <= r <= count && (#[trigger] define_map[r]) is Some implies defined_in_before(
        blocks,
        define_map[r]->0 as int,
        r as usize,
        b,
        i + 1,
    ) by {
        if defined_register(inst) == Some(r as usize) {
            assert(define_map[r] == Some(b as usize));
            assert(define_map[r]->0 as int == b);
            assert(before(b, i, b, i + 1) && defines_at(blocks, b, i, r as usize));
        } else {
            assert(define_map[r] == define_map0[r]);
            assert(define_map0[r] is Some);
            let x = define_map0[r]->0 as int;
            assert(defined_in_before(blocks, x, r as usize, b, i));
            let i1 = choose|i1: int| before(x, i1, b, i) && #[trigger] defines_at(blocks, x, i1, r as usize);
            assert(before(x, i1, b, i + 1));
        }
    }
    assert forall|b1: int, i1: int, r: usize|
        before(b1, i1, b, i + 1) && #[trigger] defines_at(blocks, b1, i1, r) && r <= count implies define_map[r as int]
        == Some(b1 as usize) by {
        if before(b1, i1, b, i) {
            assert(define_map0[r as int] == Some(b1 as usize));
            if defined_register(inst) == Some(r) {
                assert(defined_before(blocks, b, i, r));
            }
        } else {
            assert(b1 == b && i1 == i);
        }
    }
    assert(registers_known_before(blocks, count, b, i + 1));
    assert(single_definition_before(blocks, b, i + 1));
    assert(uses_recorded(use_map, blocks, count, b, i + 1));
    assert(definitions_recorded(define_map, blocks, count, b, i + 1));
}

/// Walks the program in order and records, for each register, the blocks that
/// read it and the block that defines it. Stops at the first instruction that
/// names a register above `count` or defines a register a second time.
pub fn scan_registers(bbm: &BasicBlockManager, count: usize) -> (r: Result<
    (Vec<Vec<usize>>, Vec<Option<usize>>),
    CodeGenError,
>)
    requires
        count < usize::MAX,
    ensures
        r matches Ok(maps) ==> scanned(
            maps.0@,
            maps.1@,
            bbm@.blocks,
            count,
            bbm@.blocks.len() as int,
            0,
        ) && first_register_fault(bbm@.blocks, count, 0, 0) is None,
        r matches Err(e) ==> first_register_fault(bbm@.blocks, count, 0, 0) == Some(e),
{
    let ghost blocks = bbm@.blocks;
    let mut use_map: Vec<Vec<usize>> = Vec::new();
    let mut define_map: Vec<Option<usize>> = Vec::new();
    let mut j: usize = 0;
    while j <= count
        invariant
            j <= count + 1,
            count < usize::MAX,
            use_map@.len() == j,
            define_map@.len() == j,
            forall|r: int| 0 <= r < j ==> (#[trigger] use_map@[r])@.len() == 0,
            forall|r: int| 0 <= r < j ==> (#[trigger] define_map@[r]) is None,
        decreases count + 1 - j,
    {
        use_map.push(Vec::new());
        define_map.push(None);
        j += 1;
    }
    let n = bbm.len();
    let mut b: usize = 0;
    assert(scanned(use_map@, define_map@, blocks, count, 0, 0)) by {
        assert forall|b1: int, i1: int, r: usize| #[trigger] defines_at(blocks, b1, i1, r) implies !before(b1, i1, 0, 0) by {}
        assert forall|b1: int, i1: int, r: usize| #[trigger] reads_at(blocks, b1, i1, r) implies !before(b1, i1, 0, 0) by {}
    }
    while b < n
        invariant
            b <= n,
            n == blocks.len(),
            blocks == bbm@.blocks,
            count < usize::MAX,
            scanned(use_map@, define_map@, blocks, count, b as int, 0),
        decreases n - b,
    {
        let block = bbm.get(BasicBlockIndex(b)).unwrap();
        let code = block.instructions();
        let m = code.len();
        let mut i: usize = 0;
        while i < m
            invariant
                i <= m,
                b < n,
                n == blocks.len(),
                blocks == bbm@.blocks,
                code@ == blocks[b as int].code,
                m == code@.len(),
                count < usize::MAX,
                scanned(use_map@, define_map@, blocks, count, b as int, i as int),
            decreases m - i,
        {
            let inst = code[i];
            let reads = inst.reads();
            proof {
                lemma_first_out_of_range(reads@, (count + 1) as nat);
            }
            if let Some(r) = find_out_of_range(&reads, count + 1) {
                return Err(
                    CodeGenError {
                        block: b,
                        instruction: i,
                        reason: CodeGenErrorReason::RegisterNotFound(r),
                    },
                );
            }
            let ghost use_map0 = use_map@;
            let ghost define_map0 = define_map@;
            match inst.defines() {
                Some(r) => {
                    if r > count {
                        return Err(
                            CodeGenError {
                                block: b,
                                instruction: i,
                                reason: CodeGenErrorReason::RegisterNotFound(r),
                            },
                        );
                    }
                    if define_map[r].is_some() {
                        proof {
                            let x = define_map@[r as int]->0 as int;
                            assert(defined_in_before(blocks, x, r, b as int, i as int));
                            let i1 = choose|i1: int|
                                before(x, i1, b as int, i as int) && #[trigger] defines_at(blocks, x, i1, r);
                            assert(defined_before(blocks, b as int, i as int, r));
                        }
                        return Err(
                            CodeGenError {
                                block: b,
                                instruction: i,
                                reason: CodeGenErrorReason::RegisterValueTaken(r),
                            },
                        );
                    }
                    proof {
                        if defined_before(blocks, b as int, i as int, r) {
                            let (b1, i1) = choose|b1: int, i1: int|
                                before(b1, i1, b as int, i as int) && #[trigger] defines_at(blocks, b1, i1, r);
                            assert(define_map@[r as int] == Some(b1 as usize));
                        }
                    }
                    define_map.set(r, Some(b));
                },
                None => {},
            }
            note_reads(&mut use_map, &reads, b);
            proof {
                lemma_scan_next_instruction(
                    use_map0,
                    use_map@,
                    define_map0,
                    define_map@,
                    blocks,
                    count,
                    b as int,
                    i as int,
                );
            }
            i += 1;
        }
        proof {
            lemma_scan_next_block(use_map@, define_map@, blocks, count, b as int);
        }
        b += 1;
    }
    Ok((use_map, define_map))
}


/// Whether the dominance relation is that of the graph from `root`: it covers the
/// nodes that can be reached from `root`, each with its strict dominators.
pub open spec fn dominators_ok(
    d: Dominators<NodeIndex<usize>>,
    edges: Map<int, (int, int)>,
    root: int,
) -> bool {
    &&& forall|n: int| #[trigger] dominance(d).dom().contains(n) <==> reachable(edge_set(edges), root, n)
    &&& forall|n: int, x: int|
        dominance(d).dom().contains(n) ==> (#[trigger] dominance(d)[n].contains(x)
            <==> strictly_dominates(edge_set(edges), root, x, n))
}

/// Answers liveness queries on a control-flow graph.
#[derive(Debug)]
pub struct GraphQuery {
    pub graph_data: GraphData,
    pub dominators: Dominators<NodeIndex<usize>>,
    /// For each node, one flag per node: whether it can be reached in the reduced graph.
    pub reduced_reachability: Vec<Vec<bool>>,
    /// For each node, the targets of the back-edges met from it.
    pub back_edges: Vec<Vec<usize>>,
    /// Map showing where a register is used.
    pub use_map: Vec<Vec<usize>>,
    /// Map showing where a register was defined.
    pub define_map: Vec<Option<usize>>,
}

impl GraphQuery {
    /// The analyses belong to the graph, and the register tables name blocks of it.
    pub open spec fn wf(&self) -> bool {
        &&& self.graph_data.wf()
        &&& dominators_ok(self.dominators, self.graph_data.edges(), self.graph_data.root as int)
        &&& self.tables_ok()
    }

    /// The reachability and back-edge tables are those of the graph, and the
    /// register tables name blocks of it.
    pub open spec fn tables_ok(&self) -> bool {
        &&& reach_table_ok(self.graph_data, self.reduced_reachability@)
        &&& back_table_ok(self.graph_data, self.back_edges@)
        &&& self.use_map@.len() == self.define_map@.len()
        &&& forall|r: int|
            0 <= r < self.define_map@.len() && (#[trigger] self.define_map@[r]) is Some
                ==> self.define_map@[r]->0 < self.graph_data.node_count()
        &&& forall|r: int, k: int|
            0 <= r < self.use_map@.len() && 0 <= k < self.use_map@[r]@.len() ==> (
            #[trigger] self.use_map@[r]@[k]) < self.graph_data.node_count()
    }

    /// Whether the register tables record the reads and definitions of `blocks`,
    /// a program without register faults whose registers are at most `count`.
    pub open spec fn describes(&self, blocks: Seq<BlockView>, count: usize) -> bool {
        scanned(self.use_map@, self.define_map@, blocks, count, blocks.len() as int, 0)
    }

    /// The block that defines register `r`, if one does.
    pub open spec fn def_of(&self, r: int) -> Option<usize> {
        if 0 <= r < self.define_map@.len() {
            self.define_map@[r]
        } else {
            None
        }
    }

    /// Whether block `u` reads register `r`.
    pub open spec fn used_in(&self, r: int, u: int) -> bool {
        0 <= r < self.use_map@.len() && u == u as usize && self.use_map@[r]@.contains(u as usize)
    }

    /// Whether block `d` strictly dominates block `n`, which can be reached from
    /// the entry.
    pub open spec fn sdom(&self, d: int, n: int) -> bool {
        dominance(self.dominators).dom().contains(n) && dominance(self.dominators)[n].contains(d)
    }

    /// Whether `t` is a back-edge target of `d` that strictly dominates `d`: the
    /// head of a loop around `d`.
    pub open spec fn loop_header_of(&self, d: int, t: int) -> bool {
        self.graph_data.back_edge_target(d, t) && self.sdom(t, d)
    }

    /// Whether a block other than `skip` that reads `r` can be reached from `t`
    /// in the reduced graph.
    pub open spec fn reaches_use(&self, t: int, r: int, skip: Option<int>) -> bool {
        exists|u: int|
            #[trigger] self.used_in(r, u) && Some(u) != skip && self.graph_data.reduced_reachable(
                t,
                u,
            )
    }

    /// The block to leave out of the uses when the loop head `t` is looked at for
    /// the exit of `q`: `q` itself, where `t` is `q` and `q` is no back-edge
    /// target of its own.
    pub open spec fn skipped(&self, t: int, q: int) -> Option<int> {
        if t == q && !self.graph_data.back_edge_target(q, q) {
            Some(q)
        } else {
            None
        }
    }

    /// Whether register `r` is live on exit from block `q`.
    pub open spec fn live_out(&self, r: int, q: int) -> bool {
        match self.def_of(r) {
            None => false,
            Some(d) => if d == q {
                exists|u: int| #[trigger] self.used_in(r, u) && u != q
            } else {
                self.sdom(d as int, q) && exists|t: int|
                    #[trigger] self.loop_header_of(d as int, t) && self.reaches_use(
                        t,
                        r,
                        self.skipped(t, q),
                    )
            },
        }
    }

    /// Whether register `r` is live on entry to block `q`: the block reads it and
    /// does not define it, or it is live on exit from a predecessor of the block.
    pub open spec fn live_in(&self, r: int, q: int) -> bool {
        ||| self.used_in(r, q) && !(self.def_of(r) matches Some(d) && d == q)
        ||| exists|p: int|
            #[trigger] has_edge(self.graph_data.edges(), p, q) && self.live_out(r, p)
    }

    /// Builds the liveness tables of a program from its graph.
    ///
    /// Fails at the first instruction, in program order, that names a register
    /// above the register count or defines a register a second time.
    pub fn new(graph_data: GraphData, bbm: &BasicBlockManager) -> (r: Result<Self, CodeGenError>)
        requires
            graph_data.wf(),
            graph_data.node_count() == bbm@.blocks.len(),
            bbm@.register_count() < usize::MAX,
        ensures
            r matches Ok(gq) ==> gq.wf() && gq.graph_data == graph_data && gq.describes(
                bbm@.blocks,
                bbm@.register_count(),
            ) && first_register_fault(bbm@.blocks, bbm@.register_count(), 0, 0) is None,
            r is Ok ==> single_definition(bbm@.blocks),
            r matches Err(e) ==> first_register_fault(bbm@.blocks, bbm@.register_count(), 0, 0)
                == Some(e),
    {
        let count = bbm.register_count();
        let (reduced_reachability, back_edges) =
            graph_data.compute_reduced_reachability_and_back_edges();
        let dominators = graph_dominators(&graph_data.graph, graph_data.root);
        match scan_registers(bbm, count) {
            Err(e) => Err(e),
            Ok((use_map, define_map)) => {
                proof {
                    let blocks = bbm@.blocks;
                    let n = blocks.len() as int;
                    assert forall|r: int|
                        0 <= r < define_map@.len() && (#[trigger] define_map@[r]) is Some implies define_map@[r]->0
                        < graph_data.node_count() by {
                        let x = define_map@[r]->0 as int;
                        assert(defined_in_before(blocks, x, r as usize, n, 0));
                    }
                    assert forall|r: int, k: int|
                        0 <= r < use_map@.len() && 0 <= k < use_map@[r]@.len() implies (
                    #[trigger] use_map@[r]@[k]) < graph_data.node_count() by {
                        let x = use_map@[r]@[k] as int;
                        assert(read_in_before(blocks, x, r as usize, n, 0));
                    }
                }
                Ok(
                    Self {
                        graph_data,
                        dominators,
                        reduced_reachability,
                        back_edges,
                        use_map,
                        define_map,
                    },
                )
            },
        }
    }

    /// Whether block `d` strictly dominates block `n`.
    pub fn strictly_dominated_by(&self, d: usize, n: usize) -> (b: bool)
        ensures
            b == self.sdom(d as int, n as int),
    {
        match strict_dominators_of(&self.dominators, n) {
            Some(v) => {
                let found = vec_contains(&v, d);
                proof {
                    let di = d as int;
                    assert(v@.contains(di as usize) == found);
                }
                found
            },
            None => false,
        }
    }

    /// Whether a block other than `skip` that reads `r` is flagged in the
    /// reachability of `t`.
    fn reach_hits_use(&self, t: usize, r: usize, skip: Option<usize>) -> (b: bool)
        requires
            self.tables_ok(),
            t < self.graph_data.node_count(),
            r < self.use_map@.len(),
        ensures
            b == self.reaches_use(
                t as int,
                r as int,
                match skip {
                    Some(q) => Some(q as int),
                    None => None,
                },
            ),
    {
        let uses = &self.use_map[r];
        let row = &self.reduced_reachability[t];
        let ghost sk: Option<int> = match skip {
            Some(q) => Some(q as int),
            None => None,
        };
        assert(reach_row_ok(self.graph_data, t as int, row@));
        let mut k: usize = 0;
        while k < uses.len()
            invariant
                k <= uses.len(),
                self.tables_ok(),
                uses@ == self.use_map@[r as int]@,
                r < self.use_map@.len(),
                t < self.graph_data.node_count(),
                reach_row_ok(self.graph_data, t as int, row@),
                sk == (match skip {
                    Some(q) => Some(q as int),
                    None => None,
                }),
                forall|j: int|
                    0 <= j < k ==> !(Some((#[trigger] uses@[j]) as int) != sk
                        && self.graph_data.reduced_reachable(t as int, uses@[j] as int)),
            decreases uses.len() - k,
        {
            let u = uses[k];
            assert(u < self.graph_data.node_count());
            let skip_this = match skip {
                Some(q) => q == u,
                None => false,
            };
            if !skip_this && row[u] {
                proof {
                    let ui = u as int;
                    assert(uses@.contains(ui as usize));
                    assert(self.used_in(r as int, ui));
                }
                return true;
            }
            k += 1;
        }
        proof {
            if self.reaches_use(t as int, r as int, sk) {
                let u = choose|u: int|
                    #[trigger] self.used_in(r as int, u) && Some(u) != sk
                        && self.graph_data.reduced_reachable(t as int, u);
                let j = choose|j: int| 0 <= j < uses@.len() && uses@[j] == u as usize;
                assert(uses@[j] as int == u);
            }
        }
        false
    }

    /// Whether a loop head of `d` reaches a use of `r`, looked at for the exit of `q`.
    fn loop_keeps_live(&self, r: usize, d: usize, q: usize) -> (b: bool)
        requires
            self.tables_ok(),
            r < self.use_map@.len(),
            d < self.graph_data.node_count(),
        ensures
            b == (exists|t: int|
                #[trigger] self.loop_header_of(d as int, t) && self.reaches_use(
                    t,
                    r as int,
                    self.skipped(t, q as int),
                )),
    {
        let heads = &self.back_edges[d];
        assert(back_row_ok(self.graph_data, d as int, heads@));
        let mut k: usize = 0;
        while k < heads.len()
            invariant
                k <= heads.len(),
                self.tables_ok(),
                r < self.use_map@.len(),
                d < self.graph_data.node_count(),
                heads@ == self.back_edges@[d as int]@,
                back_row_ok(self.graph_data, d as int, heads@),
                forall|j: int|
                    0 <= j < k ==> !(self.loop_header_of(d as int, (#[trigger] heads@[j]) as int)
                        && self.reaches_use(
                        heads@[j] as int,
                        r as int,
                        self.skipped(heads@[j] as int, q as int),
                    )),
            decreases heads.len() - k,
        {
            let t = heads[k];
            assert(t < self.graph_data.node_count());
            proof {
                let ti = t as int;
                assert(heads@.contains(ti as usize));
                assert(self.graph_data.back_edge_target(d as int, ti));
            }
            if self.strictly_dominated_by(t, d) {
                let skip = if t == q {
                    let own = &self.back_edges[q];
                    assert(back_row_ok(self.graph_data, q as int, own@));
                    let self_target = vec_contains(own, q);
                    proof {
                        let qi = q as int;
                        assert(own@.contains(qi as usize) == self_target);
                    }
                    if self_target {
                        None
                    } else {
                        Some(q)
                    }
                } else {
                    None
                };
                let ghost expected = self.skipped(t as int, q as int);
                assert(expected == (match skip {
                    Some(x) => Some(x as int),
                    None => None,
                }));
                if self.reach_hits_use(t, r, skip) {
                    assert(self.loop_header_of(d as int, t as int));
                    assert(self.reaches_use(t as int, r as int, expected));
                    return true;
                }
            }
            k += 1;
        }
        proof {
            if exists|t: int|
                #[trigger] self.loop_header_of(d as int, t) && self.reaches_use(
                    t,
                    r as int,
                    self.skipped(t, q as int),
                ) {
                let t = choose|t: int|
                    #[trigger] self.loop_header_of(d as int, t) && self.reaches_use(
                        t,
                        r as int,
                        self.skipped(t, q as int),
                    );
                assert(heads@.contains(t as usize));
                let j = choose|j: int| 0 <= j < heads@.len() && heads@[j] == t as usize;
                assert(heads@[j] as int == t);
            }
        }
        false
    }

    /// Whether a block other than `q` reads register `r`.
    fn used_elsewhere(&self, r: usize, q: usize) -> (b: bool)
        requires
            r < self.use_map@.len(),
        ensures
            b == (exists|u: int| #[trigger] self.used_in(r as int, u) && u != q),
    {
        let uses = &self.use_map[r];
        let mut k: usize = 0;
        while k < uses.len()
            invariant
                k <= uses.len(),
                r < self.use_map@.len(),
                uses@ == self.use_map@[r as int]@,
                forall|j: int| 0 <= j < k ==> uses@[j] == q,
            decreases uses.len() - k,
        {
            if uses[k] != q {
                proof {
                    let ui = uses@[k as int] as int;
                    assert(uses@.contains(ui as usize));
                    assert(self.used_in(r as int, ui) && ui != q);
                }
                return true;
            }
            k += 1;
        }
        proof {
            if exists|u: int| #[trigger] self.used_in(r as int, u) && u != q {
                let u = choose|u: int| #[trigger] self.used_in(r as int, u) && u != q;
                let j = choose|j: int| 0 <= j < uses@.len() && uses@[j] == u as usize;
            }
        }
        false
    }

    /// Whether register `idx` is live on entry to block `node`: the block reads
    /// it without defining it, or it is live on exit from a predecessor.
    pub fn is_live_in(&self, idx: RegisterIndex, node: BasicBlockIndex) -> (live: bool)
        requires
            self.wf(),
        ensures
            live == self.live_in(idx.0 as int, node.0 as int),
    {
        let r = idx.0;
        let q = node.0;
        let n = self.graph_data.depth_map.len();
        let ghost edges = self.graph_data.edges();
        if r < self.use_map.len() {
            let used_here = vec_contains(&self.use_map[r], q);
            proof {
                let qi = q as int;
                assert(self.use_map@[r as int]@.contains(qi as usize) == used_here);
            }
            let defined_here = match self.define_map[r] {
                Some(d) => d == q,
                None => false,
            };
            if used_here && !defined_here {
                return true;
            }
        }
        if q >= n {
            proof {
                if exists|p: int| #[trigger] has_edge(edges, p, q as int) && self.live_out(r as int, p) {
                    let p = choose|p: int| #[trigger] has_edge(edges, p, q as int) && self.live_out(r as int, p);
                    let e = choose|e: int| edges.dom().contains(e) && #[trigger] edges[e] == (p, q as int);
                    assert(is_node(graph_nodes(self.graph_data.graph), edges[e].1));
                }
            }
            return false;
        }
        let mut p: usize = 0;
        while p < n
            invariant
                p <= n,
                q < n,
                r == idx.0,
                q == node.0,
                n == self.graph_data.node_count(),
                edges == self.graph_data.edges(),
                self.wf(),
                forall|j: int|
                    0 <= j < p ==> !(#[trigger] has_edge(edges, j, q as int) && self.live_out(
                        r as int,
                        j,
                    )),
            decreases n - p,
        {
            if graph_find_edge(&self.graph_data.graph, p, q).is_some() {
                assert(has_edge(edges, p as int, q as int));
                if self.is_live_out(idx, BasicBlockIndex(p)) {
                    return true;
                }
            }
            p += 1;
        }
        proof {
            if exists|p: int| #[trigger] has_edge(edges, p, q as int) && self.live_out(r as int, p) {
                let p = choose|p: int| #[trigger] has_edge(edges, p, q as int) && self.live_out(r as int, p);
                let e = choose|e: int| edges.dom().contains(e) && #[trigger] edges[e] == (p, q as int);
                assert(is_node(graph_nodes(self.graph_data.graph), edges[e].0));
            }
        }
        false
    }

    /// Whether register `idx` is live on exit from block `node`.
    ///
    /// In the defining block it is live when some other block reads it. Elsewhere
    /// the definition must strictly dominate the block, and a loop head around the
    /// definition must reach a use in the reduced graph; where that loop head is
    /// the block itself and the block is no back-edge target of its own, its own
    /// reads do not count.
    pub fn is_live_out(&self, idx: RegisterIndex, node: BasicBlockIndex) -> (live: bool)
        requires
            self.wf(),
        ensures
            live == self.live_out(idx.0 as int, node.0 as int),
    {
        let r = idx.0;
        let q = node.0;
        if r >= self.define_map.len() {
            return false;
        }
        match self.define_map[r] {
            None => false,
            Some(d) => {
                if d == q {
                    return self.used_elsewhere(r, q);
                }
                if !self.strictly_dominated_by(d, q) {
                    return false;
                }
                self.loop_keeps_live(r, d, q)
            },
        }
    }
}


/// Every edge that the reduced graph lacks is a back-edge: its source lies
/// deeper than its target.
pub proof fn lemma_removed_edges_lead_back(gd: GraphData, u: int, v: int)
    requires
        gd.wf(),
        has_edge(gd.edges(), u, v),
        !has_edge(gd.reduced_edges(), u, v),
    ensures
        is_back_edge(gd.depth_map@, u, v),
        gd.depth_map@[u]->0 > gd.depth_map@[v]->0,
{
}

/// Along a walk in the reduced graph that starts at a labelled node, every node
/// is labelled and none lies less deep than the node before it.
pub proof fn lemma_reduced_walk_deepens(gd: GraphData, p: Seq<int>, k: int)
    requires
        gd.wf(),
        is_path(edge_set(gd.reduced_edges()), p),
        0 <= p[0] < gd.node_count(),
        gd.depth_map@[p[0]] is Some,
        0 <= k < p.len(),
    ensures
        0 <= p[k] < gd.node_count(),
        gd.depth_map@[p[k]] is Some,
        gd.depth_map@[p[k]]->0 >= gd.depth_map@[p[0]]->0,
    decreases k,
{
    if k > 0 {
        lemma_reduced_walk_deepens(gd, p, k - 1);
        assert(joined(edge_set(gd.reduced_edges()), p, k - 1));
        assert(has_edge(gd.reduced_edges(), p[k - 1], p[k]));
        assert(has_edge(gd.edges(), p[k - 1], p[k]));
    }
}

/// The rest of a walk from its node `k` on is a walk.
pub proof fn lemma_rest_of_walk(edges: Set<(int, int)>, p: Seq<int>, k: int)
    requires
        is_path(edges, p),
        0 <= k < p.len(),
    ensures
        is_path(edges, p.subrange(k, p.len() as int)),
        p.subrange(k, p.len() as int)[0] == p[k],
        p.subrange(k, p.len() as int).last() == p.last(),
{
    let rest = p.subrange(k, p.len() as int);
    assert forall|i: int| 0 <= i < rest.len() - 1 implies #[trigger] joined(edges, rest, i) by {
        assert(joined(edges, p, k + i));
    }
}

/// A cycle of the reduced graph through a labelled node stays within one depth:
/// every node on it lies as deep as the first.
pub proof fn lemma_reduced_cycle_is_level(gd: GraphData, p: Seq<int>, k: int)
    requires
        gd.wf(),
        is_path(edge_set(gd.reduced_edges()), p),
        p[0] == p.last(),
        0 <= p[0] < gd.node_count(),
        gd.depth_map@[p[0]] is Some,
        0 <= k < p.len(),
    ensures
        gd.depth_map@[p[k]] == gd.depth_map@[p[0]],
{
    lemma_reduced_walk_deepens(gd, p, k);
    let rest = p.subrange(k, p.len() as int);
    lemma_rest_of_walk(edge_set(gd.reduced_edges()), p, k);
    lemma_reduced_walk_deepens(gd, rest, rest.len() - 1);
}

/// The reduced graph has no cycle through a labelled node that changes depth: a
/// walk on which some node lies deeper than the first does not come back to it.
pub proof fn lemma_reduced_acyclic(gd: GraphData, p: Seq<int>, k: int)
    requires
        gd.wf(),
        is_path(edge_set(gd.reduced_edges()), p),
        0 <= p[0] < gd.node_count(),
        gd.depth_map@[p[0]] is Some,
        0 <= k < p.len(),
        gd.depth_map@[p[k]] != gd.depth_map@[p[0]],
    ensures
        p[0] != p.last(),
{
    if p[0] == p.last() {
        lemma_reduced_cycle_is_level(gd, p, k);
    }
}

/// A register that is live on entry to a block is defined in a block that
/// strictly dominates it, where the register is live on exit from every
/// predecessor of the block, and the block is neither the entry nor the block
/// that defines the register.
pub proof fn lemma_live_in_dominated(gq: GraphQuery, r: int, b: int)
    requires
        gq.wf(),
        gq.live_in(r, b),
        b != gq.graph_data.root,
        !(gq.def_of(r) matches Some(d) && d == b),
        forall|p: int| #[trigger] has_edge(gq.graph_data.edges(), p, b) ==> gq.live_out(r, p),
    ensures
        gq.def_of(r) is Some ==> strictly_dominates(
            edge_set(gq.graph_data.edges()),
            gq.graph_data.root as int,
            gq.def_of(r)->0 as int,
            b,
        ),
{
    reveal(crate::graph::dominates);
    let edges = gq.graph_data.edges();
    let root = gq.graph_data.root as int;
    if gq.def_of(r) is Some {
        let d = gq.def_of(r)->0 as int;
        assert forall|w: Seq<int>| #[trigger] path_between(edge_set(edges), w, root, b) implies w.contains(
            d,
        ) by {
            let last = w.len() - 1;
            assert(last >= 1);
            let p = w[last - 1];
            assert(joined(edge_set(edges), w, last - 1));
            assert(has_edge(edges, p, b));
            assert(gq.live_out(r, p));
            if d == p {
                assert(w[last - 1] == d);
            } else {
                assert(gq.sdom(d, p));
                assert(strictly_dominates(edge_set(edges), root, d, p));
                let head = w.subrange(0, last);
                assert(is_path(edge_set(edges), head)) by {
                    assert forall|i: int| 0 <= i < head.len() - 1 implies #[trigger] joined(
                        edge_set(edges),
                        head,
                        i,
                    ) by {
                        assert(joined(edge_set(edges), w, i));
                    }
                }
                assert(path_between(edge_set(edges), head, root, p));
                assert(head.contains(d));
                let i = choose|i: int| 0 <= i < head.len() && head[i] == d;
                assert(w[i] == d);
            }
        }
    }
}

/// A labelled node can be reached from the root by a walk with as many edges as
/// its depth.
pub proof fn lemma_depth_has_walk(depth: Seq<Option<usize>>, edges: Map<int, (int, int)>, root: int, v: int) -> (p:
    Seq<int>)
    requires
        is_level_map(depth, edges, root),
        0 <= v < depth.len(),
        depth[v] is Some,
    ensures
        path_between(edge_set(edges), p, root, v),
        p.len() == depth[v]->0 + 1,
    decreases depth[v]->0,
{
    if v == root {
        let p = seq![root];
        assert(is_path(edge_set(edges), p));
        p
    } else {
        let u = choose|u: int|
            #[trigger] has_edge(edges, u, v) && 0 <= u < depth.len() && depth[u] == Some(
                (depth[v]->0 - 1) as usize,
            );
        let before = lemma_depth_has_walk(depth, edges, root, u);
        let p = before.push(v);
        assert forall|i: int| 0 <= i < p.len() - 1 implies #[trigger] joined(edge_set(edges), p, i) by {
            if i < before.len() - 1 {
                assert(joined(edge_set(edges), before, i));
            } else {
                assert(p[i] == u && p[i + 1] == v);
            }
        }
        p
    }
}

/// Along a walk from a labelled node every node is labelled, and each lies at
/// most one deeper than the node before it.
pub proof fn lemma_walk_depth(depth: Seq<Option<usize>>, edges: Map<int, (int, int)>, root: int, p: Seq<int>, k: int)
    requires
        is_level_map(depth, edges, root),
        is_path(edge_set(edges), p),
        0 <= p[0] < depth.len(),
        depth[p[0]] is Some,
        0 <= k < p.len(),
    ensures
        0 <= p[k] < depth.len(),
        depth[p[k]] is Some,
        depth[p[k]]->0 <= depth[p[0]]->0 + k,
    decreases k,
{
    if k > 0 {
        lemma_walk_depth(depth, edges, root, p, k - 1);
        assert(joined(edge_set(edges), p, k - 1));
        assert(has_edge(edges, p[k - 1], p[k]));
    }
}

/// The depth of a node is its distance from the root: the nodes with a depth are
/// those that can be reached, a walk with as many edges as the depth leads to
/// the node, and no walk from the root to it has fewer.
pub proof fn lemma_depth_is_distance(gd: GraphData, v: int, p: Seq<int>)
    requires
        gd.wf(),
        0 <= v < gd.node_count(),
    ensures
        gd.depth_map@[v] is Some <==> reachable(edge_set(gd.edges()), gd.root as int, v),
        gd.depth_map@[v] is Some && path_between(edge_set(gd.edges()), p, gd.root as int, v)
            ==> p.len() >= gd.depth_map@[v]->0 + 1,
        gd.depth_map@[v] is Some ==> exists|w: Seq<int>|
            #[trigger] path_between(edge_set(gd.edges()), w, gd.root as int, v) && w.len()
                == gd.depth_map@[v]->0 + 1,
{
    reveal(reachable);
    let depth = gd.depth_map@;
    let edges = gd.edges();
    let root = gd.root as int;
    if depth[v] is Some {
        let w = lemma_depth_has_walk(depth, edges, root, v);
        assert(path_between(edge_set(edges), w, root, v));
        if path_between(edge_set(edges), p, root, v) {
            lemma_walk_depth(depth, edges, root, p, p.len() - 1);
        }
    }
    if reachable(edge_set(edges), root, v) {
        let w = choose|w: Seq<int>| #[trigger] path_between(edge_set(edges), w, root, v);
        lemma_walk_depth(depth, edges, root, w, w.len() - 1);
    }
}


/// In the liveness tables of a program every register with a defining block is
/// defined by exactly one instruction, which stands in that block.
pub proof fn lemma_described_definition(gq: GraphQuery, blocks: Seq<BlockView>, count: usize, r: int)
    requires
        gq.describes(blocks, count),
        gq.def_of(r) is Some,
    ensures
        exists|j: int|
            #![trigger defines_at(blocks, gq.def_of(r)->0 as int, j, r as usize)]
            defines_at(blocks, gq.def_of(r)->0 as int, j, r as usize) && forall|d2: int, j2: int| #[trigger]
                defines_at(blocks, d2, j2, r as usize) ==> d2 == gq.def_of(r)->0 && j2 == j,
{
    let n = blocks.len() as int;
    let d = gq.def_of(r)->0 as int;
    assert(defined_in_before(blocks, d, r as usize, n, 0));
    let j = choose|j: int| before(d, j, n, 0) && #[trigger] defines_at(blocks, d, j, r as usize);
    assert forall|d2: int, j2: int| #[trigger] defines_at(blocks, d2, j2, r as usize) implies d2 == d
        && j2 == j by {
        assert(before(d2, j2, n, 0));
        assert(defines_at(blocks, d, j, r as usize) && defines_at(blocks, d2, j2, r as usize));
    }
}

} // verus!
