//! The shape of the self-play graph, kept in a `StableGraph` of `petgraph`.
//!
//! The graph holds numbers only: the weight of a node or an edge is the place
//! of its payload in a table of the library. The verifier sees a
//! `StableGraph` as an opaque value; `node_slots` and `edge_slots` name what
//! it holds, and the contracts of the wrappers below say, in those terms, what
//! the methods of `petgraph` do. These contracts are taken on trust.

use petgraph::stable_graph::StableGraph;
use vstd::prelude::*;

verus! {

#[verifier::external_type_specification]
#[verifier::external_body]
#[verifier::reject_recursive_types(N)]
#[verifier::reject_recursive_types(E)]
#[verifier::reject_recursive_types(Ty)]
#[verifier::reject_recursive_types(Ix)]
pub struct ExStableGraph<N, E, Ty, Ix>(petgraph::stable_graph::StableGraph<N, E, Ty, Ix>);

#[verifier::external_type_specification]
#[verifier::external_body]
pub struct ExDirected(petgraph::Directed);

/// The node slots of a graph, by index: `Some` with the weight where there is
/// a node, `None` where a node was removed and the slot is vacant.
pub uninterp spec fn node_slots(graph: StableGraph<usize, usize>) -> Seq<Option<usize>>;

/// The edge slots of a graph, by index: `Some` with the indices of the source
/// and the target node and the weight where there is an edge, `None` where the
/// slot is vacant.
pub uninterp spec fn edge_slots(graph: StableGraph<usize, usize>) -> Seq<Option<(int, int, usize)>>;

/// The greatest number of nodes, and of edges, that a graph indexed by `u32`
/// takes: one index is set aside to mean "none".
pub const INDEX_LIMIT: usize = 0xFFFF_FFFF;

/// `slots` is `before` with `item` put at `index`: into a vacant slot, or
/// into a new slot at the end.
pub open spec fn put_at<T>(slots: Seq<Option<T>>, before: Seq<Option<T>>, index: int, item: T) -> bool {
    ||| index == before.len() && slots == before.push(Some(item))
    ||| 0 <= index < before.len() && before[index] is None && slots == before.update(
        index,
        Some(item),
    )
}

/// Whether one of the edges in `slots` leads from node `source` to node
/// `target` and has `weight`.
pub open spec fn joins(
    slots: Seq<Option<(int, int, usize)>>,
    source: int,
    target: int,
    weight: usize,
) -> bool {
    exists|e: int| 0 <= e < slots.len() && #[trigger] slots[e] == Some((source, target, weight))
}

/// `StableGraph::new`: a directed graph without nodes and edges.
#[verifier::external_body]
pub(crate) fn new_graph() -> (graph: StableGraph<usize, usize>)
    ensures
        node_slots(graph).len() == 0,
        edge_slots(graph).len() == 0,
{
    StableGraph::new()
}

/// `StableGraph::add_node`: puts a node with `weight` into the graph and
/// returns its index. The node takes a vacant slot if there is one, else a new
/// slot at the end. The edges stay as they are. The method panics when a new
/// slot would get the index that is set aside, which the bound on the slots
/// rules out.
#[verifier::external_body]
pub(crate) fn add_node(graph: &mut StableGraph<usize, usize>, weight: usize) -> (index: usize)
    requires
        node_slots(*old(graph)).len() < INDEX_LIMIT,
    ensures
        put_at(node_slots(*final(graph)), node_slots(*old(graph)), index as int, weight),
        edge_slots(*final(graph)) == edge_slots(*old(graph)),
{
    graph.add_node(weight).index()
}

/// `StableGraph::add_edge`: puts an edge from node `source` to node `target`
/// with `weight` into the graph and returns its index. The edge takes a vacant
/// slot if there is one, else a new slot at the end. The nodes stay as they
/// are. The method panics if one of the nodes does not exist or when a new
/// slot would get the index that is set aside; both are ruled out.
#[verifier::external_body]
pub(crate) fn add_edge(
    graph: &mut StableGraph<usize, usize>,
    source: usize,
    target: usize,
    weight: usize,
) -> (index: usize)
    requires
        source < node_slots(*old(graph)).len(),
        target < node_slots(*old(graph)).len(),
        node_slots(*old(graph))[source as int] is Some,
        node_slots(*old(graph))[target as int] is Some,
        node_slots(*old(graph)).len() <= INDEX_LIMIT,
        edge_slots(*old(graph)).len() < INDEX_LIMIT,
    ensures
        put_at(
            edge_slots(*final(graph)),
            edge_slots(*old(graph)),
            index as int,
            (source as int, target as int, weight),
        ),
        node_slots(*final(graph)) == node_slots(*old(graph)),
{
    graph.add_edge(
        petgraph::stable_graph::NodeIndex::new(source),
        petgraph::stable_graph::NodeIndex::new(target),
        weight,
    ).index()
}

/// `StableGraph::edges_connecting`: the weights of all edges that lead from
/// node `source` to node `target`. There is one entry for each such edge.
#[verifier::external_body]
pub(crate) fn connecting(
    graph: &StableGraph<usize, usize>,
    source: usize,
    target: usize,
) -> (found: Vec<usize>)
    requires
        source < node_slots(*graph).len() <= INDEX_LIMIT,
        target < node_slots(*graph).len(),
    ensures
        forall|weight: usize|
            #[trigger] found@.contains(weight) <==> joins(
                edge_slots(*graph),
                source as int,
                target as int,
                weight,
            ),
{
    graph.edges_connecting(
        petgraph::stable_graph::NodeIndex::new(source),
        petgraph::stable_graph::NodeIndex::new(target),
    ).map(|edge| *edge.weight()).collect()
}

} // verus!
