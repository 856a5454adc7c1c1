//! The trusted boundary to the graph provider.
//!
//! The graph itself lives in the `handlegraph` crate; this module declares
//! its `HashGraph` type, names what it holds, and wraps the few read-only
//! queries the traversal makes.

use vstd::prelude::*;
use crate::seqs::sorted_le;
use handlegraph::handle::{Direction, Edge, Handle, NodeId};
use handlegraph::handlegraph::HandleGraph;
use handlegraph::hashgraph::HashGraph;
use itertools::Itertools;

verus! {

#[verifier::external_type_specification]
#[verifier::external_body]
pub struct ExHashGraph(HashGraph);

/// The packed integer values of the forward handles of the graph's nodes:
/// one even value, node identifier times two, per node.
pub uninterp spec fn graph_handles(g: HashGraph) -> Set<u64>;

/// The packed integer values of the rightward neighbors of the handle with
/// the given packed integer value.
pub uninterp spec fn graph_succ(g: HashGraph, h: u64) -> Set<u64>;

/// Every node identifier in the graph's node map lies below 2^63, the
/// range that the provider can pack into a handle.
pub uninterp spec fn graph_ids_packable(g: HashGraph) -> bool;

/// The pairs of packed handle values of the graph's edges, as the
/// provider's edge iterator yields them: each edge once, in canonical
/// orientation.
pub uninterp spec fn graph_edges(g: HashGraph) -> Set<(u64, u64)>;

/// The node a handle points at is present in the graph: the forward handle
/// with the same node identifier is among the graph's handles.
pub open spec fn node_exists(g: HashGraph, h: u64) -> bool {
    graph_handles(g).contains(((h / 2) * 2) as u64)
}

/// The node identifier lies below 2^63, the range the provider's
/// `Handle::pack` accepts.
pub(crate) fn id_fits(id: u64) -> (r: bool)
    ensures
        r == (id < 0x8000_0000_0000_0000u64),
{
    id < 0x8000_0000_0000_0000u64
}

/// Relies on the provider's public node map (`HashGraph::graph`): reports
/// whether every node identifier lies below 2^63. `Handle::pack`, which
/// `handles_iter` and `edges_iter` apply to each identifier, panics at or
/// above that bound, so the packable graphs are exactly the ones those
/// iterators can walk.
#[verifier::external_body]
pub(crate) fn ids_packable(g: &HashGraph) -> (r: bool)
    ensures
        r == graph_ids_packable(*g),
{
    g.graph.keys().all(|id: &NodeId| id_fits(u64::from(*id)))
}

/// Relies on handlegraph's `HandleGraph::handles_iter` for `HashGraph`: it
/// yields the forward handle of each node of the graph exactly once, packed
/// as the node identifier shifted left by one (hence even), in no promised
/// order. It packs with `Handle::pack`, which panics for a node identifier
/// at or above 2^63, hence the requires.
#[verifier::external_body]
pub(crate) fn handles_vec(g: &HashGraph) -> (r: Vec<u64>)
    requires
        graph_ids_packable(*g),
    ensures
        forall|x: u64| r@.contains(x) <==> graph_handles(*g).contains(x),
        forall|x: u64| r@.contains(x) ==> x % 2 == 0,
{
    g.handles_iter().map(|h: Handle| h.as_integer()).collect()
}

/// Relies on handlegraph's `HandleGraph::edges_iter` for `HashGraph`: it
/// yields each edge of the graph in canonical orientation, in no promised
/// order. It walks `handles_iter`, whose `Handle::pack` panics for a node
/// identifier at or above 2^63, hence the requires.
#[verifier::external_body]
pub(crate) fn edges_vec(g: &HashGraph) -> (r: Vec<(u64, u64)>)
    requires
        graph_ids_packable(*g),
    ensures
        forall|e: (u64, u64)| r@.contains(e) <==> graph_edges(*g).contains(e),
{
    g.edges_iter().map(|e: Edge| (e.0.as_integer(), e.1.as_integer())).collect()
}

/// Relies on handlegraph's `HandleGraph::has_node` for `HashGraph`: it tells
/// whether the node with the given identifier (the packed value shifted
/// right by one) is present in the graph.
#[verifier::external_body]
pub(crate) fn has_node(g: &HashGraph, h: u64) -> (r: bool)
    ensures
        r == graph_handles(*g).contains(((h / 2) * 2) as u64),
{
    g.has_node(NodeId::from(h >> 1))
}

/// Relies on handlegraph's `HandleGraph::handle_edges_iter` for `HashGraph`
/// with `Direction::Right`: it yields the handles reachable from the given
/// handle by following its edges rightward. It looks the node up with
/// `get_node_unsafe`, which panics when the node is absent, hence the
/// requires.
#[verifier::external_body]
pub(crate) fn neighbors_fwd(g: &HashGraph, h: u64) -> (r: Vec<u64>)
    requires
        node_exists(*g, h),
    ensures
        forall|x: u64| r@.contains(x) <==> graph_succ(*g, h).contains(x),
{
    g.handle_edges_iter(Handle::from_integer(h), Direction::Right)
        .map(|n: Handle| n.as_integer())
        .collect()
}

/// Relies on itertools' `sorted`: the result holds the same elements as the
/// input, rearranged into ascending order.
#[verifier::external_body]
pub(crate) fn sorted_vec(v: Vec<u64>) -> (r: Vec<u64>)
    ensures
        sorted_le(r@),
        forall|x: u64| r@.contains(x) <==> v@.contains(x),
{
    v.into_iter().sorted().collect()
}

} // verus!
