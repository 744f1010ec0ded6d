//! The dependency graph of a pipeline, held in a petgraph `Graph` and ordered
//! by petgraph's topological sort. Everything petgraph does is reached
//! through the trusted items of this module.

use petgraph::graph::{Graph, NodeIndex};
use petgraph::Directed;
use vstd::prelude::*;

verus! {

#[verifier::external_type_specification]
#[verifier::external_body]
#[verifier::reject_recursive_types(N)]
#[verifier::reject_recursive_types(E)]
#[verifier::reject_recursive_types(Ty)]
#[verifier::reject_recursive_types(Ix)]
pub struct ExGraph<N, E, Ty, Ix>(Graph<N, E, Ty, Ix>);

#[verifier::external_type_specification]
#[verifier::external_body]
pub struct ExDirected(Directed);

/// The number of nodes that a dependency graph holds.
pub uninterp spec fn graph_node_count(g: Graph<(), (), Directed, usize>) -> nat;

/// The edges of a dependency graph, as (source, target) node indices in the
/// order they were added.
pub uninterp spec fn graph_edges(g: Graph<(), (), Directed, usize>) -> Seq<(usize, usize)>;

/// `order` lists each of the nodes `0..n` exactly once, and every edge of
/// `edges` goes from a node listed earlier to a node listed later.
pub open spec fn is_topological_order(n: nat, edges: Seq<(usize, usize)>, order: Seq<usize>) -> bool {
    &&& order.len() == n
    &&& order.no_duplicates()
    &&& forall|i: int| 0 <= i < order.len() ==> #[trigger] order[i] < n
    &&& forall|i: int, j: int|
        0 <= i < order.len() && 0 <= j < order.len() && edges.contains((order[i], order[j])) ==> i
            < j
}

/// Calls petgraph's `Graph::default`, which makes a graph with no nodes and no
/// edges; this is what the contract claims of it.
#[verifier::external_body]
pub(crate) fn empty_graph() -> (g: Graph<(), (), Directed, usize>)
    ensures
        graph_node_count(g) == 0,
        graph_edges(g) == Seq::<(usize, usize)>::empty(),
{
    Graph::default()
}

/// Calls petgraph's `Graph::add_node`. The contract claims what its source
/// shows: the new node's index is the old node count, the count grows by one
/// and the edges stay. With `usize` indices it never panics.
#[verifier::external_body]
pub(crate) fn add_graph_node(g: &mut Graph<(), (), Directed, usize>) -> (index: usize)
    ensures
        index == graph_node_count(*old(g)),
        graph_node_count(*final(g)) == graph_node_count(*old(g)) + 1,
        graph_edges(*final(g)) == graph_edges(*old(g)),
{
    g.add_node(()).index()
}

/// Calls petgraph's `Graph::add_edge` from node `a` to node `b`. It panics
/// when a node does not exist, so both are required to; the contract claims
/// that the edge is appended and the nodes stay.
#[verifier::external_body]
pub(crate) fn add_graph_edge(g: &mut Graph<(), (), Directed, usize>, a: usize, b: usize)
    requires
        a < graph_node_count(*old(g)),
        b < graph_node_count(*old(g)),
    ensures
        graph_node_count(*final(g)) == graph_node_count(*old(g)),
        graph_edges(*final(g)) == graph_edges(*old(g)).push((a, b)),
{
    g.add_edge(NodeIndex::new(a), NodeIndex::new(b), ());
}

/// Calls petgraph's `algo::toposort`, keeping node indices. Its documentation
/// promises a topological order when the graph is acyclic and a `Cycle` error
/// otherwise; the contract claims exactly that: `Some` holds a topological
/// order, `None` comes only when no topological order exists. Which of the
/// topological orders is returned is left unsaid.
#[verifier::external_body]
pub(crate) fn topological_sort(g: &Graph<(), (), Directed, usize>) -> (r: Option<Vec<usize>>)
    ensures
        r matches Some(order) ==> is_topological_order(graph_node_count(*g), graph_edges(*g), order@),
        r is None ==> !exists|order: Seq<usize>|
            is_topological_order(graph_node_count(*g), graph_edges(*g), order),
{
    match petgraph::algo::toposort(g, None) {
        Ok(order) => Some(order.into_iter().map(|n| n.index()).collect()),
        Err(_) => None,
    }
}

} // verus!
