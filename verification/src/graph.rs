//! The character graph of the name model, kept in a `petgraph` graph.
//!
//! Nodes are named by their index, which `petgraph` gives out in order of
//! creation. Node and edge indices are of type `usize`, so the graph has no
//! capacity of its own to run out of.

use petgraph::graph::{Graph, NodeIndex};
use petgraph::Directed;
use vstd::prelude::*;

verus! {

/// `petgraph::graph::Graph`, carried as a value of which only the wrappers
/// below say anything.
#[verifier::external_type_specification]
#[verifier::external_body]
#[verifier::reject_recursive_types(N)]
#[verifier::reject_recursive_types(E)]
#[verifier::reject_recursive_types(Ty)]
#[verifier::reject_recursive_types(Ix)]
pub struct ExGraph<N, E, Ty, Ix>(Graph<N, E, Ty, Ix>);

/// `petgraph::Directed`, the marker of graphs whose edges have a direction.
#[verifier::external_type_specification]
#[verifier::external_body]
pub struct ExDirected(Directed);

/// The labels of the nodes of a graph, each at the index of its node.
pub uninterp spec fn graph_labels(graph: Graph<char, (), Directed, usize>) -> Seq<char>;

/// The edges of a graph as pairs of source and target, in the order in which
/// they were added.
pub uninterp spec fn graph_edges(graph: Graph<char, (), Directed, usize>) -> Seq<(usize, usize)>;

/// The targets of the edges that leave `node`, the most recently added edge
/// first.
pub open spec fn successors(edges: Seq<(usize, usize)>, node: usize) -> Seq<usize>
    decreases edges.len(),
{
    if edges.len() == 0 {
        Seq::empty()
    } else if edges.last().0 == node {
        seq![edges.last().1] + successors(edges.drop_last(), node)
    } else {
        successors(edges.drop_last(), node)
    }
}

/// `Graph::with_capacity`, asked for no capacity: a graph without nodes or
/// edges.
#[verifier::external_body]
pub(crate) fn graph_new() -> (graph: Graph<char, (), Directed, usize>)
    ensures
        graph_labels(graph) == Seq::<char>::empty(),
        graph_edges(graph) == Seq::<(usize, usize)>::empty(),
{
    Graph::with_capacity(0, 0)
}

/// `Graph::add_node`: adds a node with the given label after the existing
/// ones and returns its index; the edges stay as they are.
#[verifier::external_body]
pub(crate) fn graph_add_node(graph: &mut Graph<char, (), Directed, usize>, label: char) -> (node:
    usize)
    ensures
        node == graph_labels(*old(graph)).len(),
        graph_labels(*final(graph)) == graph_labels(*old(graph)).push(label),
        graph_edges(*final(graph)) == graph_edges(*old(graph)),
{
    graph.add_node(label).index()
}

/// `Graph::node_weight`: the label of a node, or `None` past the last node.
#[verifier::external_body]
pub(crate) fn graph_node_weight(graph: &Graph<char, (), Directed, usize>, node: usize) -> (label:
    Option<char>)
    ensures
        label == (if node < graph_labels(*graph).len() {
            Some(graph_labels(*graph)[node as int])
        } else {
            None
        }),
{
    graph.node_weight(NodeIndex::new(node)).copied()
}

/// `Graph::update_edge`: adds an edge from `a` to `b` unless there is one;
/// the nodes stay as they are. Both nodes must exist.
#[verifier::external_body]
pub(crate) fn graph_update_edge(graph: &mut Graph<char, (), Directed, usize>, a: usize, b: usize)
    requires
        a < graph_labels(*old(graph)).len(),
        b < graph_labels(*old(graph)).len(),
    ensures
        graph_labels(*final(graph)) == graph_labels(*old(graph)),
        graph_edges(*final(graph)) == (if graph_edges(*old(graph)).contains((a, b)) {
            graph_edges(*old(graph))
        } else {
            graph_edges(*old(graph)).push((a, b))
        }),
{
    graph.update_edge(NodeIndex::new(a), NodeIndex::new(b), ());
}

/// `Graph::neighbors`: the nodes that `node` has an edge to, the most
/// recently added edge first; none for a node that does not exist.
#[verifier::external_body]
pub(crate) fn graph_neighbors(graph: &Graph<char, (), Directed, usize>, node: usize) -> (targets:
    Vec<usize>)
    ensures
        targets@ == successors(graph_edges(*graph), node),
{
    graph.neighbors(NodeIndex::new(node)).map(|n| n.index()).collect()
}

} // verus!
