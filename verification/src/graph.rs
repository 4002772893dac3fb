//! The directed graph that holds a correlation: `petgraph`'s `Graph`, with
//! the position of an event as the weight of its node and no edge weight.
//!
//! The graph is reached through the functions below only.  Their contracts
//! speak of two sequences: the node weights by node index, and the edges as
//! pairs of source and target by edge index, that is in the order in which
//! they were added.  Nodes and edges are added and never removed, so that
//! the graph's own lists of the edges of a node run against that order.

use vstd::prelude::*;

verus! {

/// `petgraph::Directed`, the marker type of graphs whose edges have a
/// direction.  It has no values.
#[verifier::external_type_specification]
#[verifier::external_body]
pub struct ExDirected(petgraph::Directed);

/// `petgraph::graph::Graph`, declared without its fields: what a graph holds
/// is known through `graph_nodes` and `graph_edges` only.
#[verifier::external_type_specification]
#[verifier::external_body]
#[verifier::reject_recursive_types(N)]
#[verifier::reject_recursive_types(E)]
#[verifier::reject_recursive_types(Ty)]
#[verifier::reject_recursive_types(Ix)]
pub struct ExGraph<N, E, Ty, Ix>(petgraph::graph::Graph<N, E, Ty, Ix>);

/// A directed graph with `usize` node weights, indexed by `usize`.
pub type EventGraph = petgraph::graph::Graph<usize, (), petgraph::Directed, usize>;

/// The node weights of a graph, by node index.
pub uninterp spec fn graph_nodes(g: EventGraph) -> Seq<usize>;

/// The edges of a graph as pairs of source and target node index, by edge
/// index.  An edge that was added later has the greater index.
pub uninterp spec fn graph_edges(g: EventGraph) -> Seq<(usize, usize)>;

/// The targets of the edges that leave `a`, the edge added last first.
pub open spec fn targets_from(edges: Seq<(usize, usize)>, a: usize) -> Seq<usize>
    decreases edges.len(),
{
    if edges.len() == 0 {
        Seq::empty()
    } else if edges.last().0 == a {
        seq![edges.last().1] + targets_from(edges.drop_last(), a)
    } else {
        targets_from(edges.drop_last(), a)
    }
}

/// `Graph::with_capacity(0, 0)`: a graph without nodes and edges.
#[verifier::external_body]
pub(crate) fn graph_new() -> (g: EventGraph)
    ensures
        graph_nodes(g) == Seq::<usize>::empty(),
        graph_edges(g) == Seq::<(usize, usize)>::empty(),
{
    petgraph::graph::Graph::with_capacity(0, 0)
}

/// `Graph::add_node`: appends a node with the given weight and returns its
/// index, which is the number of nodes before the call.  The edges stay.
/// With `usize` indices the call has no limit on the number of nodes.
#[verifier::external_body]
pub(crate) fn graph_add_node(g: &mut EventGraph, weight: usize) -> (index: usize)
    ensures
        graph_nodes(*final(g)) == graph_nodes(*old(g)).push(weight),
        graph_edges(*final(g)) == graph_edges(*old(g)),
        index == graph_nodes(*old(g)).len(),
{
    g.add_node(weight).index()
}

/// `Graph::add_edge`: appends an edge from `a` to `b`, also where one from
/// `a` to `b` exists already.  The nodes stay.  The call panics when one of
/// the two nodes does not exist, which `requires` leaves out; with `usize`
/// indices it has no limit on the number of edges.
#[verifier::external_body]
pub(crate) fn graph_add_edge(g: &mut EventGraph, a: usize, b: usize)
    requires
        a < graph_nodes(*old(g)).len(),
        b < graph_nodes(*old(g)).len(),
    ensures
        graph_nodes(*final(g)) == graph_nodes(*old(g)),
        graph_edges(*final(g)) == graph_edges(*old(g)).push((a, b)),
{
    g.add_edge(petgraph::graph::NodeIndex::new(a), petgraph::graph::NodeIndex::new(b), ());
}

/// `Graph::contains_edge`: whether some edge leads from `a` to `b`.  For a
/// node that does not exist the answer is no.
#[verifier::external_body]
pub(crate) fn graph_contains_edge(g: &EventGraph, a: usize, b: usize) -> (found: bool)
    ensures
        found == graph_edges(*g).contains((a, b)),
{
    g.contains_edge(petgraph::graph::NodeIndex::new(a), petgraph::graph::NodeIndex::new(b))
}

/// `Graph::edges_directed` with `Outgoing`: the edges that leave `a`, of
/// which the target is taken.  The graph lists them in reverse order of
/// their addition, and lists none for a node that does not exist.
#[verifier::external_body]
pub(crate) fn graph_targets(g: &EventGraph, a: usize) -> (out: Vec<usize>)
    ensures
        out@ == targets_from(graph_edges(*g), a),
{
    g.edges_directed(petgraph::graph::NodeIndex::new(a), petgraph::Direction::Outgoing)
        .map(|edge| petgraph::visit::EdgeRef::target(&edge).index())
        .collect()
}

/// `Graph::node_count`: the number of nodes.
#[verifier::external_body]
pub(crate) fn graph_node_count(g: &EventGraph) -> (count: usize)
    ensures
        count == graph_nodes(*g).len(),
{
    g.node_count()
}

/// `Graph::edge_count`: the number of edges.
#[verifier::external_body]
pub(crate) fn graph_edge_count(g: &EventGraph) -> (count: usize)
    ensures
        count == graph_edges(*g).len(),
{
    g.edge_count()
}

/// `Graph::node_weight`: the weight of node `a`, or nothing where the graph
/// has no such node.
#[verifier::external_body]
pub(crate) fn graph_node_weight(g: &EventGraph, a: usize) -> (weight: Option<usize>)
    ensures
        weight == if a < graph_nodes(*g).len() {
            Some(graph_nodes(*g)[a as int])
        } else {
            None
        },
{
    g.node_weight(petgraph::graph::NodeIndex::new(a)).copied()
}

} // verus!
