//! The graph the engine runs on, and its mathematical model.

use petgraph::graph::NodeIndex;
use petgraph::visit::EdgeRef;
use vstd::prelude::*;

use crate::nodes::{AsyncNode, SyncNode};
use crate::value::Value;

verus! {

/// What a node of the graph is.
pub enum GraphNode {
    /// A cell that holds the value most recently committed to it.
    Store(Value),
    /// A computation that runs to completion when invoked.
    SyncNode(Box<dyn SyncNode>),
    /// A computation whose invocation completes later.
    AsyncNode(Box<dyn AsyncNode>),
}

/// What an edge of the graph means.
#[derive(Clone, Copy, Debug, PartialEq, Eq, Structural)]
pub enum GraphEdge {
    /// Binds a store to a position: into a computation node, the position of
    /// an argument; out of one, the position of a result.
    DataMap(usize),
    /// The target store mirrors the source store.
    DataFlow,
    /// Completion of the source computation makes the target eligible.
    ExecutionFlow,
}

/// The side of a node on which an edge lies.
#[derive(Clone, Copy, Debug, PartialEq, Eq, Structural)]
pub enum Direction {
    /// The edge starts at the node.
    Outgoing,
    /// The edge ends at the node.
    Incoming,
}

/// petgraph's `Graph`, taken as it is. The verifier sees nothing inside a
/// graph: what one holds is named by [`graph_nodes`].
#[verifier::external_type_specification]
#[verifier::external_body]
#[verifier::reject_recursive_types(N)]
#[verifier::reject_recursive_types(E)]
#[verifier::reject_recursive_types(Ty)]
#[verifier::reject_recursive_types(Ix)]
pub struct ExGraph<N, E, Ty, Ix>(petgraph::graph::Graph<N, E, Ty, Ix>);

/// petgraph's marker of graphs with directed edges.
#[verifier::external_type_specification]
#[verifier::external_body]
pub struct ExDirected(petgraph::Directed);

/// petgraph's `NodeIndex`, the handle of a node. The position it
/// addresses is named by [`node_position`].
#[verifier::external_type_specification]
#[verifier::external_body]
#[verifier::reject_recursive_types(Ix)]
pub struct ExNodeIndex<Ix>(NodeIndex<Ix>);

/// The directed graph of stores and computation nodes.
pub type FlowGraph = petgraph::graph::Graph<GraphNode, GraphEdge>;

/// An edge as seen from one of its ends.
pub struct Link {
    pub edge: GraphEdge,
    /// Position of the node the edge starts at.
    pub source: nat,
    /// Position of the node the edge ends at.
    pub target: nat,
}

/// One node of the model: what it is, and the edges that end and start at
/// it, each list in the order in which the graph walks it.
pub struct NodeEntry {
    pub weight: GraphNode,
    pub incoming: Seq<Link>,
    pub outgoing: Seq<Link>,
}

/// The nodes of a graph by position.
pub type GraphModel = Seq<NodeEntry>;

/// What a graph holds: at position `i` the weight of the node of index
/// `i`, the edges that end at that node and the edges that start at it,
/// each list in the order in which `Graph::edges_directed` walks it.
pub uninterp spec fn graph_nodes(g: FlowGraph) -> Seq<NodeEntry>;

/// The number of edges that a graph holds, as `Graph::edge_count` gives it.
pub uninterp spec fn graph_edge_count(g: FlowGraph) -> nat;

/// The position that a node handle addresses, as `NodeIndex::index`
/// gives it.
pub uninterp spec fn node_position(a: NodeIndex) -> nat;

/// The edges that end at position `p`, in walk order; none if `p` is no node.
pub open spec fn incoming_of(m: GraphModel, p: nat) -> Seq<Link> {
    if p < m.len() {
        m[p as int].incoming
    } else {
        Seq::empty()
    }
}

/// The edges that start at position `p`, in walk order; none if `p` is no node.
pub open spec fn outgoing_of(m: GraphModel, p: nat) -> Seq<Link> {
    if p < m.len() {
        m[p as int].outgoing
    } else {
        Seq::empty()
    }
}

/// The edges on one side of position `p`, in walk order.
pub open spec fn links_at(m: GraphModel, p: nat, side: Direction) -> Seq<Link> {
    match side {
        Direction::Outgoing => outgoing_of(m, p),
        Direction::Incoming => incoming_of(m, p),
    }
}

/// The model with the node at position `p` replaced by `weight`; its edges
/// stay. Where `p` is no node, the model itself.
pub open spec fn with_weight(m: GraphModel, p: nat, weight: GraphNode) -> GraphModel {
    if p < m.len() {
        m.update(p as int, NodeEntry { weight, incoming: m[p as int].incoming, outgoing: m[p as int].outgoing })
    } else {
        m
    }
}

/// The model with an edge of weight `edge` from position `a` to position
/// `b` added: it comes first among the edges that start at `a`, and first
/// among those that end at `b`.
pub open spec fn with_edge(m: GraphModel, a: nat, b: nat, edge: GraphEdge) -> GraphModel
    recommends
        a < m.len(),
        b < m.len(),
{
    let link = Link { edge, source: a, target: b };
    let from = m[a as int];
    let started = m.update(
        a as int,
        NodeEntry { weight: from.weight, incoming: from.incoming, outgoing: seq![link] + from.outgoing },
    );
    let to = started[b as int];
    started.update(
        b as int,
        NodeEntry { weight: to.weight, incoming: seq![link] + to.incoming, outgoing: to.outgoing },
    )
}

/// An edge as the graph hands it out: its weight, and the handles of the
/// nodes it starts and ends at.
pub type Edge = (GraphEdge, NodeIndex, NodeIndex);

/// The link that an edge is.
pub open spec fn link_of(e: Edge) -> Link {
    Link { edge: e.0, source: node_position(e.1), target: node_position(e.2) }
}

/// The links that a list of edges is.
pub open spec fn links_of(edges: Seq<Edge>) -> Seq<Link> {
    edges.map_values(|e: Edge| link_of(e))
}

/// `Graph::node_count`: the number of nodes.
#[verifier::external_body]
pub(crate) fn node_count(g: &FlowGraph) -> (r: usize)
    ensures
        r == graph_nodes(*g).len(),
{
    g.node_count()
}

/// `Graph::edge_count`: the number of edges.
#[verifier::external_body]
pub(crate) fn edge_count(g: &FlowGraph) -> (r: usize)
    ensures
        r == graph_edge_count(*g),
{
    g.edge_count()
}

/// `Graph::node_weight`: the weight of the node that `a` addresses, or
/// nothing when `a` addresses no node.
#[verifier::external_body]
pub(crate) fn node_weight(g: &FlowGraph, a: NodeIndex) -> (r: Option<&GraphNode>)
    ensures
        node_position(a) < graph_nodes(*g).len() ==> r == Some(&graph_nodes(*g)[node_position(a) as int].weight),
        node_position(a) >= graph_nodes(*g).len() ==> r is None,
{
    g.node_weight(a)
}

/// Indexed assignment on `Graph` (`IndexMut<NodeIndex>`): replaces the
/// weight of an existing node and touches nothing else.
#[verifier::external_body]
pub(crate) fn set_node_weight(g: &mut FlowGraph, a: NodeIndex, weight: GraphNode)
    requires
        node_position(a) < graph_nodes(*old(g)).len(),
    ensures
        graph_nodes(*final(g)) == with_weight(graph_nodes(*old(g)), node_position(a), weight),
        graph_edge_count(*final(g)) == graph_edge_count(*old(g)),
{
    g[a] = weight;
}

/// `Graph::edges_directed`: the edges that end at `a`, or those that
/// start at it, each as weight, source and target, in the order in which
/// the graph walks them; none where `a` addresses no node.
#[verifier::external_body]
pub(crate) fn edges_directed(g: &FlowGraph, a: NodeIndex, side: Direction) -> (r: Vec<Edge>)
    ensures
        links_of(r@) == links_at(graph_nodes(*g), node_position(a), side),
{
    let side = match side {
        Direction::Outgoing => petgraph::Direction::Outgoing,
        Direction::Incoming => petgraph::Direction::Incoming,
    };
    g.edges_directed(a, side).map(|e| (*e.weight(), e.source(), e.target())).collect()
}

/// Hands a node weight through unchanged. A weight that was built around
/// a trait object in place is known to the verifier as a value of its type
/// only once it has crossed a function boundary.
pub(crate) fn typed(weight: GraphNode) -> (r: GraphNode)
    ensures
        r == weight,
{
    weight
}

/// `Graph::add_node`: appends a node without edges and returns its handle.
/// The graph refuses a node once it holds `u32::MAX` of them.
#[verifier::external_body]
pub(crate) fn add_node(g: &mut FlowGraph, weight: GraphNode) -> (r: NodeIndex)
    requires
        graph_nodes(*old(g)).len() < u32::MAX,
    ensures
        node_position(r) == graph_nodes(*old(g)).len(),
        graph_nodes(*final(g)) == graph_nodes(*old(g)).push(
            NodeEntry { weight, incoming: Seq::empty(), outgoing: Seq::empty() },
        ),
        graph_edge_count(*final(g)) == graph_edge_count(*old(g)),
{
    g.add_node(weight)
}

/// `Graph::add_edge`: adds an edge between two existing nodes, at the head
/// of the edge lists of both. The graph refuses an edge once it holds
/// `u32::MAX` of them.
#[verifier::external_body]
pub(crate) fn add_edge(g: &mut FlowGraph, a: NodeIndex, b: NodeIndex, edge: GraphEdge)
    requires
        node_position(a) < graph_nodes(*old(g)).len(),
        node_position(b) < graph_nodes(*old(g)).len(),
        graph_edge_count(*old(g)) < u32::MAX,
    ensures
        graph_nodes(*final(g)) == with_edge(graph_nodes(*old(g)), node_position(a), node_position(b), edge),
        graph_edge_count(*final(g)) == graph_edge_count(*old(g)) + 1,
{
    g.add_edge(a, b, edge);
}

} // verus!
