//! Nodes that generate text with a language model.

use petgraph::graph::NodeIndex;
use std::sync::Arc;
use vstd::prelude::*;
use vstd::std_specs::convert::FromSpecImpl;
use vstd::string::StringExecFns;

use crate::execution::model::{input_bindings, output_bindings};
use crate::execution::step::{bound_stores, input_stores, output_stores};
use crate::graph::{
    add_edge, add_node, edge_count, edges_directed, graph_edge_count, graph_nodes, node_count,
    node_position, typed, with_edge, Direction, FlowGraph, GraphEdge, GraphModel, GraphNode, Link,
    NodeEntry,
};
use crate::nodes::{AsyncNode, Deferred, GetStoreError, NodeError, StoreWrapper};
use crate::value::{Value, ValueView};

verus! {

/// The handle of a text generation node in a graph.
#[derive(Debug, Clone, Copy)]
pub struct Llm(pub NodeIndex);

impl From<Llm> for NodeIndex {
    fn from(value: Llm) -> (r: NodeIndex) {
        value.0
    }
}

impl FromSpecImpl<Llm> for NodeIndex {
    open spec fn obeys_from_spec() -> bool {
        true
    }

    open spec fn from_spec(value: Llm) -> NodeIndex {
        value.0
    }
}

/// Why a backend could not generate text.
#[derive(Debug)]
pub enum GenerateError {
    /// The backend reported a failure of its own.
    BackendError(String),
}

/// A service that turns a prompt into generated text.
pub trait LlmBackend {
    /// Starts generating text for `prompt`.
    fn generate(&self, prompt: &str) -> Deferred<Result<String, GenerateError>>;
}

/// What a text generation node holds: the backend it asks.
pub struct LlmWeight<T: LlmBackend + 'static> {
    pub backend: Arc<T>,
}

/// Whether `weight` is a store that holds the empty text.
pub open spec fn is_empty_store(weight: GraphNode) -> bool {
    weight matches GraphNode::Store(v) && v@ == ValueView::String(Seq::empty())
}

/// Whether `after` is `before` with three nodes added at the end: the
/// node `node`, a store bound to its argument position 0, and a store
/// bound to its result position 0, both holding the empty text.
pub open spec fn wired(before: GraphModel, after: GraphModel, node: GraphNode) -> bool {
    let n = before.len() as int;
    let input = Link { edge: GraphEdge::DataMap(0), source: (n + 1) as nat, target: n as nat };
    let output = Link { edge: GraphEdge::DataMap(0), source: n as nat, target: (n + 2) as nat };
    &&& after.len() == n + 3
    &&& after.take(n) == before
    &&& after[n] == NodeEntry { weight: node, incoming: seq![input], outgoing: seq![output] }
    &&& is_empty_store(after[n + 1].weight)
    &&& after[n + 1].incoming == Seq::<Link>::empty()
    &&& after[n + 1].outgoing == seq![input]
    &&& is_empty_store(after[n + 2].weight)
    &&& after[n + 2].incoming == seq![output]
    &&& after[n + 2].outgoing == Seq::<Link>::empty()
}

impl GenerateError {
    /// The failure in words.
    pub fn message(&self) -> (r: String)
        ensures
            r@ == "Backend error: "@ + self->BackendError_0@,
    {
        match self {
            GenerateError::BackendError(reason) => String::from_str("Backend error: ").concat(reason.as_str()),
        }
    }
}

impl<T: LlmBackend + 'static> LlmWeight<T> {
    /// A node weight that asks `backend`.
    pub fn new(backend: Arc<T>) -> (r: Self)
        ensures
            r.backend == backend,
    {
        LlmWeight { backend }
    }

    /// The prompt among the arguments of the node: the text at position 0.
    /// It is an error if there is no argument, or if the first is no text.
    pub fn prompt_from(&self, inputs: &Vec<Value>) -> (r: Result<String, NodeError>)
        ensures
            inputs@.len() == 0 ==> r == Err::<String, NodeError>(NodeError::MissingInput(0)),
            inputs@.len() > 0 ==> r == match inputs@[0] {
                Value::String(prompt) => Ok::<String, NodeError>(prompt),
                other => Err(NodeError::ConversionError(other)),
            },
    {
        if inputs.len() == 0 {
            return Err(NodeError::MissingInput(0));
        }
        match &inputs[0] {
            Value::String(prompt) => Ok(prompt.clone()),
            other => Err(NodeError::ConversionError(other.clone())),
        }
    }

    /// The results of the node, given what the backend came back with: the
    /// generated text as the only result, or the backend's failure as an
    /// internal error of the node.
    pub fn results_from(&self, generated: Result<String, GenerateError>) -> (r: Result<Vec<Value>, NodeError>)
        ensures
            match generated {
                Ok(response) => r matches Ok(values) && values@ == seq![Value::String(response)],
                Err(e) => r matches Err(NodeError::InternalError(reason)) && reason@ == "Failed to generate: "@
                    + ("Backend error: "@ + e->BackendError_0@),
            },
    {
        match generated {
            Ok(response) => {
                let mut values: Vec<Value> = Vec::new();
                values.push(Value::String(response));
                Ok(values)
            },
            Err(e) => {
                let reason = String::from_str("Failed to generate: ").concat(e.message().as_str());
                Err(NodeError::InternalError(reason))
            },
        }
    }
}

/// Adds a node of weight `weight` to the graph, with a store bound to its
/// argument position 0 and a store bound to its result position 0.
fn wire(graph: &mut FlowGraph, weight: GraphNode) -> (r: Llm)
    requires
        graph_nodes(*old(graph)).len() + 3 <= u32::MAX,
        graph_edge_count(*old(graph)) + 2 <= u32::MAX,
    ensures
        node_position(r.0) == graph_nodes(*old(graph)).len(),
        wired(graph_nodes(*old(graph)), graph_nodes(*final(graph)), weight),
        graph_edge_count(*final(graph)) == graph_edge_count(*old(graph)) + 2,
{
    let ghost before = graph_nodes(*graph);
    let ghost n = before.len();
    let ghost node_entry = NodeEntry { weight, incoming: Seq::empty(), outgoing: Seq::empty() };
    let index = add_node(graph, weight);

    let prompt = GraphNode::Store(Value::String(String::new()));
    let ghost input_entry = NodeEntry { weight: prompt, incoming: Seq::empty(), outgoing: Seq::empty() };
    let input = add_node(graph, prompt);
    add_edge(graph, input, index, GraphEdge::DataMap(0));
    let ghost bound = with_edge(before.push(node_entry).push(input_entry), n + 1, n, GraphEdge::DataMap(0));
    assert(graph_nodes(*graph) == bound);

    let response = GraphNode::Store(Value::String(String::new()));
    let ghost output_entry = NodeEntry { weight: response, incoming: Seq::empty(), outgoing: Seq::empty() };
    let output = add_node(graph, response);
    add_edge(graph, index, output, GraphEdge::DataMap(0));
    assert(graph_nodes(*graph) == with_edge(bound.push(output_entry), n, n + 2, GraphEdge::DataMap(0)));
    proof {
        let after = graph_nodes(*graph);
        let k = n as int;
        let into = Link { edge: GraphEdge::DataMap(0), source: (k + 1) as nat, target: k as nat };
        let out = Link { edge: GraphEdge::DataMap(0), source: k as nat, target: (k + 2) as nat };
        assert(is_empty_store(input_entry.weight));
        assert(is_empty_store(output_entry.weight));
        assert(after.len() == k + 3);
        assert(after.take(k) =~= before);
        assert(after[k].weight == weight);
        assert(after[k].incoming =~= seq![into]);
        assert(after[k].outgoing =~= seq![out]);
        assert(after[k + 1].weight == input_entry.weight);
        assert(after[k + 1].incoming =~= Seq::<Link>::empty());
        assert(after[k + 1].outgoing =~= seq![into]);
        assert(after[k + 2].weight == output_entry.weight);
        assert(after[k + 2].incoming =~= seq![out]);
        assert(after[k + 2].outgoing =~= Seq::<Link>::empty());
    }

    Llm(index)
}

impl Llm {
    /// Adds `node` to the graph, with a store bound to its argument
    /// position 0 and a store bound to its result position 0, both empty.
    pub fn new(graph: &mut FlowGraph, node: Box<dyn AsyncNode>) -> (r: Self)
        requires
            graph_nodes(*old(graph)).len() + 3 <= u32::MAX,
            graph_edge_count(*old(graph)) + 2 <= u32::MAX,
        ensures
            node_position(r.0) == graph_nodes(*old(graph)).len(),
            wired(graph_nodes(*old(graph)), graph_nodes(*final(graph)), GraphNode::AsyncNode(node)),
            graph_edge_count(*final(graph)) == graph_edge_count(*old(graph)) + 2,
    {
        wire(graph, typed(GraphNode::AsyncNode(node)))
    }

    /// As [`Llm::new`], where the graph has room for three more nodes and
    /// two more edges. Where it has not, nothing is added.
    pub fn try_new(graph: &mut FlowGraph, node: Box<dyn AsyncNode>) -> (r: Option<Self>)
        ensures
            r is Some <==> graph_nodes(*old(graph)).len() + 3 <= u32::MAX && graph_edge_count(*old(graph)) + 2
                <= u32::MAX,
            r matches Some(llm) ==> {
                &&& node_position(llm.0) == graph_nodes(*old(graph)).len()
                &&& wired(graph_nodes(*old(graph)), graph_nodes(*final(graph)), GraphNode::AsyncNode(node))
                &&& graph_edge_count(*final(graph)) == graph_edge_count(*old(graph)) + 2
            },
            r is None ==> graph_nodes(*final(graph)) == graph_nodes(*old(graph)) && graph_edge_count(*final(graph))
                == graph_edge_count(*old(graph)),
    {
        let nodes: usize = node_count(graph);
        let edges: usize = edge_count(graph);
        if nodes <= (u32::MAX - 3) as usize && edges <= (u32::MAX - 2) as usize {
            Some(wire(graph, typed(GraphNode::AsyncNode(node))))
        } else {
            None
        }
    }

    /// The store that holds the prompt: the first store bound to an
    /// argument position of the node.
    pub fn prompt(&self, graph: &FlowGraph) -> (r: Result<StoreWrapper, GetStoreError>)
        ensures
            match r {
                Ok(store) => input_bindings(graph_nodes(*graph), node_position(self.0)).len() > 0 && node_position(
                    store.0,
                ) == input_bindings(graph_nodes(*graph), node_position(self.0)).first().store,
                Err(e) => e is NoStore && input_bindings(graph_nodes(*graph), node_position(self.0)).len() == 0,
            },
    {
        let links = edges_directed(graph, self.0, Direction::Incoming);
        let stores = input_stores(&links);
        if stores.len() == 0 {
            Err(GetStoreError::NoStore)
        } else {
            assert(bound_stores(stores@)[0].store == node_position(stores@[0].1));
            Ok(StoreWrapper(stores[0].1))
        }
    }

    /// The store that holds the response: the first store bound to a
    /// result position of the node.
    pub fn response(&self, graph: &FlowGraph) -> (r: Result<StoreWrapper, GetStoreError>)
        ensures
            match r {
                Ok(store) => output_bindings(graph_nodes(*graph), node_position(self.0)).len() > 0 && node_position(
                    store.0,
                ) == output_bindings(graph_nodes(*graph), node_position(self.0)).first().store,
                Err(e) => e is NoStore && output_bindings(graph_nodes(*graph), node_position(self.0)).len() == 0,
            },
    {
        let links = edges_directed(graph, self.0, Direction::Outgoing);
        let stores = output_stores(&links);
        if stores.len() == 0 {
            Err(GetStoreError::NoStore)
        } else {
            assert(bound_stores(stores@)[0].store == node_position(stores@[0].1));
            Ok(StoreWrapper(stores[0].1))
        }
    }
}

} // verus!
