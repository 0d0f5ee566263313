//! The single execution step: resolve the inputs of a computation node,
//! invoke it, commit its results, and report what may run next.

use petgraph::graph::NodeIndex;
use vstd::prelude::*;
use vstd::std_specs::convert::FromSpecImpl;

use crate::execution::model::{
    arguments, commit, committed, input_binding, input_bindings, input_bindings_of, insert_by_slot,
    mirrored, output_binding, output_bindings, output_bindings_of, read_input, resolve,
    resolved_inputs, sort_by_slot, successor, successors, successors_of, target_for, Binding,
    Resolved,
};
use crate::execution::theorems::lemma_commit_keeps_edges;
use crate::graph::{
    edges_directed, graph_edge_count, graph_nodes, incoming_of, links_of, node_position,
    node_weight, set_node_weight, Direction, Edge, FlowGraph, GraphEdge, GraphModel, GraphNode,
    Link,
};
use crate::nodes::{Deferred, NodeError};
use crate::value::Value;

verus! {

/// One attempt to advance the graph by the computation node it addresses.
pub struct ExecutionStep(pub NodeIndex);

/// Why a step failed.
#[derive(Debug)]
pub enum ExecutionStepError {
    /// A handle addresses no node of the graph.
    NoWeight,
    /// A handle addresses a node of the wrong kind for its place.
    InvalidWeight,
    /// The computation node itself failed.
    NodeError(NodeError),
}

impl From<NodeError> for ExecutionStepError {
    fn from(value: NodeError) -> (r: ExecutionStepError) {
        ExecutionStepError::NodeError(value)
    }
}

impl FromSpecImpl<NodeError> for ExecutionStepError {
    open spec fn obeys_from_spec() -> bool {
        true
    }

    open spec fn from_spec(value: NodeError) -> ExecutionStepError {
        ExecutionStepError::NodeError(value)
    }
}

/// How far a step got without waiting.
pub enum StepOutcome {
    /// The node ran and its results are committed: these steps may run next.
    Finished(Vec<ExecutionStep>),
    /// The node is asynchronous and its computation has been started. Once
    /// it completes, [`ExecutionStep::resume`] takes its result.
    Suspended(Deferred<Result<Vec<Value>, NodeError>>),
}

/// The positions that a list of steps addresses.
pub open spec fn step_positions(steps: Seq<ExecutionStep>) -> Seq<nat> {
    steps.map_values(|s: ExecutionStep| node_position(s.0))
}

/// The bindings that a list of slots and store handles is.
pub open spec fn bound_stores(stores: Seq<(usize, NodeIndex)>) -> Seq<Binding> {
    stores.map_values(|b: (usize, NodeIndex)| Binding { slot: b.0, store: node_position(b.1) })
}

/// A result with its list of values as a sequence.
pub open spec fn values_of(r: Result<Vec<Value>, ExecutionStepError>) -> Result<Seq<Value>, ExecutionStepError> {
    match r {
        Ok(values) => Ok(values@),
        Err(e) => Err(e),
    }
}

/// A node's result with its list of values as a sequence.
pub open spec fn outputs_of(r: Result<Vec<Value>, NodeError>) -> Result<Seq<Value>, NodeError> {
    match r {
        Ok(values) => Ok(values@),
        Err(e) => Err(e),
    }
}

/// A result with its list of steps as the positions they address.
pub open spec fn positions_of(r: Result<Vec<ExecutionStep>, ExecutionStepError>) -> Result<Seq<nat>, ExecutionStepError> {
    match r {
        Ok(steps) => Ok(step_positions(steps@)),
        Err(e) => Err(e),
    }
}

/// What completing the step at `p` with the node's result `outcome` does:
/// the graph it leaves, and the positions eligible next or the error. A
/// failed node leaves the graph as it is.
pub open spec fn finished(m: GraphModel, p: nat, outcome: Result<Seq<Value>, NodeError>) -> (
    GraphModel,
    Result<Seq<nat>, ExecutionStepError>,
) {
    match outcome {
        Err(e) => (m, Err(ExecutionStepError::NodeError(e))),
        Ok(outputs) => (committed(m, p, outputs), Ok(successors(m, p))),
    }
}

/// What a step that did not suspend came to: the positions eligible next,
/// or the error. Nothing for a step that suspended.
pub open spec fn completed(r: Result<StepOutcome, ExecutionStepError>) -> Option<Result<Seq<nat>, ExecutionStepError>> {
    match r {
        Ok(StepOutcome::Finished(steps)) => Some(Ok(step_positions(steps@))),
        Ok(StepOutcome::Suspended(_)) => None,
        Err(e) => Some(Err(e)),
    }
}

/// Whether a step on the node at `p` may take the graph from `start` to
/// `end` with the result `r`.
///
/// The inputs are resolved first, whatever is at `p`. If that fails, or if
/// `p` then addresses no computation node, the step fails there and leaves
/// the graph as input resolution left it. An asynchronous node is started
/// and the step suspends. A synchronous node is run, and the step
/// completes with whatever result the node gave.
pub open spec fn executed(
    start: GraphModel,
    p: nat,
    end: GraphModel,
    r: Result<StepOutcome, ExecutionStepError>,
) -> bool {
    let (ready, inputs) = resolved_inputs(start, p);
    match inputs {
        Err(e) => r == Err::<StepOutcome, ExecutionStepError>(e) && end == ready,
        Ok(_) => if p >= ready.len() {
            r == Err::<StepOutcome, ExecutionStepError>(ExecutionStepError::NoWeight) && end == ready
        } else {
            match ready[p as int].weight {
                GraphNode::Store(_) => r == Err::<StepOutcome, ExecutionStepError>(
                    ExecutionStepError::InvalidWeight,
                ) && end == ready,
                GraphNode::AsyncNode(_) => r is Ok && r->Ok_0 is Suspended && end == ready,
                GraphNode::SyncNode(_) => exists|outcome: Result<Seq<Value>, NodeError>|
                    (end, completed(r)) == (
                        (#[trigger] finished(ready, p, outcome)).0,
                        Some(finished(ready, p, outcome).1),
                    ),
            }
        },
    }
}

proof fn lemma_mirrored_error_stays(m: GraphModel, links: Seq<Link>, k: int)
    requires
        0 <= k <= links.len(),
        mirrored(m, links.take(k)) is Err,
    ensures
        mirrored(m, links) == mirrored(m, links.take(k)),
    decreases links.len(),
{
    if k == links.len() {
        assert(links.take(k) == links);
    } else {
        assert(links.drop_last().take(k) == links.take(k));
        lemma_mirrored_error_stays(m, links.drop_last(), k);
    }
}

proof fn lemma_resolve_error_stays(m: GraphModel, bindings: Seq<Binding>, k: int)
    requires
        0 <= k <= bindings.len(),
        resolve(m, bindings.take(k)).1 is Err,
    ensures
        resolve(m, bindings) == resolve(m, bindings.take(k)),
    decreases bindings.len(),
{
    if k == bindings.len() {
        assert(bindings.take(k) == bindings);
    } else {
        assert(bindings.drop_last().take(k) == bindings.take(k));
        lemma_resolve_error_stays(m, bindings.drop_last(), k);
    }
}

proof fn lemma_insert_at(sorted: Seq<Resolved>, item: Resolved, k: int)
    requires
        0 <= k <= sorted.len(),
        forall|q: int| k <= q < sorted.len() ==> sorted[q].slot > item.slot,
        k == 0 || sorted[k - 1].slot <= item.slot,
    ensures
        insert_by_slot(sorted, item) == sorted.insert(k, item),
    decreases sorted.len(),
{
    if sorted.len() == 0 || sorted.last().slot <= item.slot {
        assert(sorted.insert(k, item) =~= sorted.push(item));
    } else {
        lemma_insert_at(sorted.drop_last(), item, k);
        assert(sorted.insert(k, item) =~= sorted.drop_last().insert(k, item).push(sorted.last()));
    }
}

/// The stores that the data-map edges among `links` bind as inputs.
pub(crate) fn input_stores(links: &Vec<Edge>) -> (r: Vec<(usize, NodeIndex)>)
    ensures
        bound_stores(r@) == input_bindings_of(links_of(links@)),
{
    let mut stores: Vec<(usize, NodeIndex)> = Vec::new();
    let ghost all = links_of(links@);
    let mut i: usize = 0;
    while i < links.len()
        invariant
            i <= links.len(),
            all == links_of(links@),
            bound_stores(stores@) == input_bindings_of(all.take(i as int)),
        decreases links.len() - i,
    {
        proof {
            all.lemma_filter_map_take_succ(|l: Link| input_binding(l), i as int);
        }
        let ghost before = stores@;
        if let GraphEdge::DataMap(slot) = links[i].0 {
            stores.push((slot, links[i].1));
            assert(bound_stores(stores@) =~= bound_stores(before).push(input_binding(all[i as int])->Some_0));
        }
        i += 1;
    }
    assert(all.take(links.len() as int) == all);
    stores
}

/// The stores that the data-map edges among `links` bind as outputs.
pub(crate) fn output_stores(links: &Vec<Edge>) -> (r: Vec<(usize, NodeIndex)>)
    ensures
        bound_stores(r@) == output_bindings_of(links_of(links@)),
{
    let mut stores: Vec<(usize, NodeIndex)> = Vec::new();
    let ghost all = links_of(links@);
    let mut i: usize = 0;
    while i < links.len()
        invariant
            i <= links.len(),
            all == links_of(links@),
            bound_stores(stores@) == output_bindings_of(all.take(i as int)),
        decreases links.len() - i,
    {
        proof {
            all.lemma_filter_map_take_succ(|l: Link| output_binding(l), i as int);
        }
        let ghost before = stores@;
        if let GraphEdge::DataMap(slot) = links[i].0 {
            stores.push((slot, links[i].2));
            assert(bound_stores(stores@) =~= bound_stores(before).push(output_binding(all[i as int])->Some_0));
        }
        i += 1;
    }
    assert(all.take(links.len() as int) == all);
    stores
}

/// The steps that the execution-flow edges among `links` make eligible.
fn eligible_steps(links: &Vec<Edge>) -> (r: Vec<ExecutionStep>)
    ensures
        step_positions(r@) == successors_of(links_of(links@)),
{
    let mut steps: Vec<ExecutionStep> = Vec::new();
    let ghost all = links_of(links@);
    let mut i: usize = 0;
    while i < links.len()
        invariant
            i <= links.len(),
            all == links_of(links@),
            step_positions(steps@) == successors_of(all.take(i as int)),
        decreases links.len() - i,
    {
        proof {
            all.lemma_filter_map_take_succ(|l: Link| successor(l), i as int);
        }
        let ghost before = steps@;
        if let GraphEdge::ExecutionFlow = links[i].0 {
            steps.push(ExecutionStep(links[i].2));
            assert(step_positions(steps@) =~= step_positions(before).push(successor(all[i as int])->Some_0));
        }
        i += 1;
    }
    assert(all.take(links.len() as int) == all);
    steps
}

/// The store bound to result position `slot`, if any.
fn find_target(stores: &Vec<(usize, NodeIndex)>, slot: usize) -> (r: Option<NodeIndex>)
    ensures
        match r {
            Some(t) => target_for(bound_stores(stores@), slot as int) == Some(node_position(t)),
            None => target_for(bound_stores(stores@), slot as int) is None,
        },
{
    let ghost all = bound_stores(stores@);
    let mut k: usize = 0;
    assert(all.skip(0) == all);
    while k < stores.len()
        invariant
            k <= stores.len(),
            all == bound_stores(stores@),
            target_for(all, slot as int) == target_for(all.skip(k as int), slot as int),
        decreases stores.len() - k,
    {
        assert(all.skip(k as int).first() == all[k as int]);
        assert(all.skip(k as int).drop_first() == all.skip(k as int + 1));
        if stores[k].0 == slot {
            return Some(stores[k].1);
        }
        k += 1;
    }
    None
}

/// Reads the store at `store` as an input, refreshing it first from the
/// store it mirrors, if it mirrors one. Only a store is refreshed or read.
fn refresh_and_read(graph: &mut FlowGraph, store: NodeIndex) -> (r: Result<Value, ExecutionStepError>)
    ensures
        (graph_nodes(*final(graph)), r) == read_input(graph_nodes(*old(graph)), node_position(store)),
        graph_edge_count(*final(graph)) == graph_edge_count(*old(graph)),
{
    let links = edges_directed(graph, store, Direction::Incoming);
    let ghost m = graph_nodes(*graph);
    let ghost all = links_of(links@);
    let mut found: Option<Value> = None;
    let mut i: usize = 0;
    while i < links.len()
        invariant
            i <= links.len(),
            all == links_of(links@),
            all == incoming_of(m, node_position(store)),
            m == graph_nodes(*graph),
            m == graph_nodes(*old(graph)),
            graph_edge_count(*graph) == graph_edge_count(*old(graph)),
            mirrored(m, all.take(i as int)) == Ok::<Option<Value>, ExecutionStepError>(found),
        decreases links.len() - i,
    {
        proof {
            assert(all.take(i + 1).drop_last() == all.take(i as int));
        }
        if let GraphEdge::DataFlow = links[i].0 {
            match node_weight(graph, links[i].1) {
                Some(GraphNode::Store(value)) => {
                    found = Some(value.clone());
                },
                Some(_) => {
                    proof {
                        lemma_mirrored_error_stays(m, all, i + 1);
                    }
                    return Err(ExecutionStepError::InvalidWeight);
                },
                None => {
                    proof {
                        lemma_mirrored_error_stays(m, all, i + 1);
                    }
                    return Err(ExecutionStepError::NoWeight);
                },
            }
        }
        i += 1;
    }
    assert(all.take(links.len() as int) == all);
    match found {
        Some(value) => match node_weight(graph, store) {
            Some(GraphNode::Store(_)) => {
                set_node_weight(graph, store, GraphNode::Store(value.clone()));
                Ok(value)
            },
            Some(_) => Err(ExecutionStepError::InvalidWeight),
            None => Err(ExecutionStepError::NoWeight),
        },
        None => match node_weight(graph, store) {
            Some(GraphNode::Store(value)) => Ok(value.clone()),
            Some(_) => Err(ExecutionStepError::InvalidWeight),
            None => Err(ExecutionStepError::NoWeight),
        },
    }
}

impl ExecutionStep {
    /// Resolves the inputs of the addressed node: reads every store bound
    /// to one of its argument positions, in the order in which the graph
    /// walks the incoming edges, and returns the values in ascending order
    /// of position. A store that mirrors another is refreshed before it is
    /// read, and stays refreshed also where a later read fails.
    pub fn resolve_inputs(&self, graph: &mut FlowGraph) -> (r: Result<Vec<Value>, ExecutionStepError>)
        ensures
            (graph_nodes(*final(graph)), values_of(r)) == resolved_inputs(
                graph_nodes(*old(graph)),
                node_position(self.0),
            ),
            graph_edge_count(*final(graph)) == graph_edge_count(*old(graph)),
    {
        let links = edges_directed(graph, self.0, Direction::Incoming);
        let stores = input_stores(&links);
        let ghost start = graph_nodes(*graph);
        let ghost edges = graph_edge_count(*graph);
        let ghost bindings = bound_stores(stores@);
        let mut slots: Vec<usize> = Vec::new();
        let mut values: Vec<Value> = Vec::new();
        let ghost mut items: Seq<Resolved> = Seq::empty();
        let mut j: usize = 0;
        while j < stores.len()
            invariant
                j <= stores.len(),
                bindings == bound_stores(stores@),
                bindings == input_bindings(start, node_position(self.0)),
                start == graph_nodes(*old(graph)),
                edges == graph_edge_count(*old(graph)),
                resolve(start, bindings.take(j as int)) == (
                    graph_nodes(*graph),
                    Ok::<Seq<Resolved>, ExecutionStepError>(items),
                ),
                slots@.len() == sort_by_slot(items).len(),
                values@.len() == sort_by_slot(items).len(),
                forall|k: int|
                    0 <= k < slots@.len() ==> #[trigger] sort_by_slot(items)[k] == (Resolved {
                        slot: slots@[k],
                        value: values@[k],
                    }),
                graph_edge_count(*graph) == edges,
            decreases stores.len() - j,
        {
            proof {
                assert(bindings.take(j + 1).drop_last() == bindings.take(j as int));
            }
            let slot: usize = stores[j].0;
            match refresh_and_read(graph, stores[j].1) {
                Err(e) => {
                    proof {
                        lemma_resolve_error_stays(start, bindings, j + 1);
                    }
                    return Err(e);
                },
                Ok(value) => {
                    let mut k: usize = slots.len();
                    while k > 0 && slots[k - 1] > slot
                        invariant
                            k <= slots.len(),
                            forall|q: int| k <= q < slots@.len() ==> slots@[q] > slot,
                        decreases k,
                    {
                        k -= 1;
                    }
                    proof {
                        let item = Resolved { slot, value };
                        lemma_insert_at(sort_by_slot(items), item, k as int);
                        assert(items.push(item).drop_last() == items);
                        items = items.push(item);
                    }
                    slots.insert(k, slot);
                    values.insert(k, value);
                },
            }
            j += 1;
        }
        proof {
            assert(bindings.take(stores.len() as int) == bindings);
            assert(values@ =~= arguments(items));
        }
        Ok(values)
    }

    /// Commits the results of the addressed node: the result at position
    /// `i` replaces the value of the store bound to position `i` by the
    /// first outgoing data-map edge with that position, and is dropped if
    /// there is none. Nothing else changes.
    pub fn commit_outputs(&self, graph: &mut FlowGraph, outputs: Vec<Value>)
        ensures
            graph_nodes(*final(graph)) == committed(graph_nodes(*old(graph)), node_position(self.0), outputs@),
            graph_edge_count(*final(graph)) == graph_edge_count(*old(graph)),
    {
        let links = edges_directed(graph, self.0, Direction::Outgoing);
        let stores = output_stores(&links);
        let ghost start = graph_nodes(*graph);
        let ghost edges = graph_edge_count(*graph);
        let ghost bindings = bound_stores(stores@);
        let ghost all = outputs@;
        let count: usize = outputs.len();
        let mut i: usize = 0;
        for value in it: outputs
            invariant
                i == it.index(),
                it.seq() == all,
                all.len() == count,
                bindings == bound_stores(stores@),
                graph_nodes(*graph) == commit(start, bindings, all.take(i as int)),
                graph_edge_count(*graph) == edges,
        {
            proof {
                assert(all.take(i + 1).drop_last() == all.take(i as int));
            }
            match find_target(&stores, i) {
                Some(target) => {
                    if node_weight(graph, target).is_some() {
                        set_node_weight(graph, target, GraphNode::Store(value));
                    }
                },
                None => {},
            }
            i += 1;
        }
        proof {
            assert(all.take(all.len() as int) == all);
        }
    }

    /// Completes the step with the result that the addressed node gave: a
    /// failure of the node is the failure of the step and leaves the graph
    /// as it is; results are committed, and the steps that may run next
    /// are returned.
    pub fn resume(&self, graph: &mut FlowGraph, outcome: Result<Vec<Value>, NodeError>) -> (r: Result<
        Vec<ExecutionStep>,
        ExecutionStepError,
    >)
        ensures
            (graph_nodes(*final(graph)), positions_of(r)) == finished(
                graph_nodes(*old(graph)),
                node_position(self.0),
                outputs_of(outcome),
            ),
            graph_edge_count(*final(graph)) == graph_edge_count(*old(graph)),
    {
        match outcome {
            Err(e) => Err(ExecutionStepError::NodeError(e)),
            Ok(outputs) => {
                proof {
                    let m = graph_nodes(*graph);
                    let p = node_position(self.0);
                    lemma_commit_keeps_edges(m, output_bindings(m, p), outputs@);
                }
                self.commit_outputs(graph, outputs);
                Ok(self.successors(graph))
            },
        }
    }

    /// Advances the graph by the addressed node, as far as that goes
    /// without waiting: resolves its inputs, invokes it, and, where it is
    /// synchronous, commits its results and reports the steps that may run
    /// next. Where it is asynchronous the step suspends with the started
    /// computation, whose result [`ExecutionStep::resume`] takes.
    pub fn execute(&self, graph: &mut FlowGraph) -> (r: Result<StepOutcome, ExecutionStepError>)
        ensures
            executed(graph_nodes(*old(graph)), node_position(self.0), graph_nodes(*final(graph)), r),
            graph_edge_count(*final(graph)) == graph_edge_count(*old(graph)),
    {
        let inputs = match self.resolve_inputs(graph) {
            Ok(inputs) => inputs,
            Err(e) => {
                return Err(e);
            },
        };
        let ghost ready = graph_nodes(*graph);
        let result = match node_weight(graph, self.0) {
            None => {
                return Err(ExecutionStepError::NoWeight);
            },
            Some(GraphNode::Store(_)) => {
                return Err(ExecutionStepError::InvalidWeight);
            },
            Some(GraphNode::AsyncNode(node)) => {
                return Ok(StepOutcome::Suspended(node.run(inputs)));
            },
            Some(GraphNode::SyncNode(node)) => node.run(inputs),
        };
        let ghost outcome = outputs_of(result);
        match self.resume(graph, result) {
            Ok(steps) => {
                let r = Ok(StepOutcome::Finished(steps));
                assert((graph_nodes(*graph), completed(r)) == (
                    finished(ready, node_position(self.0), outcome).0,
                    Some(finished(ready, node_position(self.0), outcome).1),
                ));
                r
            },
            Err(e) => {
                let r = Err(e);
                assert((graph_nodes(*graph), completed(r)) == (
                    finished(ready, node_position(self.0), outcome).0,
                    Some(finished(ready, node_position(self.0), outcome).1),
                ));
                r
            },
        }
    }

    /// The steps that completion of the addressed node makes eligible: the
    /// targets of its outgoing execution-flow edges, in the order in which
    /// the graph walks them.
    pub fn successors(&self, graph: &FlowGraph) -> (r: Vec<ExecutionStep>)
        ensures
            step_positions(r@) == successors(graph_nodes(*graph), node_position(self.0)),
    {
        let links = edges_directed(graph, self.0, Direction::Outgoing);
        eligible_steps(&links)
    }
}

} // verus!
