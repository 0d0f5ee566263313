//! What one execution step means, stated over the model of the graph.

use vstd::prelude::*;

use crate::execution::step::ExecutionStepError;
use crate::graph::{incoming_of, outgoing_of, with_weight, GraphEdge, GraphModel, GraphNode, Link};
use crate::value::Value;

verus! {

/// A store bound to an argument or result position of a computation node.
pub struct Binding {
    pub slot: usize,
    /// Position of the store in the graph.
    pub store: nat,
}

/// A value read for an argument position.
pub struct Resolved {
    pub slot: usize,
    pub value: Value,
}

/// The binding that an incoming edge makes: a data-map edge binds the store
/// it starts at; any other edge binds nothing.
pub open spec fn input_binding(l: Link) -> Option<Binding> {
    match l.edge {
        GraphEdge::DataMap(slot) => Some(Binding { slot, store: l.source }),
        _ => None,
    }
}

/// The binding that an outgoing edge makes: a data-map edge binds the store
/// it ends at; any other edge binds nothing.
pub open spec fn output_binding(l: Link) -> Option<Binding> {
    match l.edge {
        GraphEdge::DataMap(slot) => Some(Binding { slot, store: l.target }),
        _ => None,
    }
}

/// The node that an outgoing edge makes eligible: the target of an
/// execution-flow edge; any other edge makes none eligible.
pub open spec fn successor(l: Link) -> Option<nat> {
    match l.edge {
        GraphEdge::ExecutionFlow => Some(l.target),
        _ => None,
    }
}

/// The input bindings among `links`, in their order.
pub open spec fn input_bindings_of(links: Seq<Link>) -> Seq<Binding> {
    links.filter_map(|l: Link| input_binding(l))
}

/// The output bindings among `links`, in their order.
pub open spec fn output_bindings_of(links: Seq<Link>) -> Seq<Binding> {
    links.filter_map(|l: Link| output_binding(l))
}

/// The successors among `links`, in their order.
pub open spec fn successors_of(links: Seq<Link>) -> Seq<nat> {
    links.filter_map(|l: Link| successor(l))
}

/// The stores bound to the argument positions of the node at `p`.
pub open spec fn input_bindings(m: GraphModel, p: nat) -> Seq<Binding> {
    input_bindings_of(incoming_of(m, p))
}

/// The stores bound to the result positions of the node at `p`.
pub open spec fn output_bindings(m: GraphModel, p: nat) -> Seq<Binding> {
    output_bindings_of(outgoing_of(m, p))
}

/// The nodes that completion of the node at `p` makes eligible.
pub open spec fn successors(m: GraphModel, p: nat) -> Seq<nat> {
    successors_of(outgoing_of(m, p))
}

/// The value of the store at `p`. It is an error if there is no node at
/// `p`, or if the node there is no store.
pub open spec fn store_value(m: GraphModel, p: nat) -> Result<Value, ExecutionStepError> {
    if p >= m.len() {
        Err(ExecutionStepError::NoWeight)
    } else {
        match m[p as int].weight {
            GraphNode::Store(v) => Ok(v),
            _ => Err(ExecutionStepError::InvalidWeight),
        }
    }
}

/// The value that the data-flow edges among `links` mirror: that of the
/// store at which the last of them starts, or none if there is no such
/// edge. The first data-flow edge that does not start at a store is an error.
pub open spec fn mirrored(m: GraphModel, links: Seq<Link>) -> Result<Option<Value>, ExecutionStepError>
    decreases links.len(),
{
    if links.len() == 0 {
        Ok(None)
    } else {
        match mirrored(m, links.drop_last()) {
            Err(e) => Err(e),
            Ok(found) => if links.last().edge is DataFlow {
                match store_value(m, links.last().source) {
                    Ok(v) => Ok(Some(v)),
                    Err(e) => Err(e),
                }
            } else {
                Ok(found)
            },
        }
    }
}

/// Reading the store at `s` as an input: where it mirrors another store it
/// is first refreshed to that store's value. Yields the graph after the
/// read, and the value read. It is an error if what is mirrored is no
/// store, or if there is no store at `s`; an error leaves the graph as it is.
pub open spec fn read_input(m: GraphModel, s: nat) -> (GraphModel, Result<Value, ExecutionStepError>) {
    match mirrored(m, incoming_of(m, s)) {
        Err(e) => (m, Err(e)),
        Ok(found) => match store_value(m, s) {
            Err(e) => (m, Err(e)),
            Ok(held) => match found {
                Some(v) => (with_weight(m, s, GraphNode::Store(v)), Ok(v)),
                None => (m, Ok(held)),
            },
        },
    }
}

/// Reading the bound stores one after another, each on the graph that the
/// reads before it left. The first error ends it; the refreshes made up to
/// there stay.
pub open spec fn resolve(m: GraphModel, bindings: Seq<Binding>) -> (GraphModel, Result<Seq<Resolved>, ExecutionStepError>)
    decreases bindings.len(),
{
    if bindings.len() == 0 {
        (m, Ok(Seq::empty()))
    } else {
        let (before, read) = resolve(m, bindings.drop_last());
        match read {
            Err(e) => (before, Err(e)),
            Ok(values) => {
                let (after, value) = read_input(before, bindings.last().store);
                match value {
                    Err(e) => (after, Err(e)),
                    Ok(v) => (after, Ok(values.push(Resolved { slot: bindings.last().slot, value: v }))),
                }
            },
        }
    }
}

/// `sorted` with `item` put behind the last element whose slot is not greater.
pub open spec fn insert_by_slot(sorted: Seq<Resolved>, item: Resolved) -> Seq<Resolved>
    decreases sorted.len(),
{
    if sorted.len() == 0 || sorted.last().slot <= item.slot {
        sorted.push(item)
    } else {
        insert_by_slot(sorted.drop_last(), item).push(sorted.last())
    }
}

/// `items` in ascending order of slot; items of equal slot keep their order.
pub open spec fn sort_by_slot(items: Seq<Resolved>) -> Seq<Resolved>
    decreases items.len(),
{
    if items.len() == 0 {
        Seq::empty()
    } else {
        insert_by_slot(sort_by_slot(items.drop_last()), items.last())
    }
}

/// The positional argument list made of the values read.
pub open spec fn arguments(items: Seq<Resolved>) -> Seq<Value> {
    sort_by_slot(items).map_values(|r: Resolved| r.value)
}

/// Input resolution for the node at `p`: the graph it leaves, and the
/// argument list or the error.
pub open spec fn resolved_inputs(m: GraphModel, p: nat) -> (GraphModel, Result<Seq<Value>, ExecutionStepError>) {
    let (after, read) = resolve(m, input_bindings(m, p));
    match read {
        Ok(items) => (after, Ok(arguments(items))),
        Err(e) => (after, Err(e)),
    }
}

/// The store that the result at position `slot` goes to: the one bound by
/// the first binding with that slot, if there is any.
pub open spec fn target_for(bindings: Seq<Binding>, slot: int) -> Option<nat>
    decreases bindings.len(),
{
    if bindings.len() == 0 {
        None
    } else if bindings.first().slot == slot {
        Some(bindings.first().store)
    } else {
        target_for(bindings.drop_first(), slot)
    }
}

/// The graph after the results `outputs` are written, in order, each to
/// the store that `bindings` gives for its position. A result without a
/// store is dropped.
pub open spec fn commit(m: GraphModel, bindings: Seq<Binding>, outputs: Seq<Value>) -> GraphModel
    decreases outputs.len(),
{
    if outputs.len() == 0 {
        m
    } else {
        let before = commit(m, bindings, outputs.drop_last());
        match target_for(bindings, outputs.len() - 1) {
            Some(t) => with_weight(before, t, GraphNode::Store(outputs.last())),
            None => before,
        }
    }
}

/// The graph after the node at `p` has written its results.
pub open spec fn committed(m: GraphModel, p: nat, outputs: Seq<Value>) -> GraphModel {
    commit(m, output_bindings(m, p), outputs)
}

} // verus!
