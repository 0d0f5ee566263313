//! What a computation node is to the engine.

use petgraph::graph::NodeIndex;
use std::collections::HashMap;
use std::future::Future;
use vstd::prelude::*;

use crate::value::Value;

pub mod log;

verus! {

/// Why a computation node could not produce its results.
#[derive(Debug)]
pub enum NodeError {
    /// No argument was supplied at this position.
    MissingInput(usize),
    /// An argument was supplied, but it is of the wrong kind.
    ConversionError(Value),
    /// The node failed for a reason of its own.
    InternalError(String),
}

/// The handle of a store.
pub struct StoreWrapper(pub NodeIndex);

/// Why no store was found.
#[derive(Debug)]
pub enum GetStoreError {
    /// No store is bound where one was looked for.
    NoStore,
}

/// A computation that has been started and completes later.
///
/// The engine only carries such a value from the node that made it to
/// whoever drives it to completion. It never looks inside, and neither
/// does the verifier, to which the type is opaque: nothing is stated of
/// what the computation will come to.
#[verifier::external_body]
#[verifier::reject_recursive_types(T)]
pub struct Deferred<T>(pub Box<dyn Future<Output = T> + Unpin>);

/// The configuration hook of a node. [`SyncNode`] and [`AsyncNode`] carry
/// the same hook of their own: the graph holds its nodes as objects of
/// those traits, and such an object cannot be reached through a trait
/// that they would extend.
pub trait Node {
    /// Hands the node named auxiliary inputs before it runs. These are no
    /// part of the positional data flow. By default they are ignored and the
    /// node stays as it is; a node that takes them may do otherwise.
    fn process_input(&mut self, input: HashMap<String, Value>)
        default_ensures
            &*final(self) == &*old(self),
    {
        let _ = input;
    }
}

/// A computation node that runs to completion when invoked.
pub trait SyncNode {
    /// Hands the node named auxiliary inputs before it runs, as
    /// [`Node::process_input`] does; the graph holds its nodes by this
    /// trait, so this is how a node in a graph is reached. By default the
    /// inputs are ignored and the node stays as it is.
    fn process_input(&mut self, input: HashMap<String, Value>)
        default_ensures
            &*final(self) == &*old(self),
    {
        let _ = input;
    }

    /// Maps the positional arguments to the positional results.
    fn run(&self, inputs: Vec<Value>) -> Result<Vec<Value>, NodeError>;
}

/// A computation node whose invocation yields a deferred computation.
pub trait AsyncNode {
    /// Hands the node named auxiliary inputs before it runs, as
    /// [`Node::process_input`] does; the graph holds its nodes by this
    /// trait, so this is how a node in a graph is reached. By default the
    /// inputs are ignored and the node stays as it is.
    fn process_input(&mut self, input: HashMap<String, Value>)
        default_ensures
            &*final(self) == &*old(self),
    {
        let _ = input;
    }

    /// Starts the computation on the positional arguments.
    fn run(&self, inputs: Vec<Value>) -> Deferred<Result<Vec<Value>, NodeError>>;
}

} // verus!
