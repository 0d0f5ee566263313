//! A dataflow execution engine over a directed graph.
//!
//! Nodes are either stores, which hold one [`Value`], or computation nodes.
//! Edges bind stores to the argument and result positions of a computation,
//! mirror one store into another, or order one computation after another.
//! [`ExecutionStep`] advances the graph by one computation node.

pub mod value;
pub mod nodes;
pub mod graph;
pub mod execution;
pub mod llm;

pub use graph::{FlowGraph, GraphEdge, GraphNode};
pub use value::Value;
pub use execution::step::{ExecutionStep, ExecutionStepError, StepOutcome};
