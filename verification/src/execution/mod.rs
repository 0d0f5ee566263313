//! Advancing the graph by one computation node.

pub mod model;
pub mod step;
pub mod theorems;
