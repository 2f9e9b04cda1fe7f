//! Desired-state reconciliation engine for an infrastructure-as-code tool.
//!
//! Users declare a stack of resources; the engine builds a dependency graph
//! from the declarations, diffs it against the recorded actual state, produces
//! an ordered change plan, and executes that plan while recording outcomes in
//! the state store, even under partial failure.

pub mod props;
pub mod decl;
pub mod graph;
pub mod store;
pub mod plan;
pub mod config;
pub mod cli;
pub mod exec;
pub mod laws;

pub use props::{LeafModel, PropLeaf, Props};
