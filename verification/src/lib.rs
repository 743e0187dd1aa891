//! tt: a task tracker whose tasks form a directed acyclic graph of
//! dependencies.
//!
//! The library holds the data model, the dependency graph algorithms
//! (topological sort, cycle detection, focus subgraphs), the status state
//! machine, the manual ordering rules and an in-memory task store whose
//! operations carry the tracker's invariants.
use vstd::prelude::*;

pub mod chart;
pub mod cli;
pub mod dag;
pub mod error;
pub mod graph;
pub mod install;
pub mod laws;
pub mod models;
pub mod ordering;
pub mod tools;
pub mod transport;
pub mod state;
pub mod store;
pub mod target;
pub mod text;

verus! {

} // verus!
