//! Single-source shortest paths over a static, weighted, directed graph.
//!
//! Callers build a [`graph::Graph`] by registering nodes and edges, then ask
//! the engine for the lowest-cost path between two nodes. Distances are
//! non-negative integers; the value `u64::MAX` is the "infinite" sentinel for
//! nodes that relaxation has not reached.

pub mod engine;
pub mod frontier;
pub mod graph;
pub mod ledger;
