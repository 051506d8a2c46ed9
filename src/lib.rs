//! Simulation of BGP route propagation over an AS-relationship topology,
//! under the Gao-Rexford export policy.

pub mod as_graph;
pub mod bgp;
pub mod constructor;
pub mod dataset;
pub mod text;
