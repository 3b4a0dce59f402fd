//! Landmark-based virtual coordinates over a random network graph.
//!
//! A network is an undirected graph on nodes `0..n`.  A chosen sequence of
//! landmark nodes fixes a coordinate system: each node's coordinate vector
//! holds its hop distance to every landmark, computed by iterated relaxation
//! until a fixpoint.  The crate also checks whether the resulting coordinate
//! table identifies every node uniquely.

pub mod graph;
pub mod network_sim;
mod randgen;

pub use network_sim::{choose_k_nums, ConfigError, Network};
