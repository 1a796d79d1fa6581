//! Multilevel spring-electrical graph layout: the combinatorial core.
//!
//! The graph structure, the edge-list reader, breadth-first search and the
//! diameter estimate, the coarsening schemes and the coarse graph's edges are
//! verified here. Edge and vertex weights are carried as
//! order keys (`u64`): the library stores and compares them and never does
//! arithmetic on them.

pub mod coarse_graph;
pub mod coarsen;
pub mod graph;
pub mod load;
pub mod search;

pub use coarsen::{coarsen, CoarsenResult, CoarseningStrategy};
pub use graph::{Graph, GraphError, Neighbor, Node};
pub use load::{EdgeLine, GraphLoader};
