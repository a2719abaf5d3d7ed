//! A graph of multiplicative conversion rates.
//!
//! Edges carry exact positive rational rates; inserting `src -> dst = r` also
//! inserts `dst -> src = 1/r`, so the graph is always bidirectionally
//! consistent.  A breadth-first search with a "revisit only on a strictly
//! better rate" relaxation rule finds the best compounded rate, and the path
//! realizing it, between two vertices.

#![verifier::loop_isolation(false)]

pub mod graph;
pub mod path;
pub mod rate;
pub mod search;

pub use crate::graph::Edge;
pub use crate::graph::Graph;
pub use crate::graph::Vertex;
pub use crate::path::Path;
pub use crate::rate::Rate;
