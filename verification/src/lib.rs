//! Validated immutable graph topology and the integer graph kernels that run over it.
pub mod error;
pub mod execution;

pub use error::Error;
pub use execution::{bytes_for, ExecutionContext, Reservation};
pub mod topology;
pub mod csr;
pub use csr::{CsrAdjacency, NodeId};
pub mod buckets;
pub mod graph;
pub use graph::Graph;
pub mod transpose;
pub mod builder;
pub use builder::{from_edges, Edge};
pub mod view;
pub use view::InducedView;
pub mod traversal;
pub use traversal::{bfs, degrees};
pub mod components;
pub use components::{connected_components, weakly_connected_components};
pub mod strong;
pub use strong::strongly_connected_components;
pub mod grustcat;
pub use grustcat::GrustcatGraph;
pub mod text;
pub mod cypher;
pub use cypher::PreparedQuery;
pub mod snapshot;
pub mod laws;
pub mod keys;
