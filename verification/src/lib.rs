//! An in-memory directed-graph index.
//!
//! The store keeps, for every node that an edge has touched, a compressed
//! set of outgoing and of incoming neighbours, always in step with each
//! other. While a bulk load is in flight, writes can be queued and are
//! applied in order by the load-completion step; mutated nodes are tracked
//! in a dirty set until a persistence flush succeeds.

pub mod adjacency;
pub mod node_index;
pub mod graph;
pub mod loader;
pub mod api;
pub mod laws;

pub use adjacency::AdjacencySet;
pub use api::Edge;
pub use api::EdgeBody;
pub use api::Errors;
pub use api::HasEdgeQuery;
pub use api::HasEdgeResponse;
pub use api::HealthStatus;
pub use api::HealthStatusQuery;
pub use api::IncomingEdgeQuery;
pub use api::IncomingEdgeResponse;
pub use api::OutgoingEdgeQuery;
pub use api::OutgoingEdgeResponse;
pub use graph::FlushRecord;
pub use graph::Graph;
pub use graph::NodeMap;
pub use graph::PendingAction;
pub use loader::LoadError;
