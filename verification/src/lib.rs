//! Hierarchical Navigable Small World graphs for approximate nearest-neighbour search.
pub mod bench;
pub mod dataset;
pub mod distance;
pub mod graph;
pub mod link;
pub mod node;
pub mod sorted;
pub mod text;

pub use graph::Hnsw;
pub use link::Link;
pub use node::Node;
