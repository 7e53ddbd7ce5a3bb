//! A modular signal-processing graph: components with typed ports, validated
//! connections kept acyclic, a deterministic evaluation order, and the
//! ring-buffer bridge between the graph and an audio device.
pub mod bridge;
pub mod graph;
pub mod laws;
pub mod model_utils;
pub mod topology;
pub mod types;

pub use graph::{Graph, Step};
pub use types::{Connection, ConnectionError, IOType, Node};
