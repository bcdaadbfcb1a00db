//! Validation of a data-pipeline topology: cycle detection, data-kind
//! checking along every source-to-sink path, and resolution of declared
//! inputs against the outputs that actually exist.

pub mod kind;
pub mod text;
pub mod graph;
pub mod paths;
pub mod typing;
pub mod inputs;
pub mod laws;

pub use kind::DataType;
pub use graph::{Graph, GraphView, Node, NodeView};
