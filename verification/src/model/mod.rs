//! The graph primitives and their payload contract.

pub mod guid;
pub use guid::Guid;

pub mod entity;
pub use entity::GraphtEntity;

pub mod graph;
pub use graph::Graph;

pub mod node;
pub use node::Node;

pub mod edge;
pub use edge::Edge;

pub mod path;
pub use path::{Path, PathConfig, PathStep};
