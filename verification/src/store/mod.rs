//! The store: collections of nodes and edges with secondary indices, and
//! the dependency-ordered insertion engine.

pub mod edgeset;
pub use edgeset::{EdgeSet, EdgeStats};

pub mod nodeset;
pub use nodeset::{NodeSet, NodeStats};

pub mod dataset;
pub use dataset::{DataSet, DataSetStats};

pub mod value;
pub use value::Value;
