//! A holistic view of a full graph: the payload types its nodes and edges
//! carry.

use vstd::prelude::*;

use crate::model::entity::GraphtEntity;

verus! {

/// Defines the node and edge payload types available in a graph.
pub trait Graph: Sized {
    type Node: GraphtEntity;

    type Edge: GraphtEntity;
}

} // verus!
