//! A wrapper for nodes, edges, and paths so they can be inserted
//! interchangeably.

use vstd::prelude::*;

use crate::model::edge::Edge;
use crate::model::graph::Graph;
use crate::model::guid::Guid;
use crate::model::node::{wf_edge, wf_node, EdgeView, Node, NodeView};
use crate::model::path::{path_guid, steps_vv, Path, StepV};

verus! {

/// One insertable value: a node, an edge, or a path.
pub enum Value<G: Graph> {
    Node(Node<G>),
    Edge(Edge<G>),
    Path(Path<G>),
}

/// The mathematical value of an insertable value.
pub ghost enum ValueV {
    Node(NodeView),
    Edge(EdgeView),
    Path(Seq<StepV>),
}

impl<G: Graph> Value<G> {
    /// The mathematical value.
    pub open spec fn vv(&self) -> ValueV {
        match self {
            Value::Node(n) => ValueV::Node(n.nv()),
            Value::Edge(e) => ValueV::Edge(e.ev()),
            Value::Path(p) => ValueV::Path(p.pv()),
        }
    }

    /// The wrapped value is internally consistent.
    pub open spec fn inv(&self) -> bool {
        match self {
            Value::Node(n) => n.inv() && wf_node(n.nv()),
            Value::Edge(e) => e.inv() && wf_edge(e.ev()),
            Value::Path(p) => p.inv(),
        }
    }

    /// The identity of the wrapped value.
    pub fn get_guid(&self) -> (r: Guid)
        ensures
            self matches Value::Node(n) ==> r == n.nv().guid,
            self matches Value::Edge(e) ==> r == e.ev().guid,
            self matches Value::Path(p) ==> r == p.guid,
    {
        match self {
            Value::Node(node) => node.get_guid(),
            Value::Edge(edge) => edge.get_guid(),
            Value::Path(path) => path.get_guid(),
        }
    }
}

} // verus!
