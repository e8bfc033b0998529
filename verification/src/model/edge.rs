//! The definition of a relationship between two nodes.
//!
//! An edge is directional (source to target) and its identity is derived
//! from (source identity, target identity, payload key), so structurally
//! identical edges collide to the same identifier regardless of creation
//! order.

use vstd::prelude::*;

use crate::model::graph::Graph;
use crate::model::guid::{spec_guid3, Guid};
use crate::model::node::{edge_h, wf_edge, wf_node, EdgeView, Node};
use crate::model::entity::GraphtEntity;

verus! {

/// A relationship from a source node to a target node.
pub struct Edge<G: Graph> {
    /// The content-derived identity of the edge.
    pub guid: Guid,
    /// A snapshot of the left side node.
    pub source: Node<G>,
    /// A snapshot of the right side node.
    pub target: Node<G>,
    /// The payload carried by the edge.
    pub props: G::Edge,
    /// Advisory metadata: sort weight and direction tag.
    pub options: EdgeOpts,
}

impl<G: Graph> Edge<G> {
    /// The mathematical value of the edge.
    pub open spec fn ev(&self) -> EdgeView
        decreases edge_h(self),
    {
        EdgeView {
            guid: self.guid,
            key: self.props.key_spec(),
            tlabel: self.props.type_label_spec(),
            source: Box::new(self.source.nv()),
            target: Box::new(self.target.nv()),
        }
    }

    /// The endpoint snapshots are internally consistent.
    pub open spec fn inv(&self) -> bool
        decreases edge_h(self),
    {
        self.source.inv() && self.target.inv()
    }

    /// Construct the relationship; its identity is derived from the two
    /// endpoint identities and the payload key.
    pub fn new(source: &Node<G>, target: &Node<G>, properties: G::Edge) -> (r: Edge<G>)
        requires
            source.inv(),
            target.inv(),
        ensures
            r.ev() == (EdgeView {
                guid: spec_guid3(source.nv().guid, target.nv().guid, properties.key_spec()),
                key: properties.key_spec(),
                tlabel: properties.type_label_spec(),
                source: Box::new(source.nv()),
                target: Box::new(target.nv()),
            }),
            r.inv(),
            wf_edge(r.ev()),
            r.options.weight is None,
            r.options.direction is OneWay,
    {
        let guid = Self::make_guid(source.get_guid(), target.get_guid(), properties.get_key());
        Edge {
            guid,
            source: source.dup(),
            target: target.dup(),
            props: properties,
            options: EdgeOpts::new(),
        }
    }

    /// Derive an edge identity from the endpoint identities and the payload
    /// key.
    pub fn make_guid(source: Guid, target: Guid, key: Guid) -> (r: Guid)
        ensures
            r == spec_guid3(source, target, key),
    {
        Guid::derive3(source, target, key)
    }

    pub fn get_guid(&self) -> (r: Guid)
        ensures
            r == self.ev().guid,
    {
        self.guid
    }

    /// The payload's content key.
    pub fn get_key(&self) -> (r: Guid)
        ensures
            r == self.ev().key,
    {
        self.props.get_key()
    }

    /// A copy of the source endpoint.
    pub fn get_source(&self) -> (r: Node<G>)
        requires
            self.inv(),
        ensures
            r.nv() == *self.ev().source,
            r.inv(),
    {
        self.source.dup()
    }

    /// A copy of the target endpoint.
    pub fn get_target(&self) -> (r: Node<G>)
        requires
            self.inv(),
        ensures
            r.nv() == *self.ev().target,
            r.inv(),
    {
        self.target.dup()
    }

    /// A copy of the payload.
    pub fn get_properties(&self) -> (r: G::Edge)
        ensures
            r.key_spec() == self.ev().key,
            r.type_label_spec() == self.ev().tlabel,
    {
        self.props.dup()
    }

    /// The payload's type label.
    pub fn get_type_label(&self) -> (r: String)
        ensures
            r@ == self.ev().tlabel,
    {
        self.props.get_type_label()
    }

    /// A copy with the same view.
    pub fn dup(&self) -> (r: Edge<G>)
        requires
            self.inv(),
        ensures
            r.ev() == self.ev(),
            r.inv(),
        decreases edge_h(self),
    {
        Edge {
            guid: self.guid,
            source: self.source.dup(),
            target: self.target.dup(),
            props: self.props.dup(),
            options: self.options,
        }
    }
}

impl<G: Graph> PartialEq for Edge<G> {
    /// Edges are compared by payload key: two edges carrying the same
    /// payload content are the same relationship.
    fn eq(&self, other: &Self) -> (r: bool) {
        self.props.get_key() == other.props.get_key()
    }
}

impl<G: Graph> vstd::std_specs::cmp::PartialEqSpecImpl for Edge<G> {
    open spec fn obeys_eq_spec() -> bool {
        true
    }

    open spec fn eq_spec(&self, other: &Self) -> bool {
        self.ev().key == other.ev().key
    }
}

/// Generic options that can be placed on each edge; advisory metadata only.
#[derive(Clone, Copy, Debug)]
pub struct EdgeOpts {
    /// An optional weight for ordering similar edges.
    pub weight: Option<i64>,
    /// Whether a reciprocal edge is expected to exist.
    pub direction: EdgeDirection,
}

impl EdgeOpts {
    pub fn new() -> (r: EdgeOpts)
        ensures
            r.weight is None,
            r.direction is OneWay,
    {
        EdgeOpts { weight: None, direction: EdgeDirection::OneWay }
    }
}

/// Whether the edge is usable only from source to target.
///
/// A `TwoWay` tag does not create the reverse edge; it only records that one
/// is expected to exist, since the weight might differ per direction.
#[derive(Clone, Copy, Debug, PartialEq, Eq, Structural)]
pub enum EdgeDirection {
    /// This edge goes only one way.
    OneWay,
    /// An edge whose reverse counterpart is expected to exist.
    TwoWay,
}

} // verus!
