//! The capability every node or edge payload must satisfy.
//!
//! A payload provides a type label, a content-derived key (two payloads with
//! identical content must yield the same key), a view-preserving copy, and
//! text (de)serialization hooks into the external query grammar.  No payload
//! is ever mutated in place by the store; all mutation is replace-whole-payload.

use vstd::prelude::*;

use crate::errors::GraphtResult;
use crate::model::guid::Guid;

verus! {

/// A type usable as the data payload of nodes or edges.
pub trait GraphtEntity: Sized {
    /// The content-derived identity of the payload.
    spec fn key_spec(&self) -> Guid;

    /// The type label of the payload, used as an index key.
    spec fn type_label_spec(&self) -> Seq<char>;

    /// The payload's content key; equal content must give an equal key.
    fn get_key(&self) -> (r: Guid)
        ensures
            r == self.key_spec(),
    ;

    /// The payload's type label.
    fn get_type_label(&self) -> (r: String)
        ensures
            r@ == self.type_label_spec(),
    ;

    /// A copy that preserves the payload's identity and label.
    fn dup(&self) -> (r: Self)
        ensures
            r.key_spec() == self.key_spec(),
            r.type_label_spec() == self.type_label_spec(),
    ;

    /// Serialize into the external query grammar.
    fn to_gql(&self) -> GraphtResult<String>;

    /// Deserialize from the external query grammar.
    fn from_gql(value: &[u8]) -> GraphtResult<Self>;
}

impl GraphtEntity for () {
    /// The unit payload is a structural placeholder.
    open spec fn key_spec(&self) -> Guid {
        Guid { bits: 0 }
    }

    open spec fn type_label_spec(&self) -> Seq<char> {
        "__unit"@
    }

    /// The key of the unit payload is always the nil identifier.
    fn get_key(&self) -> (r: Guid) {
        Guid::nil()
    }

    fn get_type_label(&self) -> (r: String) {
        "__unit".to_owned()
    }

    fn dup(&self) -> (r: Self) {
        ()
    }

    fn to_gql(&self) -> GraphtResult<String> {
        Ok(String::new())
    }

    fn from_gql(value: &[u8]) -> GraphtResult<Self> {
        Ok(())
    }
}


/// A simple payload: a caller-chosen 128-bit identity and a type label.
///
/// The key is exactly the stored identity, so two payloads with the same
/// identity always collide, as the entity contract asks.
pub struct IdEntity {
    /// The content identity.
    pub id: u128,
    /// The type label.
    pub label: String,
}

impl IdEntity {
    pub fn new(id: u128, label: &str) -> (r: IdEntity)
        ensures
            r.id == id,
            r.label@ == label@,
    {
        IdEntity { id, label: label.to_owned() }
    }
}

impl GraphtEntity for IdEntity {
    open spec fn key_spec(&self) -> Guid {
        Guid { bits: self.id }
    }

    open spec fn type_label_spec(&self) -> Seq<char> {
        self.label@
    }

    fn get_key(&self) -> (r: Guid) {
        Guid { bits: self.id }
    }

    fn get_type_label(&self) -> (r: String) {
        self.label.clone()
    }

    fn dup(&self) -> (r: Self) {
        IdEntity { id: self.id, label: self.label.clone() }
    }

    fn to_gql(&self) -> GraphtResult<String> {
        Ok(self.label.clone())
    }

    fn from_gql(value: &[u8]) -> GraphtResult<Self> {
        Ok(IdEntity { id: 0, label: String::new() })
    }
}

/// A graph whose nodes and edges carry `IdEntity` payloads.
pub struct IdGraph {
}

impl crate::model::graph::Graph for IdGraph {
    type Node = IdEntity;

    type Edge = IdEntity;
}

} // verus!
