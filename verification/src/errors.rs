//! The error taxonomy shared by every store operation.

use vstd::prelude::*;

verus! {

/// The classes of failure a store operation can report.
#[derive(Clone, Copy, Debug, PartialEq, Eq, Structural, Hash)]
pub enum Kind {
    /// An identity collision on direct insertion; recoverable, and absorbed
    /// into a no-op by the top-level insertion engine.
    DuplicateKey,
    /// A reference to an entity that is not in the store.
    NotFound,
    /// A structural invariant violation, such as a broken path continuity.
    InvalidItem,
    /// An entity payload of an unexpected type at a (de)serialization boundary.
    TypeMismatch,
    /// A failure to read or write the external text grammar.
    SerializationError,
}

/// An error raised by the graph store, carrying enough context for the caller
/// to decide whether to retry the same item or inspect the store's state.
#[derive(Clone, Debug)]
pub struct GraphtError {
    /// The class of the failure.
    pub kind: Kind,
    /// A short description of what went wrong.
    pub msg: String,
}

impl GraphtError {
    pub fn new(kind: Kind, msg: &str) -> (r: GraphtError)
        ensures
            r.kind == kind,
            r.msg@ == msg@,
    {
        GraphtError { kind, msg: msg.to_owned() }
    }

    /// Whether the error belongs to the given class.
    pub fn is(&self, kind: Kind) -> (r: bool)
        ensures
            r == (self.kind == kind),
    {
        self.kind == kind
    }

    /// The class of the failure.
    pub fn get_kind(&self) -> (r: Kind)
        ensures
            r == self.kind,
    {
        self.kind
    }

    /// A readable rendering of the error.
    pub fn message(&self) -> (r: String)
        ensures
            r@ == self.msg@,
    {
        self.msg.clone()
    }
}

/// The result type used throughout the store.
pub type GraphtResult<T> = Result<T, GraphtError>;

} // verus!
