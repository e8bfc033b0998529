//! An embeddable in-memory graph store: typed nodes and edges built
//! incrementally, deduplicated by structural identity, and queried for
//! aggregate statistics.
//!
//! Callers build `Node`, `Edge` and `Path` values from entity payloads,
//! hand a [`store::Value`] to a [`store::DataSet`], and observe the outcome
//! through [`stats::CrudResultStats`] snapshots and the [`utils::diff`]
//! comparison tree.

pub mod errors;

pub mod model;

pub mod stats;

pub mod store;

pub mod utils;
