//! Supporting structures: keyed tables and the structural difference tree.
pub mod table;
pub mod diff;
