//! Storage and indexing core of an embedded document search database.
//!
//! The crate holds the schema model and its binary record, the byte encoding
//! of document keys, updates that gather column writes and index entries,
//! their ingestion into an ordered key space, and consistent read views
//! over snapshots of that key space.

pub mod database;
pub mod error;

use vstd::prelude::*;

verus! {

/// Identifier of a document: derived from its external key, stable across updates.
pub type DocumentId = u64;

} // verus!
