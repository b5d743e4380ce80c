//! An in-memory graph store: a slot-indexed container of graph objects
//! (atoms, links, abstract objects) with value deduplication, back-link
//! maintenance for cheap traversal, a referential-integrity guard on
//! removal, and an index-stable serialization codec.
pub mod types;
pub mod slot_vec;
pub mod index_set;
pub mod graph;
pub mod refs;
pub mod codec;
pub mod laws;
