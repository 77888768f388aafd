//! An in-memory hierarchy of note nodes backed by a relational row store.
//!
//! Groups contain subgroups; each subgroup owns a tree of nodes of four
//! kinds.  The tree is hydrated from the store, keeps parent/child
//! adjacency, and guards every mutation with per-kind validation rules.

pub mod groups_mod;
pub mod groups_representation;
pub mod models;
pub mod subgroups_mod;
pub mod nodes_mod;
pub mod nodes_representation;
pub mod store;
pub mod tree_laws;
pub mod validation_errors;
