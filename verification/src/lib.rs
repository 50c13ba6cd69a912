//! A persistent, encrypted, content-addressed tree for long sequences of
//! typed key/value entries, with per-node summaries that let range queries
//! prune whole subtrees without fetching them.
//!
//! Entries are appended through a [`txn::Transaction`] into a
//! [`builder::StreamBuilder`], packed into leaf nodes, sealed into balanced
//! branch levels, and persisted through a [`forest::Forest`] into a
//! content-addressed block store. A [`builder::Tree`] snapshot is an immutable
//! handle to one root link; traversals read back the exact entry sequence,
//! optionally pruned by a [`types::Query`].

pub mod types;
pub mod codec;
pub mod crypto;
pub mod digest;
pub mod store;
pub mod semantics;
pub mod forest;
pub mod builder;
pub mod txn;
pub mod laws;
