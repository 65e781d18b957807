//! An in-memory index of IP-range-to-AS mappings.
//!
//! The crate ingests a tabular dataset of IP ranges, builds a sorted,
//! immutable, binary-searchable index, and answers point lookups against
//! it while a background refresher atomically swaps in fresh indexes.

pub mod handler;
pub mod holder;
pub mod index;
pub mod ip;
pub mod record;
pub mod text;
