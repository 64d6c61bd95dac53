//! A persistent, capacity-bounded, least-recently-used cache of grouped files.
//!
//! The verified part of the library holds the cache's decisions: which keys
//! and file names are acceptable, the recency index with its eviction rule,
//! the rebuilding of that index from a scan of the cache root, and the
//! bookkeeping of the directory walk that feeds the scan.
pub mod error;
pub mod lru;
pub mod name;
pub mod order;
pub mod scan;
pub mod walk;
