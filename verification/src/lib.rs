//! Core of a log-structured merge tree: the internal value model, the
//! multi-version (MVCC) collapse stream, sorted-run merging, the level
//! manifest with its disjointness invariant, and the compaction worker.
//!
//! All state is modelled in memory; a thin unverified shell may persist
//! manifests and delete obsolete segment folders using the action lists
//! that the compaction worker returns.

pub mod blob;
pub mod coding;
pub mod compaction;
pub mod levels;
pub mod memtable;
pub mod merge;
pub mod multi_reader;
pub mod mvcc_stream;
pub mod tree;
pub mod value;
