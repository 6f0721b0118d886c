//! In-memory write buffer of a log-structured storage engine: an ordered,
//! multi-version index over versioned mutations, the mutable and frozen
//! buffers built on it, and the coordinator that routes between them.

pub mod db_config;
pub mod entry;
pub mod keys;
pub mod memtable;
pub mod skiplist;
