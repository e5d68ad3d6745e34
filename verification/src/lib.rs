//! An embedded, single-writer, persistent ordered key-value store built on
//! the log-structured merge-tree discipline.
//!
//! Keys and values are opaque byte strings.  Writes accumulate in an ordered
//! memtable guarded by a write-ahead log, are flushed to immutable sorted
//! string tables (SSTs), and are periodically merged into deeper levels.  A
//! durable manifest names the set of live SSTs.
//!
//! This crate holds the verified core: the binary codec, the write-ahead-log
//! batch discipline, the memtable, the manifest catalog, the SST format with
//! its sparse index, and the compaction merge.  All file handling lives with
//! the embedding application, which hands byte buffers in and out.

pub mod codec;
pub mod keys;
pub mod log;
pub mod manifest;
pub mod memtable;
pub mod sstable;
pub mod store;
