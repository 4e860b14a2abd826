//! Core of a replicated log-structured-merge key-value store: the compaction
//! engine with its sorted tables, and the decision logic of the Raft worker.

pub mod compaction;
pub mod entry;
pub mod error;
pub mod fanout;
pub mod filter;
pub mod format;
pub mod log_store;
pub mod merge;
pub mod order;
pub mod partitioner;
pub mod raft_log;
pub mod ready;
pub mod service;
pub mod sstable;
pub mod worker;
