//! A log-structured key/value store: an append-only log of mutations, an
//! in-memory index from each key to the record of its latest value, and a
//! compaction that rewrites the log with the live records alone.
//!
//! The library works on the bytes of the log; keeping them in a file is left
//! to the caller, which appends what `set` and `remove` added, or replaces the
//! file when the rewrite count shows that the log was compacted.
pub mod codec;
pub mod log;
pub mod store;

pub use codec::{Command, decode, encode};
pub use log::LogFile;
pub use store::{KvError, KvStore, COMPACT_THRESHOLD};
