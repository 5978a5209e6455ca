//! A log-structured, persistent key-value store.
//!
//! Values live in an append-only log of raw bytes; an in-memory [`Index`]
//! maps each live key to the byte range holding its current value; a
//! compactor rewrites the log to contain exactly the live values. The log
//! itself carries no key metadata, so the index is persisted separately as
//! a text snapshot and is the sole record of which bytes are live.
//!
//! The store works on plain byte buffers; reading and writing the backing
//! files is left to the caller.

pub mod codec;
pub mod entry;
pub mod error;
pub mod index;
pub mod kv;
pub mod logfile;
pub mod server;

pub use crate::entry::Entry;
pub use crate::error::Error;
pub use crate::index::Index;
pub use crate::kv::KvStore;
pub use crate::logfile::LogFile;
pub use crate::server::KvsEngine;
