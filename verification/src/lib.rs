//! A key-value store for strings, kept as an append-only log of commands
//! with an index of the live records held in memory.
//!
//! A [`KvStore`] holds the bytes of its active log. `set` and `remove`
//! append a record and bring the index up to date; `get` looks the key up
//! in the index and reads its record from the log; when more than 1 MiB of
//! the log is dead, the live records are written to a new log. The store
//! does no file I/O: [`KvStore::open`] takes the bytes of a log file, and
//! [`KvStore::change_since`] says what is to be written back.
//!
//! - `record`: the commands and their text, one JSON object each;
//! - `json`: the strings of a record, written and read by `serde_json`;
//! - `index`: the index, from keys to places in the log;
//! - `model`: the state of a store as mathematics, and what replay, append
//!   and compaction do to it;
//! - `store`: the store itself;
//! - `history`: what holds after any sequence of updates;
//! - `naming`: the names of log files;
//! - `error`: the failures.

pub mod error;
pub mod history;
pub mod index;
pub mod json;
pub mod model;
pub mod naming;
pub mod record;
pub mod store;

pub use error::KvsError;
pub use index::LogPointer;
pub use store::{KvStore, LogChange, LogMark};
