//! The failures that the store reports.

use vstd::prelude::*;

verus! {

/// Why an operation of the store failed.
#[derive(Debug, PartialEq, Eq)]
pub enum KvsError {
    /// A failure that fits no other variant.
    Unknown,
    /// A log file could not be created, opened, read or written.
    CantOpen,
    /// A record could not be written as text, or bytes of the log could not
    /// be read as a record.
    ParseError,
    /// The key has no value in the store.
    NotFound {
        /// The key that was asked for.
        key: String,
    },
}

} // verus!
