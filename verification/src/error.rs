//! Error types.

use vstd::prelude::*;

verus! {

/// Why a sorted table could not be read or written.
#[derive(Debug, Clone, Copy, PartialEq, Eq, Structural)]
pub enum StorageError {
    /// The bytes are not a run of well-formed records in internal-key order,
    /// or do not have the size that the table's meta block gives.
    Corrupted,
    /// The table with this id was asked for and not supplied.
    SstableNotFound(u64),
    /// The table has no block with this number.
    BlockNotFound(usize),
    /// A user key is too long for its length to be written in four bytes.
    KeyTooLong,
    /// A value is too long for its length to be written in four bytes.
    ValueTooLong,
    /// An entry was added that comes before the entry added last.
    OutOfOrder,
    /// No compression algorithm has this code.
    UnknownCompression(u8),
    /// The log no longer holds the index asked for: it lies before the
    /// log's first index.
    LogCompacted,
    /// The log does not hold the index asked for yet: it lies behind the
    /// log's last index.
    LogUnavailable,
}

/// Errors of the store.
#[derive(Debug, Clone, PartialEq, Eq)]
pub enum Error {
    StorageError(StorageError),
    /// A watermark was to be replaced by a smaller one: `(current, new)`.
    InvalidWatermark(u64, u64),
    TransportError(String),
    RpcStatus(String),
    ConfigError(String),
    Other(String),
}

impl Error {
    /// An error of no particular kind, with its message.
    pub fn err(e: String) -> (r: Error)
        ensures
            r == Error::Other(e),
    {
        Error::Other(e)
    }

    /// A configuration error, with its message.
    pub fn config_err(e: String) -> (r: Error)
        ensures
            r == Error::ConfigError(e),
    {
        Error::ConfigError(e)
    }
}

} // verus!
