//! The unified error surface of the store.

use vstd::prelude::*;

verus! {

/// Every failure an operation of the store can surface.
///
/// The payload-carrying variants hold a plain message: the host layer that
/// performs real file input and output builds `Io` values from the operating
/// system's errors, and the decoder builds `Serde` values when a segment holds
/// a malformed record.
#[derive(Debug)]
pub enum KVStoreError {
    /// An underlying filesystem operation failed (raised by the host layer).
    Io(String),
    /// A record could not be decoded during recovery or `get`.
    Serde(String),
    /// `remove` was called for a key that is absent.
    KeyNotFound,
    /// The index points at a location whose record is not a `SET`.
    UnknownCommandType,
    /// The directory was initialized by a different engine.
    ChangeEngineError,
    /// A catch-all for domain errors of collaborators.
    CommonStringError(String),
}

} // verus!
