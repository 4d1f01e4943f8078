//! The failure taxonomy the log and the generic store surface to callers.

use vstd::prelude::*;

verus! {

/// Every engine-level failure reaches the caller as one of these, carrying
/// the underlying message where there is one; none is silently swallowed.
#[derive(Debug, PartialEq, Eq)]
pub enum LogError {
    /// The store could not be opened (path, lock, or permission failure).
    Open(String),
    /// The operation was attempted after the handle was closed.
    Closed,
    /// An underlying write, batched write, or range delete failed.
    Write(String),
    /// A secondary replica could not re-sync with its primary.
    CatchUp(String),
    /// An existing key could not be used as an 8-byte sequence number while
    /// seeding the allocator: the store is corrupt or keyed by another
    /// scheme.
    Decode,
    /// Closing failed because the final flush failed.
    Close(String),
}

} // verus!
