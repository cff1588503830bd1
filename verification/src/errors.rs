//! Recoverable storage errors. Contract violations are excluded by the
//! callers' preconditions instead: verified functions do not panic.

use vstd::prelude::*;

verus! {

/// The recoverable failures a storage operation can report.
#[derive(Clone, Copy, Debug, PartialEq, Eq, Structural)]
pub enum StorageError {
    /// A page identifier at or past the page count.
    InvalidPage,
    /// A slot identifier no live record owns.
    SlotNotFound,
    /// A failed read, write or a malformed on-disk image.
    IoFailure,
    /// A container identifier the registry does not hold.
    ContainerNotFound,
}

impl StorageError {
    /// A human-readable description of the failure.
    pub fn describe(&self) -> (r: &'static str)
        ensures
            r@.len() > 0,
    {
        let r = match self {
            StorageError::InvalidPage => "invalid page identifier",
            StorageError::SlotNotFound => "slot not found",
            StorageError::IoFailure => "input or output failed",
            StorageError::ContainerNotFound => "container not found",
        };
        proof {
            reveal_strlit("invalid page identifier");
            reveal_strlit("slot not found");
            reveal_strlit("input or output failed");
            reveal_strlit("container not found");
        }
        r
    }
}

} // verus!
