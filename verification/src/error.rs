//! Errors of the stores.

use vstd::prelude::*;

verus! {

/// Why an operation was refused.
#[derive(Clone, Copy, Debug, PartialEq, Eq, Structural)]
pub enum StorageError {
    /// The bytes are not what the store writes.
    InvalidData,
    /// There is no room for what was to be added.
    StorageFull,
    /// Something of that name is there already.
    AlreadyExists,
    /// Nothing of that name is there.
    NotFound,
    /// The arguments make no sense together.
    InvalidInput,
    /// The bytes end too early.
    UnexpectedEof,
    /// There is no further number to give out.
    Exhausted,
}

} // verus!
