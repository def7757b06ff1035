//! The kinds of failure of the file system.

use vstd::prelude::*;

verus! {

/// The kinds of failure that an operation of the file system reports.
#[derive(Clone, Copy, Debug, PartialEq, Eq, Structural)]
pub enum Error {
    /// A segment of a path names nothing.
    NotFound,
    /// A malformed range, a file used as a directory, an unknown kind byte,
    /// a record that ends too early, or an empty path where a name is needed.
    InvalidInput,
    /// No free block is left, or the store could not grow.
    OutOfMemory,
    /// Anything else, a clash of names among them.
    Other,
    /// A failure handed up from the store's own read, write or grow.
    Io,
}

} // verus!
