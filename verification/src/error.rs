//! The failures the crate reports.

use vstd::prelude::*;

verus! {

/// What can go wrong while a database is built or a file is checked.
#[derive(Debug, PartialEq, Eq)]
pub enum Error {
    /// A file could not be read or written; carries its path.
    Io(String),
    /// A cache snapshot does not follow the snapshot format.
    CorruptCache,
    /// A cheat sheet held no usable icon entry.
    ParseFailure,
    /// A failure of a lower layer, with its message.
    Any(String),
}

pub type Result<T> = core::result::Result<T, Error>;

} // verus!
