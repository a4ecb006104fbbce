//! The errors of translation and of memory access.
use vstd::prelude::*;
use crate::types::Address;

verus! {

/// What went wrong.
#[derive(Clone, Copy, Debug, PartialEq, Eq, Structural, Hash)]
pub enum ErrorKind {
    /// A paging entry on the way is marked not present.
    PageNotPresent,
    /// A paging entry on the way has a reserved bit set.
    InvalidEntry,
    /// The virtual address is not one the architecture can form.
    AddressNonCanonical,
    /// The backend could not read.
    PhysicalReadError,
    /// The backend could not write.
    PhysicalWriteError,
    /// The access lies outside the memory the backend serves.
    OutOfBounds,
    /// No byte of a read could be translated.
    PartialTranslation,
    /// The request itself is malformed.
    InvalidArgument,
    /// The backend could not be opened.
    BackendOpenError,
}

/// An error, with the address it concerns and, for a failure inside a page
/// walk, the level of the paging structure at which it arose (0 otherwise).
#[derive(Clone, Copy, Debug, PartialEq, Eq, Structural, Hash)]
pub struct Error {
    pub kind: ErrorKind,
    pub addr: Address,
    pub level: u8,
}

impl Error {
    pub fn new(kind: ErrorKind, addr: Address) -> (e: Error)
        ensures
            e == (Error { kind, addr, level: 0 }),
    {
        Error { kind, addr, level: 0 }
    }

    pub fn at_level(kind: ErrorKind, addr: Address, level: u8) -> (e: Error)
        ensures
            e == (Error { kind, addr, level }),
    {
        Error { kind, addr, level }
    }
}

} // verus!
