//! Error kinds shared by every subsystem.
use vstd::prelude::*;

verus! {

/// The ways an operation of this crate can fail.
#[derive(Debug, Clone, Copy, PartialEq, Eq, Structural)]
pub enum ErrNO {
    /// Indicates an operation was successful.
    _OK,
    /// A specific physical range, or a nonempty bucket, could not be located.
    NotFound,
    /// Physical or virtual memory is exhausted.
    NoMem,
    /// An address or size is not aligned as required.
    BadAlign,
    /// An address lies outside the managed bounds.
    OutOfRange,
    /// A buffer or region is too small for what it must hold.
    LackBuf,
    /// No device tree blob was found.
    NoDTB,
    /// The device tree blob is malformed.
    BadDTB,
    /// The current state of the object does not allow the operation, or one
    /// of its preconditions is not satisfied.
    BadState,
    /// A range does not fit inside the region it was meant for.
    BadRange,
    /// A size, alignment or range argument is malformed.
    InvalidArgs,
    /// No run of free units of the requested length exists.
    NoResources,
    /// A mapping already exists at the requested address.
    AlreadyExists,
    /// The operation is not supported.
    NotSupported,
}

} // verus!
