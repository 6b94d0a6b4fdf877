//! The error taxonomy that every fallible engine operation reports.

use vstd::prelude::*;

verus! {

/// Errors that can occur when interacting with a trivial database.
///
/// Absence of a key on a fetch or at the end of an iteration is a normal
/// empty result, not an error; only genuine failures appear here.
#[derive(Clone, Copy, Debug, PartialEq, Eq, Structural)]
pub enum Error {
    /// Database is corrupt
    Corrupt,
    /// I/O error
    IO,
    /// Locked
    Lock,
    /// Out of memory
    OOM,
    /// Entry exists
    Exists,
    /// No lock
    NoLock,
    /// Lock timeout expired
    LockTimeout,
    /// Database is read-only
    ReadOnly,
    /// Entry does not exist
    NoExist,
    /// Invalid request
    Invalid,
    /// Nesting while that was not allowed
    Nesting,
    /// Escape value for an unrecognized underlying error code
    Other(u32),
}

impl Error {
    /// The fixed mapping from raw engine error codes to the taxonomy.
    /// Code 0 means success and has no error of its own; it falls through
    /// to the escape variant like any other unrecognized code.
    pub open spec fn spec_from_code(code: u32) -> Error {
        match code {
            1u32 => Error::Corrupt,
            2u32 => Error::IO,
            3u32 => Error::Lock,
            4u32 => Error::OOM,
            5u32 => Error::Exists,
            6u32 => Error::NoLock,
            7u32 => Error::LockTimeout,
            8u32 => Error::NoExist,
            9u32 => Error::Invalid,
            10u32 => Error::ReadOnly,
            11u32 => Error::Nesting,
            _ => Error::Other(code),
        }
    }

    /// A short fixed description of the error, in place of a display impl.
    pub fn message(&self) -> &'static str {
        match self {
            Error::Corrupt => "Database is corrupt",
            Error::IO => "I/O error",
            Error::Lock => "Locked",
            Error::OOM => "OOM",
            Error::Exists => "Exists",
            Error::NoLock => "NoLock",
            Error::LockTimeout => "Lock timeout expired",
            Error::ReadOnly => "Database is read-only",
            Error::NoExist => "NoExist",
            Error::Invalid => "Invalid",
            Error::Nesting => "Nesting",
            Error::Other(_) => "Unknown error code",
        }
    }
}

impl From<u32> for Error {
    fn from(e: u32) -> (r: Self)
        ensures
            r == Error::spec_from_code(e),
    {
        match e {
            1u32 => Error::Corrupt,
            2u32 => Error::IO,
            3u32 => Error::Lock,
            4u32 => Error::OOM,
            5u32 => Error::Exists,
            6u32 => Error::NoLock,
            7u32 => Error::LockTimeout,
            8u32 => Error::NoExist,
            9u32 => Error::Invalid,
            10u32 => Error::ReadOnly,
            11u32 => Error::Nesting,
            _ => Error::Other(e),
        }
    }
}

impl vstd::std_specs::convert::FromSpecImpl<u32> for Error {
    open spec fn obeys_from_spec() -> bool {
        true
    }

    open spec fn from_spec(e: u32) -> Error {
        Error::spec_from_code(e)
    }
}

} // verus!
