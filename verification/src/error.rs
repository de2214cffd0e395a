//! The kinds of failure that a page can meet on its way to the screen.

use vstd::prelude::*;

verus! {

/// Why the bytes of a page could not be read from the archive.
#[derive(Clone, Copy, Debug, PartialEq, Eq, Hash, Structural)]
pub enum PageReadError {
    OutOfRange,
    IoError,
    Corrupt,
}

/// Why the bytes of a page could not be decoded.
#[derive(Clone, Copy, Debug, PartialEq, Eq, Hash, Structural)]
pub enum DecodeError {
    FormatError,
    OutOfMemory,
}

/// Why a page is shown as a placeholder.
#[derive(Clone, Copy, Debug, PartialEq, Eq, Hash, Structural)]
pub enum ErrorKind {
    OutOfRange,
    IoError,
    Corrupt,
    FormatError,
    OutOfMemory,
    TextureUpload,
}

impl ErrorKind {
    /// The kind of a failed read.
    pub open spec fn of_read(e: PageReadError) -> ErrorKind {
        match e {
            PageReadError::OutOfRange => ErrorKind::OutOfRange,
            PageReadError::IoError => ErrorKind::IoError,
            PageReadError::Corrupt => ErrorKind::Corrupt,
        }
    }

    /// The kind of a failed decode.
    pub open spec fn of_decode(e: DecodeError) -> ErrorKind {
        match e {
            DecodeError::FormatError => ErrorKind::FormatError,
            DecodeError::OutOfMemory => ErrorKind::OutOfMemory,
        }
    }

    /// The kind of a failed read.
    pub fn from_read(e: PageReadError) -> (k: ErrorKind)
        ensures
            k == ErrorKind::of_read(e),
    {
        match e {
            PageReadError::OutOfRange => ErrorKind::OutOfRange,
            PageReadError::IoError => ErrorKind::IoError,
            PageReadError::Corrupt => ErrorKind::Corrupt,
        }
    }

    /// The kind of a failed decode.
    pub fn from_decode(e: DecodeError) -> (k: ErrorKind)
        ensures
            k == ErrorKind::of_decode(e),
    {
        match e {
            DecodeError::FormatError => ErrorKind::FormatError,
            DecodeError::OutOfMemory => ErrorKind::OutOfMemory,
        }
    }
}

} // verus!
