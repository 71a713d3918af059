use vstd::prelude::*;

verus! {

/// Category of a failure of the underlying byte stream, named as the host's
/// I/O error model names them.
#[derive(Clone, Copy, Debug, PartialEq, Eq, Structural)]
pub enum IoErrorKind {
    NotFound,
    PermissionDenied,
    InvalidInput,
    InvalidData,
    UnexpectedEof,
    OutOfMemory,
    Unsupported,
    Other,
}

/// Everything that can go wrong while working with a backpack.
#[derive(Clone, Debug, PartialEq, Eq)]
pub enum PackError {
    /// The underlying byte stream failed.
    Io(IoErrorKind),
    /// The leading eight bytes are not the backpack magic.
    BadMagic,
    /// A name in the table of contents is not valid UTF-8.
    Utf8Error,
    /// The version found in the backpack is unknown to this build.
    Incompatible(u16),
    /// The backing stream of the backpack has been taken.
    Closed,
    /// No visible file of that name is in the backpack.
    FileNotFound(String),
    /// A stream without a name was offered for packing.
    NoName,
    /// An entry refers to a buffer that the backpack does not hold.
    InvalidEntry,
}

impl PackError {
    /// The host I/O category that stands for this error.
    pub open spec fn spec_io_kind(self) -> IoErrorKind {
        match self {
            PackError::Io(k) => k,
            PackError::BadMagic => IoErrorKind::InvalidData,
            PackError::Utf8Error => IoErrorKind::InvalidData,
            PackError::Incompatible(_) => IoErrorKind::Unsupported,
            PackError::Closed => IoErrorKind::Other,
            PackError::FileNotFound(_) => IoErrorKind::NotFound,
            PackError::NoName => IoErrorKind::Other,
            PackError::InvalidEntry => IoErrorKind::Other,
        }
    }

    /// Maps the error to the category under which the host reports it: an I/O
    /// failure keeps its own category, corruption is invalid data, an unknown
    /// version is unsupported, a missing file is not found, and the rest is
    /// uncategorised.
    pub fn io_kind(&self) -> (k: IoErrorKind)
        ensures
            k == self.spec_io_kind(),
    {
        match self {
            PackError::Io(k) => *k,
            PackError::BadMagic => IoErrorKind::InvalidData,
            PackError::Utf8Error => IoErrorKind::InvalidData,
            PackError::Incompatible(_) => IoErrorKind::Unsupported,
            PackError::Closed => IoErrorKind::Other,
            PackError::FileNotFound(_) => IoErrorKind::NotFound,
            PackError::NoName => IoErrorKind::Other,
            PackError::InvalidEntry => IoErrorKind::Other,
        }
    }
}

} // verus!
