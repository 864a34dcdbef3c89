//! What can go wrong, and how each failure is classed.

use vstd::prelude::*;

verus! {

/// The class of a failure, as the host's I/O errors are classed.
#[derive(Debug, Copy, Clone, Eq, PartialEq, Structural)]
pub enum ErrorKind {
    /// Bytes that do not have the expected form.
    InvalidData,
    /// A file ended before the bytes that were asked for.
    UnexpectedEof,
    /// A write that moved no byte.
    WriteZero,
    /// A failure of no other class.
    Other,
}

/// A failure found by the engine.
#[derive(Debug, Copy, Clone, Eq, PartialEq, Structural)]
pub enum Error {
    /// A segment file does not begin with the segment magic.
    SegmentMagic,
    /// A cursor file does not begin with the cursor magic.
    CursorMagic,
    /// A descriptor that should be committed does not carry the marker.
    InvalidOverhead,
    /// A payload does not have the checksum that its descriptor records.
    Checksum,
    /// The bytes ended before the field that was to be read.
    UnexpectedEof,
    /// The host accepted no byte of a write.
    WriteZero,
    /// The host reported a failure of its own, which is passed on as it is.
    Host,
}

impl Error {
    /// The class of the failure; `None` for a failure of the host, which
    /// keeps the class that the host gave it.
    pub fn kind(&self) -> (kind: Option<ErrorKind>)
        ensures
            kind == match *self {
                Error::SegmentMagic => Some(ErrorKind::Other),
                Error::CursorMagic => Some(ErrorKind::InvalidData),
                Error::InvalidOverhead => Some(ErrorKind::InvalidData),
                Error::Checksum => Some(ErrorKind::InvalidData),
                Error::UnexpectedEof => Some(ErrorKind::UnexpectedEof),
                Error::WriteZero => Some(ErrorKind::WriteZero),
                Error::Host => None,
            },
    {
        match self {
            Error::SegmentMagic => Some(ErrorKind::Other),
            Error::CursorMagic | Error::InvalidOverhead | Error::Checksum => Some(
                ErrorKind::InvalidData,
            ),
            Error::UnexpectedEof => Some(ErrorKind::UnexpectedEof),
            Error::WriteZero => Some(ErrorKind::WriteZero),
            Error::Host => None,
        }
    }

    /// The text that describes the failure.
    pub fn message(&self) -> (text: String)
        ensures
            text@ == match *self {
                Error::SegmentMagic => "invalid magic num"@,
                Error::CursorMagic => "invalid magic num"@,
                Error::InvalidOverhead => "invalid overhead"@,
                Error::Checksum => "invalid checksum"@,
                Error::UnexpectedEof => "failed to fill whole buffer"@,
                Error::WriteZero => "failed to write whole buffer"@,
                Error::Host => "host error"@,
            },
    {
        match self {
            Error::SegmentMagic | Error::CursorMagic => String::from_str("invalid magic num"),
            Error::InvalidOverhead => String::from_str("invalid overhead"),
            Error::Checksum => String::from_str("invalid checksum"),
            Error::UnexpectedEof => String::from_str("failed to fill whole buffer"),
            Error::WriteZero => String::from_str("failed to write whole buffer"),
            Error::Host => String::from_str("host error"),
        }
    }
}

} // verus!
