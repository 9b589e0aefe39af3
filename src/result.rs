use vstd::prelude::*;

verus! {

/// Why a byte stream was rejected as not being a binary property list.
#[derive(Debug, Clone, Copy, PartialEq, Eq, Structural)]
pub enum Malformed {
    /// The first eight bytes are not `bplist00`.
    Magic,
    /// A marker byte whose type tag names no object type.
    UnknownMarker,
    /// A singleton marker whose parameter is none of null, false, true, filler.
    UnknownSingleton,
    /// An escaped count that is not an integer object.
    CountNotInt,
    /// An escaped count that is a negative integer.
    NegativeCount,
    /// An offset or reference width outside one to eight bytes.
    Width,
    /// References that lead back to an object that is still being decoded.
    Cycle,
}

/// The ways in which decoding or lookup can fail.
#[derive(Debug, Clone, Copy, PartialEq, Eq, Structural)]
pub enum Error {
    /// A read ran past the end of the input.
    UnexpectedEndOfInput,
    /// Bytes that are not valid UTF-8 or UTF-16.
    TextEncodingFailure,
    /// The input breaks the container format.
    MalformedFormat(Malformed),
    /// A lookup miss, or a reference outside the reference table.
    NotFound,
    /// An object type this decoder does not handle (dates and sets).
    NotImplemented,
}

pub type Result<T> = core::result::Result<T, Error>;

} // verus!
