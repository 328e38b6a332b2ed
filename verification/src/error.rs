//! What can go wrong while a value is read.

use vstd::prelude::*;

verus! {

/// Why the bytes of a value could not be turned into the value.
#[derive(Clone, Copy, Debug, PartialEq, Eq, Structural)]
pub enum ReadError {
    /// The stream ended inside the value.
    UnexpectedEof,
    /// An integer does not fit in its type.
    Overflow,
    /// The bytes of a character are not UTF-8.
    InvalidChar,
    /// The bytes of a string are not UTF-8.
    InvalidString,
    /// The byte of a `bool` is neither 0 nor 1.
    InvalidBool(u8),
    /// The status byte of an `option` is neither 0 nor 1.
    InvalidOptionStatus(u8),
    /// The status byte of a `result` is neither 0 nor 1.
    InvalidResultStatus(u8),
    /// The variant has no case of that number.
    UnknownVariantDiscriminant(u32),
    /// The enum has no name of that number.
    UnknownEnumDiscriminant(u32),
    /// The handle of a shared resource does not have that many bytes.
    InvalidHandleLength(u8),
    /// No shared resource has that handle in the scope.
    HandleNotFound,
    /// The stream is not one of bytes.
    UnsupportedStream,
    /// Futures and error contexts are not supported.
    UnsupportedFuture,
    /// Maps are not supported.
    UnsupportedMap,
    /// Fixed-length lists are not supported.
    UnsupportedFixedLengthList,
}

/// The kinds of errors that a reader reports.
#[derive(Clone, Copy, Debug, PartialEq, Eq, Structural)]
pub enum ErrorKind {
    UnexpectedEof,
    InvalidData,
    InvalidInput,
    NotFound,
    Unsupported,
}

impl ReadError {
    /// The kind of the error.
    pub open spec fn kind_of(self) -> ErrorKind {
        match self {
            ReadError::UnexpectedEof => ErrorKind::UnexpectedEof,
            ReadError::Overflow
            | ReadError::InvalidString
            | ReadError::InvalidBool(_)
            | ReadError::InvalidOptionStatus(_)
            | ReadError::InvalidResultStatus(_) => ErrorKind::InvalidData,
            ReadError::InvalidChar
            | ReadError::UnknownVariantDiscriminant(_)
            | ReadError::UnknownEnumDiscriminant(_)
            | ReadError::InvalidHandleLength(_) => ErrorKind::InvalidInput,
            ReadError::HandleNotFound => ErrorKind::NotFound,
            ReadError::UnsupportedStream
            | ReadError::UnsupportedFuture
            | ReadError::UnsupportedMap
            | ReadError::UnsupportedFixedLengthList => ErrorKind::Unsupported,
        }
    }

    /// The kind of the error.
    pub fn kind(&self) -> (kind: ErrorKind)
        ensures
            kind == self.kind_of(),
    {
        match self {
            ReadError::UnexpectedEof => ErrorKind::UnexpectedEof,
            ReadError::Overflow
            | ReadError::InvalidString
            | ReadError::InvalidBool(_)
            | ReadError::InvalidOptionStatus(_)
            | ReadError::InvalidResultStatus(_) => ErrorKind::InvalidData,
            ReadError::InvalidChar
            | ReadError::UnknownVariantDiscriminant(_)
            | ReadError::UnknownEnumDiscriminant(_)
            | ReadError::InvalidHandleLength(_) => ErrorKind::InvalidInput,
            ReadError::HandleNotFound => ErrorKind::NotFound,
            ReadError::UnsupportedStream
            | ReadError::UnsupportedFuture
            | ReadError::UnsupportedMap
            | ReadError::UnsupportedFixedLengthList => ErrorKind::Unsupported,
        }
    }
}

/// What a peer sent that is no encoding at all is invalid data; what is one, but of
/// something that is not there, is invalid input, or not found if it is a handle;
/// what the codec does not support is reported as that, and the end of the stream
/// as itself.
pub proof fn law_kinds_say_what_went_wrong(e: ReadError)
    ensures
        e.kind_of() == ErrorKind::UnexpectedEof <==> e is UnexpectedEof,
        e.kind_of() == ErrorKind::NotFound <==> e is HandleNotFound,
        e.kind_of() == ErrorKind::InvalidData <==> e is Overflow || e is InvalidString
            || e is InvalidBool || e is InvalidOptionStatus || e is InvalidResultStatus,
        e.kind_of() == ErrorKind::InvalidInput <==> e is InvalidChar
            || e is UnknownVariantDiscriminant || e is UnknownEnumDiscriminant
            || e is InvalidHandleLength,
        e.kind_of() == ErrorKind::Unsupported <==> e is UnsupportedStream
            || e is UnsupportedFuture || e is UnsupportedMap || e is UnsupportedFixedLengthList,
{
}

} // verus!
