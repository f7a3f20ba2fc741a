//! The failure vocabulary shared by the encoder, the decoder and the
//! transcoding layer.

use vstd::prelude::*;

verus! {

/// Why a value could not be encoded.
#[derive(Debug, Clone, Copy, PartialEq, Eq, Structural)]
pub enum EncodeError {
    /// No wire representation fits the value.
    ValueTooLarge,
    /// A string payload is not valid UTF-8.
    InvalidUtf8,
    /// The output could not be written.
    SinkFailure,
}

/// Why a buffer could not be decoded.
#[derive(Debug, Clone, Copy, PartialEq, Eq, Structural)]
pub enum DecodeError {
    /// The buffer ends before the item does.
    UnexpectedEof,
    /// A format byte is not in the tag table, or an item stands where its
    /// kind cannot be used.
    InvalidTypeTag,
    /// A string payload is not valid UTF-8.
    InvalidUtf8,
    /// A collection declares more elements than the rest of the buffer can hold.
    LengthOverflow,
    /// Collections nest deeper than the limit allows.
    TooDeep,
}

/// The variants of a value, as a transcoding failure names them.
#[derive(Debug, Clone, Copy, PartialEq, Eq, Structural)]
pub enum Kind {
    Null,
    Bool,
    Number,
    String,
    Array,
    Object,
}

/// Why a value tree could not be rebuilt into a native value. Each failure
/// names the path of the offending field: the field names from the root
/// down, joined by dots, an array index in square brackets; the root itself
/// has the empty path.
#[derive(Debug, PartialEq, Eq)]
pub enum TranscodeError {
    /// The value at the path is of another kind than the native type reads.
    FieldKindMismatch { path: String, expected: Kind, actual: Kind },
    /// The number at the path does not fit the native type.
    NumberOverflow { path: String },
    /// The number at the path is not the canonical text of an integer.
    NotANumber { path: String },
}

/// The mathematical model of a transcoding failure.
pub enum Fault {
    FieldKindMismatch { path: Seq<char>, expected: Kind, actual: Kind },
    NumberOverflow { path: Seq<char> },
    NotANumber { path: Seq<char> },
}

impl View for TranscodeError {
    type V = Fault;

    open spec fn view(&self) -> Fault {
        match self {
            TranscodeError::FieldKindMismatch { path, expected, actual } => {
                Fault::FieldKindMismatch { path: path@, expected: *expected, actual: *actual }
            },
            TranscodeError::NumberOverflow { path } => Fault::NumberOverflow { path: path@ },
            TranscodeError::NotANumber { path } => Fault::NotANumber { path: path@ },
        }
    }
}

/// Why a buffer could not be decoded into a native value: the bytes are no
/// item, or the item is no such value.
#[derive(Debug, PartialEq, Eq)]
pub enum DecodeToError {
    Decode(DecodeError),
    Transcode(TranscodeError),
}

/// The model of what a reconstruction returned.
pub open spec fn outcome<T>(r: Result<T, TranscodeError>) -> Result<T, Fault> {
    match r {
        Ok(t) => Ok(t),
        Err(e) => Err(e@),
    }
}

} // verus!
