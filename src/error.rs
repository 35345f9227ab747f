//! Errors reported while decoding bencode and the metainfo schema.

use vstd::prelude::*;

verus! {

/// A field of the metainfo schema, used to say which one was at fault.
#[derive(Debug, Clone, Copy, PartialEq, Eq, Structural)]
pub enum Field {
    Root,
    Announce,
    Info,
    Name,
    PieceLength,
    Pieces,
    Length,
    Files,
    Path,
}

/// Every way in which a decode can fail.
#[derive(Debug, Clone, Copy, PartialEq, Eq, Structural)]
pub enum DecodeError {
    /// A value was expected but the next byte starts none of the productions,
    /// or the input ended.
    UnrecognizedToken,
    /// The digit run of an integer is empty, not decimal or out of range.
    MalformedInteger,
    /// The length prefix of a byte string is empty or not decimal.
    MalformedLength,
    /// A byte string declares more bytes than remain.
    TruncatedString,
    /// A dictionary key is not a byte string.
    NonStringKey,
    /// The input ended inside a list or a dictionary.
    UnterminatedCollection,
    /// Lists and dictionaries are nested deeper than the decoder allows.
    NestingTooDeep,
    /// A required metainfo field is absent.
    MissingField(Field),
    /// A metainfo field holds a value of the wrong shape.
    InvalidField(Field),
    /// Both `length` and `files` are present.
    AmbiguousLayout,
    /// Neither `length` nor `files` is present.
    MissingLayout,
    /// The `pieces` byte string is not a whole number of hashes.
    InvalidHashLength,
}

} // verus!
