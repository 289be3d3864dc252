//! The errors that the store's decoders and operations report.
use vstd::prelude::*;

verus! {

/// Why a decoder or a store operation gave up.
#[derive(Debug, Clone, Copy, PartialEq, Eq, Structural)]
pub enum NeutronError {
    /// A length prefix names a width other than 1, 2, 4 or 8 bytes.
    ValueLengthSizeUnknown,
    /// A byte string that should hold text is not valid UTF-8.
    InvalidUtf8,
    /// A byte string is shorter than a length field says.
    BufferTooShort,
    /// A field does not have the size that its type needs.
    InvalidByteSize,
    /// The key is not in the store, or was deleted.
    NotFound,
    /// The bytes end before a field that should be there.
    UnexpectedEnd,
    /// The format version is not one that this library reads.
    UnsupportedVersion,
    /// A list of byte strings is not well encoded.
    InvalidEncoding,
    /// A size or position computed from stored numbers passes 64 bits.
    SizeOverflow,
}

} // verus!
