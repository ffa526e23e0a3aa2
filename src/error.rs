//! Errors reported by the library.
use vstd::prelude::*;

verus! {

/// Why a word list was refused.
#[derive(Debug, Clone, PartialEq, Eq)]
pub enum FormatError {
    /// The text holds no line at all.
    Empty,
    /// A line's character count differs from the first line's.
    LengthMismatch { word: String, expected: usize, found: usize },
}

/// Why a stored graph was refused.
#[derive(Debug, Clone, PartialEq, Eq)]
pub enum DecodeError {
    /// The bytes end before the header or the payload does.
    Truncated,
    /// The first four bytes are not the format's magic value.
    BadMagic,
    /// The format version is not the supported one.
    BadVersion(u8),
    /// A stored link does not join two words one substitution apart, or
    /// has no link back.
    BadGraph,
}

/// Every failure of the library.
#[derive(Debug, Clone, PartialEq, Eq)]
pub enum Error {
    /// The dictionary text or the dictionary itself is malformed.
    Format(FormatError),
    /// The word is not in the dictionary.
    Lookup(String),
    /// Both words are in the dictionary but no ladder connects them.
    PathNotFound,
    /// A stored graph has a wrong header or is cut short.
    Decode(DecodeError),
    /// A payload is too long for its 32-bit length field.
    TooLarge(usize),
}

} // verus!
