//! Shortest word ladders over a dictionary of equal-length words.
//!
//! A [`Dict`] is read from newline-separated text, a [`Neighbours`] graph links
//! every pair of words that differ in exactly one character position, and
//! [`a_star`] finds a shortest ladder between two words of the dictionary.
pub mod bitmap;
pub mod dict;
pub mod error;
pub mod index;
pub mod inout;
pub mod neighbours;
pub mod search;

pub use dict::Dict;
pub use error::{DecodeError, Error, FormatError};
pub use index::Index;
pub use neighbours::Neighbours;
pub use search::a_star;
