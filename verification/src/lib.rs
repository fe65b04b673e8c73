//! A streaming, word-granularity dictionary codec for ASCII-delimited text.
//!
//! Repeated space-delimited tokens are replaced by a back-reference to the
//! token's first occurrence, encoded as a sentinel byte followed by a
//! base-128 varint offset into the original stream.

#![verifier::loop_isolation(false)]

use vstd::prelude::*;

pub mod decoder;
pub mod dict;
pub mod encoder;
pub mod laws;
pub mod token;
pub mod varint;

verus! {

/// The delimiter byte that terminates a token.
pub const DELIMITER: u8 = 0x20;

/// The sentinel byte that introduces a back-reference in the encoded stream.
pub const SENTINEL: u8 = 0xFF;

/// Tokens shorter than this are always emitted literally and never enter
/// the dictionary: a back-reference would not save space.
pub const MIN_LITERAL_LEN: usize = 3;

} // verus!
