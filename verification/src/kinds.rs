//! Kind tags that the engine itself has to recognise. Every other kind is
//! opaque to it and only compared for equality by rule patterns.
use vstd::prelude::*;

verus! {

/// Line and block comments.
pub const TOKEN_COMMENT: u16 = 0;

/// A run of whitespace between two other tokens.
pub const TOKEN_WHITESPACE: u16 = 2;

/// A bare, unquoted URI.
pub const TOKEN_URI: u16 = 50;

/// Text between the delimiters of a string literal.
pub const TOKEN_STRING_CONTENT: u16 = 51;

/// Closing delimiter of a string literal.
pub const TOKEN_STRING_END: u16 = 52;

/// Opening delimiter of a string literal.
pub const TOKEN_STRING_START: u16 = 53;

/// A string literal: delimiters, content and interpolations.
pub const NODE_STRING: u16 = 64;

} // verus!
