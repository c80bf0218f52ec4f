//! The error taxonomy: `Incomplete` (more bytes are needed, retryable),
//! `Malformed` (the stream violates the grammar, fatal for the connection)
//! and `EncodeError` (the caller handed a value that violates a variant's
//! constraints). Callers treat the three differently, so they are kept apart.

use vstd::prelude::*;

verus! {

/// A frame could not be encoded: the value violates a variant-specific
/// constraint, such as a line terminator inside line-delimited text.
#[derive(Debug, PartialEq, Eq)]
pub struct EncodeError {
    pub reason: String,
}

/// Why a buffer did not decode to a frame.
#[derive(Debug, PartialEq, Eq)]
pub enum DecodeError {
    /// The buffer holds a valid prefix of a frame but not a whole frame yet:
    /// nothing was consumed, append more bytes and retry.
    Incomplete,
    /// The buffer violates the protocol grammar at this position and cannot
    /// become valid by appending bytes: the stream is protocol-broken.
    Malformed(String),
}

} // verus!
