//! Errors reported by the structured-key codec.
//!
//! Every variant carries the offending text and enough context (segment
//! index, expected content) to render a precise diagnostic. None of these
//! errors are retryable: they indicate a malformed key.

use vstd::prelude::*;

verus! {

/// Mathematical model of a [`KeyError`]: the same variants over sequences.
#[allow(inconsistent_fields)]
pub enum KeyErrorModel {
    /// The bytes reconstructed by unescaping are not valid text.
    FromUtf8Error { bytes: Seq<u8> },
    /// Non-ASCII input where escaping does not apply.
    AsciiError { non_ascii: Seq<char> },
    /// An escape marker without two trailing lowercase hex digits.
    InvalidEscape { s: Seq<char> },
    /// The `i`-th segment does not hold the expected content.
    InvalidSegment { i: int, expect: Seq<char>, got: Seq<char> },
    /// The key does not hold exactly the expected number of segments.
    WrongNumberOfSegments { expect: int, got: Seq<char> },
    /// The key holds fewer segments than the required minimum.
    AtleastSegments { expect: int, actual: int },
    /// An id segment is not a decimal unsigned 64-bit integer.
    InvalidId { s: Seq<char>, reason: Seq<char> },
}

/// Error returned when decoding a flat string key fails.
#[derive(Debug, Clone, PartialEq, Eq)]
#[allow(inconsistent_fields)]
pub enum KeyError {
    /// The bytes reconstructed by unescaping are not valid text.
    FromUtf8Error { bytes: Vec<u8> },
    /// Non-ASCII input where escaping does not apply.
    AsciiError { non_ascii: String },
    /// An escape marker without two trailing lowercase hex digits.
    InvalidEscape { s: String },
    /// The `i`-th segment does not hold the expected content.
    InvalidSegment { i: usize, expect: String, got: String },
    /// The key does not hold exactly the expected number of segments.
    WrongNumberOfSegments { expect: usize, got: String },
    /// The key holds fewer segments than the required minimum.
    AtleastSegments { expect: usize, actual: usize },
    /// An id segment is not a decimal unsigned 64-bit integer.
    InvalidId { s: String, reason: String },
}

impl View for KeyError {
    type V = KeyErrorModel;

    open spec fn view(&self) -> KeyErrorModel {
        match self {
            KeyError::FromUtf8Error { bytes } => KeyErrorModel::FromUtf8Error { bytes: bytes@ },
            KeyError::AsciiError { non_ascii } => KeyErrorModel::AsciiError {
                non_ascii: non_ascii@,
            },
            KeyError::InvalidEscape { s } => KeyErrorModel::InvalidEscape { s: s@ },
            KeyError::InvalidSegment { i, expect, got } => KeyErrorModel::InvalidSegment {
                i: *i as int,
                expect: expect@,
                got: got@,
            },
            KeyError::WrongNumberOfSegments { expect, got } => {
                KeyErrorModel::WrongNumberOfSegments { expect: *expect as int, got: got@ }
            },
            KeyError::AtleastSegments { expect, actual } => KeyErrorModel::AtleastSegments {
                expect: *expect as int,
                actual: *actual as int,
            },
            KeyError::InvalidId { s, reason } => KeyErrorModel::InvalidId {
                s: s@,
                reason: reason@,
            },
        }
    }
}

} // verus!
