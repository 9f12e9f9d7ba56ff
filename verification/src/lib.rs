//! Marshaling layer for a native music-notation engraving toolkit.
//!
//! The engraving engine itself (score parsing, layout, rendering) lives in a
//! native library reached over a C interface; that side is out of scope here.
//! This crate holds the data marshaling that surrounds those calls: the
//! closed set of input/output format identifiers and their wire tokens, the
//! optional-field configuration record and its JSON encoding, the element
//! timing record parsed from JSON the toolkit reports, the base64 decoding of
//! exported MIDI payloads, and the validation of text bound for C strings.

pub mod ctext;
pub mod format;
pub mod json;
pub mod midi;
pub mod options;
pub mod roundtrip;
pub mod timing;

use vstd::prelude::*;

verus! {

/// A recoverable marshaling failure, as seen by a caller of this layer.
#[derive(Clone, Copy, Debug, PartialEq, Eq)]
pub enum MarshalError {
    /// Text bound for the native layer holds an interior NUL byte and
    /// cannot form a C string.
    InteriorNul,
    /// JSON text reported by the native layer does not match the expected
    /// structured form.
    Json,
    /// Base64 text reported by the native layer does not decode.
    Base64,
}

impl MarshalError {
    /// A short, fixed description of the failure.
    pub fn describe(&self) -> (r: &'static str)
        ensures
            r@.len() > 0,
    {
        proof {
            reveal_strlit("interior NUL byte in text bound for the native layer");
            reveal_strlit("JSON text does not match the expected structure");
            reveal_strlit("base64 text does not decode");
        }
        match self {
            MarshalError::InteriorNul => "interior NUL byte in text bound for the native layer",
            MarshalError::Json => "JSON text does not match the expected structure",
            MarshalError::Base64 => "base64 text does not decode",
        }
    }
}

} // verus!
