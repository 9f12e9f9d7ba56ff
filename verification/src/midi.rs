//! Decoding of the MIDI payloads the native toolkit exports.
//!
//! The native layer hands binary payloads across the boundary as base64
//! text by convention; this layer decodes them. The encoding itself is
//! the base64 crate's standard engine, trusted under the contracts
//! below; everything built on it is verified against those contracts.

use vstd::prelude::*;
use crate::MarshalError;

verus! {

/// The canonical base64 text of a byte string, as the standard engine
/// writes it.
pub uninterp spec fn b64_encoding(b: Seq<u8>) -> Seq<u8>;

/// Relies on base64's `STANDARD` engine: `encode` writes the canonical
/// padded base64 text of the input bytes.
#[verifier::external_body]
fn b64_encode(b: &[u8]) -> (r: Vec<u8>)
    ensures
        r@ == b64_encoding(b@),
{
    base64::Engine::encode(&base64::prelude::BASE64_STANDARD, b).into_bytes()
}

/// Relies on base64's `STANDARD` engine: `decode` requires canonical
/// padding and rejects nonzero trailing bits, so it accepts exactly the
/// texts `encode` writes, and inverts it.
#[verifier::external_body]
fn b64_decode(s: &[u8]) -> (r: Result<Vec<u8>, MarshalError>)
    ensures
        match r {
            Ok(v) => s@ == b64_encoding(v@) && (forall|b: Seq<u8>| s@ == b64_encoding(b) ==> b
                == v@),
            Err(e) => e == MarshalError::Base64 && (forall|b: Seq<u8>| s@ != b64_encoding(b)),
        },
{
    match base64::Engine::decode(&base64::prelude::BASE64_STANDARD, s) {
        Ok(v) => Ok(v),
        Err(_) => Err(MarshalError::Base64),
    }
}

/// Decodes the base64 text of a MIDI export. Exactly the canonical
/// encodings decode: on success the input is the encoding of the
/// result, and any text that encodes some byte string decodes to it.
pub fn decode_midi_export(s: &[u8]) -> (r: Result<Vec<u8>, MarshalError>)
    ensures
        match r {
            Ok(v) => s@ == b64_encoding(v@) && (forall|b: Seq<u8>| s@ == b64_encoding(b) ==> b
                == v@),
            Err(e) => e == MarshalError::Base64 && (forall|b: Seq<u8>| s@ != b64_encoding(b)),
        },
{
    b64_decode(s)
}

/// The export round trip: the base64 text of any byte buffer, handed
/// back through the decoder, yields exactly that buffer.
pub fn midi_roundtrip(b: &[u8]) -> (r: Vec<u8>)
    ensures
        r@ == b@,
{
    let e = b64_encode(b);
    match decode_midi_export(e.as_slice()) {
        Ok(v) => {
            proof {
                assert(e@ == b64_encoding(b@));
            }
            v
        },
        Err(_) => {
            proof {
                assert(e@ == b64_encoding(b@));
                assert(false);
            }
            vstd::pervasive::unreached()
        },
    }
}

} // verus!
