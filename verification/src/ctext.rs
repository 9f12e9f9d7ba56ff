//! Validation of text and paths bound for the native layer as C strings.
//!
//! A C string cannot hold an interior NUL byte; text that does is rejected
//! before any native entry point is reached.

use vstd::prelude::*;
use crate::MarshalError;

verus! {

/// Whether a byte sequence can form a C string: no interior NUL byte.
pub open spec fn c_string_safe(s: Seq<u8>) -> bool {
    forall|i: int| 0 <= i < s.len() ==> s[i] != 0u8
}

/// Checks that the bytes of text bound for the native layer hold no NUL
/// byte, and so can form a C string.
pub fn check_c_text(s: &[u8]) -> (r: Result<(), MarshalError>)
    ensures
        r is Ok <==> c_string_safe(s@),
        r is Err ==> r == Result::<(), MarshalError>::Err(MarshalError::InteriorNul),
{
    let n = s.len();
    let mut i: usize = 0;
    while i < n
        invariant
            0 <= i <= n,
            n == s@.len(),
            forall|j: int| 0 <= j < i ==> s@[j] != 0u8,
        decreases n - i,
    {
        if s[i] == 0 {
            return Err(MarshalError::InteriorNul);
        }
        i = i + 1;
    }
    Ok(())
}

} // verus!
