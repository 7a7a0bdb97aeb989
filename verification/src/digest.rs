//! Content digests: the store identifies profile contents by their
//! SHA-256 hex digest, computed by the `sha256` crate.

use vstd::prelude::*;

verus! {

/// The SHA-256 hex digest of a byte sequence, as the `sha256` crate
/// computes it: a pure function of the bytes alone.
pub uninterp spec fn sha256_hex_of(bytes: Seq<u8>) -> Seq<char>;

/// Relies on `sha256::digest`: the SHA-256 digest of the input bytes,
/// rendered as a lowercase hex string of 64 characters, depending on
/// the bytes alone.
#[verifier::external_body]
pub(crate) fn sha256_hex(bytes: &[u8]) -> (r: String)
    ensures
        r@ == sha256_hex_of(bytes@),
        r@.len() == 64,
{
    sha256::digest(bytes)
}

} // verus!
