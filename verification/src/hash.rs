//! Content hashes.

use crate::text::{hex_bytes, hex_bytes_of};
use sha2::{Digest, Sha256};
use vstd::prelude::*;

verus! {

/// The SHA-256 digest of bytes.
pub uninterp spec fn sha256(bytes: Seq<u8>) -> Seq<u8>;

/// `sha2::Sha256::digest`: the digest is a function of the bytes, thirty-two
/// bytes long.
#[verifier::external_body]
fn sha256_digest(bytes: &[u8]) -> (r: Vec<u8>)
    ensures
        r@ == sha256(bytes@),
        r@.len() == 32,
{
    Sha256::digest(bytes).to_vec()
}

/// The digest in lower-case hexadecimal.
pub open spec fn content_hash_of(bytes: Seq<u8>) -> Seq<char> {
    hex_bytes_of(sha256(bytes))
}

/// The SHA-256 digest of bytes, in hexadecimal.
pub fn content_hash(bytes: &[u8]) -> (s: String)
    ensures
        s@ == content_hash_of(bytes@),
        s@.len() == 64,
{
    let d = sha256_digest(bytes);
    hex_bytes(&d)
}

} // verus!
