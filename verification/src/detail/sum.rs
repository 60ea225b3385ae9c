//! The digest that guards a file.

use sha2::Digest;
use vstd::prelude::*;

verus! {

/// The SHA-2 256 digest of `data`.
pub uninterp spec fn sha256(data: Seq<u8>) -> Seq<u8>;

/// Calls `sha2::Sha256::digest` and copies its output into a vector. Trusted:
/// the result is the digest of `data`, which depends on `data` alone, and it is
/// thirty-two bytes long, the output size that `sha2` declares for SHA-256.
#[verifier::external_body]
fn sha256_of(data: &[u8]) -> (sum: Vec<u8>)
    ensures
        sum@ == sha256(data@),
        sum@.len() == 32,
{
    sha2::Sha256::digest(data).to_vec()
}

/// The checksum of `data` as the file format stores it.
pub fn checksum(data: &[u8]) -> (sum: Vec<u8>)
    ensures
        sum@ == sha256(data@),
        sum@.len() == 32,
{
    sha256_of(data)
}

} // verus!
