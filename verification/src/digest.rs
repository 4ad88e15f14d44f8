//! Keccak-256 digests of byte strings.

use sha3::{Digest, Keccak256};
use vstd::prelude::*;

verus! {

/// The Keccak-256 digest of `data`, as the `sha3` crate computes it.
pub uninterp spec fn keccak256(data: Seq<u8>) -> Seq<u8>;

/// Runs `Keccak256` of the `sha3` crate over `data`: a new hasher, one
/// `update` with all of `data`, then `finalize`. The contract gives the 32
/// bytes that come out the name `keccak256(data)`; that they depend on `data`
/// alone is what is taken on trust.
#[verifier::external_body]
fn keccak256_of(data: &[u8]) -> (digest: [u8; 32])
    ensures
        digest@ == keccak256(data@),
{
    let mut hasher = Keccak256::new();
    hasher.update(data);
    let result = hasher.finalize();
    let mut digest = [0u8; 32];
    digest.copy_from_slice(&result);
    digest
}

/// The Keccak-256 digest of `data`.
pub fn hash_bytes(data: &[u8]) -> (hash: crate::Hash)
    ensures
        hash@ == keccak256(data@),
{
    keccak256_of(data)
}

} // verus!
