//! SHA-256 checksums.

use sha2::Digest;
use vstd::prelude::*;

verus! {

/// The SHA-256 digest of `data`.
pub uninterp spec fn sha256_digest(data: Seq<u8>) -> [u8; 32];

/// Calls `sha2::Sha256::digest`, the one-shot form of the hasher: the result
/// is the SHA-256 digest of the data and of nothing else.
#[verifier::external_body]
pub(crate) fn sha256(data: &[u8]) -> (digest: [u8; 32])
    ensures
        digest == sha256_digest(data@),
{
    sha2::Sha256::digest(data).into()
}

} // verus!
