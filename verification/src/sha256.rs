//! SHA-256 digests.

use vstd::prelude::*;

use sha2::Digest;

verus! {

/// The SHA-256 digest of some bytes.
pub uninterp spec fn sha256(bytes: Seq<u8>) -> Seq<u8>;

/// `sha2::Sha256::digest`: the digest, which `sha256` names, of 32 bytes.
#[verifier::external_body]
pub(crate) fn digest(bytes: &[u8]) -> (r: [u8; 32])
    ensures
        r@ == sha256(bytes@),
{
    sha2::Sha256::digest(bytes).into()
}

} // verus!
