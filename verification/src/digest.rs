//! SHA-1 digests.

use sha1::{Digest, Sha1};
use vstd::prelude::*;

verus! {

/// The SHA-1 digest of bytes.
pub uninterp spec fn sha1_digest(bytes: Seq<u8>) -> Seq<u8>;

/// Computes a digest with `Sha1` of the `sha1` crate (`new`, one `update`, `finalize`): the
/// twenty bytes depend on the input alone.
#[verifier::external_body]
pub(crate) fn sha1(bytes: &[u8]) -> (digest: [u8; 20])
    ensures
        digest@ == sha1_digest(bytes@),
{
    let mut hasher = Sha1::new();
    hasher.update(bytes);
    hasher.finalize().into()
}

} // verus!
