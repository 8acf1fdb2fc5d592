//! The digest that identifies messages.
use vstd::prelude::*;

verus! {

/// The SHA-256 digest of a byte string.
pub uninterp spec fn sha256(data: Seq<u8>) -> Seq<u8>;

/// `sha2::Sha256::digest`: the digest of the bytes, a function of them alone.
#[verifier::external_body]
pub(crate) fn full_hash(data: &[u8]) -> (r: [u8; 32])
    ensures
        r@ == sha256(data@),
{
    <sha2::Sha256 as sha2::Digest>::digest(data).into()
}

} // verus!
