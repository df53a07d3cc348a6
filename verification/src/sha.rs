//! SHA3-512, as the `sha3` crate computes it.
use sha3::{Digest, Sha3_512};
use vstd::prelude::*;

verus! {

/// The SHA3-512 digest of `data`.
pub uninterp spec fn sha3_512_spec(data: Seq<u8>) -> Seq<u8>;

/// Calls `<Sha3_512 as Digest>::digest`: the digest of `data`, 64 bytes long.
#[verifier::external_body]
pub(crate) fn sha3_512(data: &[u8]) -> (r: Vec<u8>)
    ensures
        r@ == sha3_512_spec(data@),
        r@.len() == 64,
{
    Sha3_512::digest(data).to_vec()
}

} // verus!
