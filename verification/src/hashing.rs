//! The injected hash primitive: Blake2b-256, taken on trust from `sp_core`.

use sp_core::Hasher;
use vstd::prelude::*;

verus! {

/// The Blake2b-256 digest of `data`: a fixed function of the bytes alone,
/// named here and never written out.
pub uninterp spec fn blake2_of(data: Seq<u8>) -> Seq<u8>;

/// Relies on `sp_core::Blake2Hasher::hash` (Blake2b-256): a 32-byte digest
/// that depends on the input bytes alone.
#[verifier::external_body]
pub fn blake2_256(data: &Vec<u8>) -> (r: Vec<u8>)
    ensures
        r@ == blake2_of(data@),
        r@.len() == 32,
{
    <sp_core::Blake2Hasher as Hasher>::hash(data.as_slice()).0.to_vec()
}

} // verus!
