//! The trie-inclusion-proof primitive, taken on trust from `sp_trie`.
//!
//! The verifier treats a trie proof as a black box: a deterministic check of
//! a `(key, value)` pair against a 32-byte trie root.  The trie layout is
//! fixed per deployment: `sp_trie::LayoutV1` over Keccak-256.

use vstd::prelude::*;

verus! {

/// Whether `proof` proves that `key` maps to `value` in a trie with root
/// `root`: a fixed function of its arguments alone, named here and never
/// written out.
pub uninterp spec fn trie_proof_ok(
    root: Seq<u8>,
    proof: Seq<Seq<u8>>,
    key: Seq<u8>,
    value: Seq<u8>,
) -> bool;

/// Relies on `sp_trie::verify_trie_proof` with `LayoutV1<KeccakHasher>`: a
/// deterministic verdict on one `(key, Some(value))` item against `root`.
#[verifier::external_body]
pub fn trie_proof_check(root: &Vec<u8>, proof: &Vec<Vec<u8>>, key: &Vec<u8>, value: &Vec<u8>) -> (r:
    bool)
    requires
        root@.len() == 32,
    ensures
        r == trie_proof_ok(root@, proof.deep_view(), key@, value@),
{
    let trie_root = sp_core::H256::from_slice(root.as_slice());
    let items = vec![(key.clone(), Some(value.clone()))];
    sp_trie::verify_trie_proof::<sp_trie::LayoutV1<sp_core::KeccakHasher>, _, _, _>(
        &trie_root,
        proof.as_slice(),
        items.iter(),
    ).is_ok()
}

} // verus!
