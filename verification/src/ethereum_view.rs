//! What a relayer presents to the remote verifier for one block.

use vstd::prelude::*;

use crate::block_generation::SignedCommitment;
use crate::mmr::MMRNode;
use crate::types::{HashOutput, TestHeader};
use crate::utils::MAX_LEAVES;

verus! {

/// The per-block data the verifier consumes: the accumulator root and leaf
/// count as of this block, the relay header, an optional signed commitment,
/// and the secondary-chain material for claims.
pub struct EthereumView {
    /// Root of the accumulator as of this block.
    pub beefy_mmr_root: MMRNode,
    /// Number of leaves behind that root.
    pub beefy_mmr_leaves: u64,
    /// This block's relay-chain header.
    pub relay_header: TestHeader,
    /// Signed commitment carried by this block, if any.
    pub signed_commitment: Option<SignedCommitment>,
    /// This block's secondary-chain header.
    pub para_header: TestHeader,
    /// Inclusion proof of that header against the header-set root.
    pub para_header_merkle_proof: Vec<Vec<u8>>,
    /// Root of the trie over all secondary-chain headers seen so far.
    pub para_header_merkle_root: HashOutput,
    /// Inclusion proof of the chosen key/value pair against the secondary
    /// header's state root.
    pub chosen_kv_proof: Vec<Vec<u8>>,
    /// The chosen key/value pair itself.
    pub chosen_kv_pair: (Vec<u8>, Vec<u8>),
}

impl EthereumView {
    /// The shape every honestly produced view has.
    pub open spec fn wf(self) -> bool {
        &&& self.beefy_mmr_leaves <= MAX_LEAVES
        &&& self.relay_header.wf()
        &&& self.para_header.wf()
        &&& self.para_header_merkle_root@.len() == 32
    }
}

} // verus!
