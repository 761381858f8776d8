//! The verifier: a light-client actor holding trusted authority-set state
//! and the last accepted view.
//!
//! `ingest_new_header` is the only mutator.  Either every check passes and
//! the whole trust state is replaced, or the state is untouched — no partial
//! update is possible.  `verify_claim` is a pure read that composes the
//! accumulator proof with two trie-inclusion proofs, in that order: each
//! layer's root becomes trustworthy only once the previous layer holds.

use vstd::prelude::*;

use crate::block_generation::{verify_commitment_spec, verify_signed_commitment};
use crate::encoding::{copy_bytes, header_bytes, header_bytes_spec};
use crate::ethereum_view::EthereumView;
use crate::hashing::blake2_of;
use crate::mmr::{nodes_view, root_spec, verify_spec, Mmr, MMRNode, NodeV};
use crate::traits::Hashable;
use crate::trie::{trie_proof_check, trie_proof_ok};
use crate::types::{AuthorityId, ClaimError, IngestError, LeafData, LeafV, TestHeader};
use crate::utils::{
    leaf_pos_spec, lemma_mmr_size_mono, mmr_size_from_number_of_leaves, mmr_size_spec, MAX_LEAVES,
};

verus! {

/// The remote verifier's trust state.
pub struct EthereumActor {
    /// The authority set currently trusted to sign commitments.
    pub current_authorities: Vec<AuthorityId>,
    /// The id of that set.
    pub current_set_id: u64,
    /// The last accepted view, if any was ever ingested.
    pub last_finalized_block: Option<EthereumView>,
}

/// The verdict on ingesting `v` into state `a`, checks in protocol order:
/// a commitment must be present, signed under the trusted set id, unanimous
/// and valid, for the view's own block number, and its committed root must
/// equal the root the view derives from its own accumulator.
pub open spec fn ingest_check(a: EthereumActor, v: EthereumView) -> Result<(), IngestError> {
    match v.signed_commitment {
        None => Err(IngestError::MissingCommitment),
        Some(sc) => if sc.commitment.validator_set_id != a.current_set_id {
            Err(IngestError::SetIdMismatch)
        } else {
            match verify_commitment_spec(sc, a.current_authorities.deep_view()) {
                Err(e) => Err(e),
                Ok(_) => if v.relay_header.number != sc.commitment.block_number {
                    Err(IngestError::BlockNumberMismatch)
                } else if v.beefy_mmr_root@ != sc.commitment.payload.mmr_node@ {
                    Err(IngestError::MmrRootMismatch)
                } else {
                    Ok(())
                },
            }
        },
    }
}

/// The authority set in force after a successful ingestion of `v`.
pub open spec fn post_authorities(a: EthereumActor, v: EthereumView) -> Seq<Seq<u8>> {
    match v.signed_commitment {
        Some(sc) => match sc.commitment.payload.changed_authority_ids {
            Some(ids) => ids.deep_view(),
            None => a.current_authorities.deep_view(),
        },
        None => a.current_authorities.deep_view(),
    }
}

/// The set id in force after a successful ingestion of `v`.
pub open spec fn post_set_id(a: EthereumActor, v: EthereumView) -> u64 {
    match v.signed_commitment {
        Some(sc) => match sc.commitment.payload.changed_authority_ids {
            Some(_) => sc.commitment.payload.new_validator_set_id,
            None => a.current_set_id,
        },
        None => a.current_set_id,
    }
}

/// The verdict on a claim against state `a`, checks in protocol order: a
/// view must have been accepted, the target must lie strictly before it,
/// the leaf rebuilt from the target header and the claimed header-set root
/// must prove into the trusted accumulator root, the secondary header must
/// prove into that header-set root, and the key/value pair must prove into
/// that header's state root.
pub open spec fn claim_check(
    a: EthereumActor,
    at_relay_block: TestHeader,
    proof_items: Seq<NodeV>,
    block_pos_in_mmr: int,
    para_block: TestHeader,
    para_block_inclusion_proof: Seq<Seq<u8>>,
    para_block_merkle_root: Seq<u8>,
    claimed_kv: (Seq<u8>, Seq<u8>),
    kv_proof: Seq<Seq<u8>>,
) -> Result<(), ClaimError> {
    match a.last_finalized_block {
        None => Err(ClaimError::NotIngestedYet),
        Some(last) => if last.relay_header.number <= at_relay_block.number {
            Err(ClaimError::BlockNotBeforeFinalized)
        } else {
            let leaf = LeafV {
                block_number: at_relay_block.number,
                block_hash: blake2_of(header_bytes_spec(at_relay_block)),
                para_heads_root: para_block_merkle_root,
            };
            if !verify_spec(
                last.beefy_mmr_root@,
                mmr_size_spec(last.beefy_mmr_leaves as nat),
                proof_items,
                block_pos_in_mmr,
                NodeV::Data(leaf),
            ) {
                Err(ClaimError::MmrProofInvalid)
            } else if !trie_proof_ok(
                para_block_merkle_root,
                para_block_inclusion_proof,
                blake2_of(header_bytes_spec(para_block)),
                header_bytes_spec(para_block),
            ) {
                Err(ClaimError::ParaHeaderInclusionInvalid)
            } else if !trie_proof_ok(
                para_block.state_root@,
                kv_proof,
                claimed_kv.0,
                claimed_kv.1,
            ) {
                Err(ClaimError::StorageProofInvalid)
            } else {
                Ok(())
            }
        },
    }
}

impl EthereumActor {
    /// The stored view, if any, has the well-formed shape.
    pub open spec fn wf(self) -> bool {
        match self.last_finalized_block {
            None => true,
            Some(v) => v.wf(),
        }
    }

    /// A fresh verifier trusting `initial_authorities` under
    /// `current_set_id`, with no accepted view yet.
    pub fn new(initial_authorities: Vec<AuthorityId>, current_set_id: u64) -> (r: EthereumActor)
        ensures
            r.current_authorities == initial_authorities,
            r.current_set_id == current_set_id,
            r.last_finalized_block is None,
            r.wf(),
    {
        EthereumActor {
            current_authorities: initial_authorities,
            current_set_id,
            last_finalized_block: None,
        }
    }

    /// Ingests a view.  On success the trust state is replaced wholesale —
    /// rotated authority set and id if the payload declares one, and the
    /// view becomes the finalized snapshot.  On any failure the state is
    /// exactly as before.
    pub fn ingest_new_header(&mut self, ethereum_view: EthereumView) -> (r: Result<
        (),
        IngestError,
    >)
        requires
            ethereum_view.wf(),
        ensures
            r == ingest_check(*old(self), ethereum_view),
            r is Err ==> *final(self) == *old(self),
            r is Ok ==> {
                &&& final(self).current_authorities.deep_view() == post_authorities(
                    *old(self),
                    ethereum_view,
                )
                &&& final(self).current_set_id == post_set_id(*old(self), ethereum_view)
                &&& final(self).last_finalized_block == Some(ethereum_view)
            },
            final(self).wf() == (old(self).wf() || r is Ok),
    {
        let sc = match &ethereum_view.signed_commitment {
            None => {
                return Err(IngestError::MissingCommitment);
            },
            Some(sc) => sc,
        };
        if sc.commitment.validator_set_id != self.current_set_id {
            return Err(IngestError::SetIdMismatch);
        }
        match verify_signed_commitment(sc, &self.current_authorities) {
            Err(e) => {
                return Err(e);
            },
            Ok(_) => {},
        }
        if ethereum_view.relay_header.number != sc.commitment.block_number {
            return Err(IngestError::BlockNumberMismatch);
        }
        if !ethereum_view.beefy_mmr_root.eq_node(&sc.commitment.payload.mmr_node) {
            return Err(IngestError::MmrRootMismatch);
        }
        match &sc.commitment.payload.changed_authority_ids {
            Some(ids) => {
                let new_ids = crate::encoding::copy_bytes_list(ids);
                let new_id = sc.commitment.payload.new_validator_set_id;
                self.current_authorities = new_ids;
                self.current_set_id = new_id;
            },
            None => {},
        }
        self.last_finalized_block = Some(ethereum_view);
        Ok(())
    }

    /// Answers a finality claim.  Pure read: the trust state is never
    /// touched.
    pub fn verify_claim(
        &self,
        at_relay_block: TestHeader,
        beefy_mmr_proof_items: Vec<MMRNode>,
        block_pos_in_mmr: u64,
        para_block: TestHeader,
        para_block_inclusion_proof: Vec<Vec<u8>>,
        para_block_merkle_root: Vec<u8>,
        claimed_kv: (Vec<u8>, Vec<u8>),
        kv_proof: Vec<Vec<u8>>,
    ) -> (r: Result<(), ClaimError>)
        requires
            self.wf(),
            para_block.wf(),
            para_block_merkle_root@.len() == 32,
        ensures
            r == claim_check(
                *self,
                at_relay_block,
                nodes_view(beefy_mmr_proof_items@),
                block_pos_in_mmr as int,
                para_block,
                para_block_inclusion_proof.deep_view(),
                para_block_merkle_root@,
                (claimed_kv.0@, claimed_kv.1@),
                kv_proof.deep_view(),
            ),
    {
        let last = match &self.last_finalized_block {
            None => {
                return Err(ClaimError::NotIngestedYet);
            },
            Some(last) => last,
        };
        if last.relay_header.number <= at_relay_block.number {
            return Err(ClaimError::BlockNotBeforeFinalized);
        }
        let leaf = LeafData {
            block_number: at_relay_block.number,
            block_hash: at_relay_block.hash(),
            para_heads_root: copy_bytes(&para_block_merkle_root),
        };
        let claimed_node = MMRNode::Data(leaf);
        let mmr_size = mmr_size_from_number_of_leaves(last.beefy_mmr_leaves);
        proof {
            lemma_mmr_size_mono(last.beefy_mmr_leaves as nat, MAX_LEAVES as nat);
            crate::mmr::lemma_max_mmr_size();
        }
        if !Mmr::verify(
            &last.beefy_mmr_root,
            mmr_size,
            &beefy_mmr_proof_items,
            block_pos_in_mmr,
            &claimed_node,
        ) {
            return Err(ClaimError::MmrProofInvalid);
        }
        let para_head_key = para_block.hash();
        let para_head_value = header_bytes(&para_block);
        if !trie_proof_check(
            &para_block_merkle_root,
            &para_block_inclusion_proof,
            &para_head_key,
            &para_head_value,
        ) {
            return Err(ClaimError::ParaHeaderInclusionInvalid);
        }
        if !trie_proof_check(&para_block.state_root, &kv_proof, &claimed_kv.0, &claimed_kv.1) {
            return Err(ClaimError::StorageProofInvalid);
        }
        Ok(())
    }
}

/// Lag invariant: once a view is accepted, a claim about that view's own
/// block — or any later block — is refused: the accumulator always lags the
/// head, so a block can never attest to its own finality.
pub proof fn lemma_lag_invariant(
    a: EthereumActor,
    v: EthereumView,
    a2: EthereumActor,
    at_relay_block: TestHeader,
    proof_items: Seq<NodeV>,
    block_pos_in_mmr: int,
    para_block: TestHeader,
    para_block_inclusion_proof: Seq<Seq<u8>>,
    para_block_merkle_root: Seq<u8>,
    claimed_kv: (Seq<u8>, Seq<u8>),
    kv_proof: Seq<Seq<u8>>,
)
    requires
        ingest_check(a, v) is Ok,
        a2.last_finalized_block == Some(v),
        at_relay_block.number >= v.relay_header.number,
    ensures
        claim_check(
            a2,
            at_relay_block,
            proof_items,
            block_pos_in_mmr,
            para_block,
            para_block_inclusion_proof,
            para_block_merkle_root,
            claimed_kv,
            kv_proof,
        ) == Err::<(), ClaimError>(ClaimError::BlockNotBeforeFinalized),
{
}

/// Claims about properly accumulated blocks succeed: if the trusted root is
/// the accumulator root over some leaf sequence, the target block is leaf
/// `i` of it, the proof is the canonical one for leaf `i`, the target lies
/// strictly before the finalized block, and both trie layers prove, then
/// the claim is accepted.
pub proof fn lemma_claim_success(
    a: EthereumActor,
    last: EthereumView,
    leaves: Seq<LeafV>,
    i: int,
    at_relay_block: TestHeader,
    para_block: TestHeader,
    para_block_inclusion_proof: Seq<Seq<u8>>,
    para_block_merkle_root: Seq<u8>,
    claimed_kv: (Seq<u8>, Seq<u8>),
    kv_proof: Seq<Seq<u8>>,
)
    requires
        a.last_finalized_block == Some(last),
        last.beefy_mmr_root@ == root_spec(leaves),
        last.beefy_mmr_leaves as int == leaves.len(),
        0 <= i < leaves.len(),
        leaves[i] == (LeafV {
            block_number: at_relay_block.number,
            block_hash: blake2_of(header_bytes_spec(at_relay_block)),
            para_heads_root: para_block_merkle_root,
        }),
        at_relay_block.number < last.relay_header.number,
        trie_proof_ok(
            para_block_merkle_root,
            para_block_inclusion_proof,
            blake2_of(header_bytes_spec(para_block)),
            header_bytes_spec(para_block),
        ),
        trie_proof_ok(para_block.state_root@, kv_proof, claimed_kv.0, claimed_kv.1),
    ensures
        claim_check(
            a,
            at_relay_block,
            crate::mmr::proof_items_spec(leaves, i),
            leaf_pos_spec(i as nat),
            para_block,
            para_block_inclusion_proof,
            para_block_merkle_root,
            claimed_kv,
            kv_proof,
        ) == Ok::<(), ClaimError>(()),
{
    crate::mmr::lemma_proof_round_trip(leaves, i);
}

/// An honestly produced view is accepted: one that carries a commitment
/// signed under the trusted set id, unanimously valid against the trusted
/// authority ids, speaking for the view's own block number, and committing
/// exactly the root the view derives from its own accumulator.  The chain
/// derivation supplies every hypothesis: the commitment a child snapshot
/// carries verifies against the ids of the set that signed it, for the
/// child's block number, over the child's accumulator root.
pub proof fn lemma_honest_ingest(a: EthereumActor, v: EthereumView)
    requires
        v.signed_commitment matches Some(sc) && {
            &&& sc.commitment.validator_set_id == a.current_set_id
            &&& verify_commitment_spec(sc, a.current_authorities.deep_view()) == Ok::<
                (),
                IngestError,
            >(())
            &&& v.relay_header.number == sc.commitment.block_number
            &&& v.beefy_mmr_root@ == sc.commitment.payload.mmr_node@
        },
    ensures
        ingest_check(a, v) == Ok::<(), IngestError>(()),
{
}

/// Rotation atomicity: a successful ingestion whose payload declares a new
/// authority list installs that list and its id together, and a replay of
/// any commitment signed under a different id — the stale one included — is
/// then refused with `SetIdMismatch`.
pub proof fn lemma_rotation_atomicity(
    a: EthereumActor,
    v: EthereumView,
    a2: EthereumActor,
    v2: EthereumView,
)
    requires
        ingest_check(a, v) is Ok,
        v.signed_commitment matches Some(sc) && sc.commitment.payload.changed_authority_ids
            is Some,
        a2.current_authorities.deep_view() == post_authorities(a, v),
        a2.current_set_id == post_set_id(a, v),
        v2.signed_commitment matches Some(sc2) && sc2.commitment.validator_set_id != post_set_id(
            a,
            v,
        ),
    ensures
        post_set_id(a, v) == v.signed_commitment->0.commitment.payload.new_validator_set_id,
        post_authorities(a, v)
            == v.signed_commitment->0.commitment.payload.changed_authority_ids->0.deep_view(),
        ingest_check(a2, v2) == Err::<(), IngestError>(IngestError::SetIdMismatch),
{
}

/// After a rotation, a commitment under the new id must carry exactly one
/// signature slot per member of the new list, else it is refused.
pub proof fn lemma_rotation_new_size(a2: EthereumActor, v2: EthereumView)
    requires
        v2.signed_commitment matches Some(sc2) && sc2.commitment.validator_set_id
            == a2.current_set_id && sc2.signatures.deep_view().len()
            != a2.current_authorities.deep_view().len(),
    ensures
        ingest_check(a2, v2) == Err::<(), IngestError>(IngestError::SignatureCountMismatch),
{
}

} // verus!
