//! The per-block chain snapshot and its derivation rules.
//!
//! A snapshot carries the accumulator, the current relay and secondary
//! headers, the authority set, and the secondary-chain proof material.  A
//! child snapshot's accumulator is always the parent's accumulator plus
//! exactly one pushed leaf describing the parent — that is why a commitment
//! issued at block `N` can only attest to blocks strictly before `N`.
//!
//! Random state population and trie construction are collaborators outside
//! this crate: callers hand their results in as plain values.

use vstd::prelude::*;

use crate::block_generation::{
    ecdsa_public_of, ecdsa_seed_ok, generate_signed_commitment, public_ids_of,
    verify_commitment_spec, CommitmentPayload, SignedCommitment,
};
use crate::encoding::{copy_bytes, copy_bytes_list, header_bytes_spec, lemma_bytes_deep_view};
use crate::ethereum_view::EthereumView;
use crate::hashing::blake2_of;
use crate::mmr::{root_spec, Mmr, MMRNode};
use crate::traits::Hashable;
use crate::types::{HashOutput, LeafData, LeafV, TestHeader};
use crate::utils::MAX_LEAVES;

verus! {

/// One authority: its secret seed and its public id, as plain bytes.
pub type AuthorityPair = (Vec<u8>, Vec<u8>);

/// The seeds and ids of a list of authorities, as a mathematical value.
pub open spec fn pairs_model(v: Seq<AuthorityPair>) -> Seq<(Seq<u8>, Seq<u8>)> {
    v.map_values(|p: AuthorityPair| (p.0@, p.1@))
}

/// The seeds of a list of authorities, in order.
pub open spec fn seeds_model(v: Seq<AuthorityPair>) -> Seq<Seq<u8>> {
    v.map_values(|p: AuthorityPair| p.0@)
}

/// The public ids of a list of authorities, in order.
pub open spec fn ids_model(v: Seq<AuthorityPair>) -> Seq<Seq<u8>> {
    v.map_values(|p: AuthorityPair| p.1@)
}

/// Every member is a coherent authority: a 32-byte seed beside the public
/// id derived from exactly that seed.
pub open spec fn pairs_wf(v: Seq<AuthorityPair>) -> bool {
    forall|j: int| 0 <= j < v.len() ==> ((#[trigger] v[j]).0@.len() == 32 && v[j].1@
        == ecdsa_public_of(v[j].0@))
}

/// All-zero digest bytes, the placeholder where no real root exists.
pub open spec fn zero32() -> Seq<u8> {
    Seq::new(32, |i: int| 0u8)
}

/// A fresh all-zero 32-byte vector.
pub fn zero_hash() -> (r: Vec<u8>)
    ensures
        r@ == zero32(),
{
    let mut r: Vec<u8> = Vec::new();
    let mut i: usize = 0;
    while i < 32
        invariant
            i <= 32,
            r@.len() == i,
            forall|j: int| 0 <= j < i ==> r@[j] == 0u8,
        decreases 32 - i,
    {
        r.push(0u8);
        i = i + 1;
    }
    proof {
        assert(r@ =~= zero32());
    }
    r
}

/// A fresh copy of a list of authority pairs.
pub fn copy_pair_list(src: &Vec<AuthorityPair>) -> (r: Vec<AuthorityPair>)
    ensures
        pairs_model(r@) == pairs_model(src@),
{
    let n = src.len();
    let mut r: Vec<AuthorityPair> = Vec::new();
    let mut i: usize = 0;
    while i < n
        invariant
            n == src@.len(),
            i <= n,
            r@.len() == i,
            forall|j: int| 0 <= j < i ==> (#[trigger] r@[j]).0@ == src@[j].0@ && r@[j].1@
                == src@[j].1@,
        decreases n - i,
    {
        let p = &src[i];
        r.push((copy_bytes(&p.0), copy_bytes(&p.1)));
        i = i + 1;
    }
    proof {
        assert(pairs_model(r@) =~= pairs_model(src@));
    }
    r
}

/// One full chain snapshot, as the chain-simulation collaborator produces
/// it and the verifier's view projection consumes it.
pub struct BlockData {
    /// The accumulator as of this block: store plus leaf count.
    pub beefy_mmr: Mmr,
    /// This block's relay-chain header.
    pub relay_header: TestHeader,
    /// Signed commitment carried by this block, if one was generated.
    pub signed_commitment: Option<SignedCommitment>,
    /// The current authority set: seed and public id per member.
    pub current_authority_set: Vec<AuthorityPair>,
    /// The id of that set.
    pub current_authority_set_id: u64,
    /// This block's secondary-chain header.
    pub para_header: TestHeader,
    /// Every secondary-chain header seen so far: its hash and encoded form.
    pub encoded_para_head_data: Vec<(Vec<u8>, Vec<u8>)>,
    /// Inclusion proof of this block's secondary header.
    pub para_header_merkle_proof: Vec<Vec<u8>>,
    /// Root of the trie over `encoded_para_head_data`.
    pub para_header_merkle_root: HashOutput,
    /// Inclusion proof of the chosen key/value pair.
    pub chosen_kv_proof: Vec<Vec<u8>>,
    /// The chosen key/value pair.
    pub chosen_kv_pair: (Vec<u8>, Vec<u8>),
}

impl BlockData {
    /// The shape every honestly derived snapshot has.
    pub open spec fn wf(self) -> bool {
        &&& self.beefy_mmr.wf()
        &&& self.relay_header.wf()
        &&& self.para_header.wf()
        &&& self.para_header_merkle_root@.len() == 32
        &&& pairs_wf(self.current_authority_set@)
    }

    /// The number of accumulator leaves of this snapshot.
    pub fn beefy_mmr_leaves(&self) -> (r: u64)
        ensures
            r as int == self.beefy_mmr.num_leaves(),
    {
        self.beefy_mmr.leaf_count()
    }

    /// Projects the snapshot onto what is sent to the remote verifier: the
    /// accumulator is folded into its root, secrets stay behind.
    pub fn ethereum_view(&self) -> (r: EthereumView)
        requires
            self.wf(),
            self.beefy_mmr.num_leaves() >= 1,
        ensures
            r.wf(),
            r.beefy_mmr_root@ == root_spec(self.beefy_mmr.leaves()),
            r.beefy_mmr_leaves as int == self.beefy_mmr.num_leaves(),
            r.relay_header.model() == self.relay_header.model(),
            r.signed_commitment is Some <==> self.signed_commitment is Some,
            r.signed_commitment matches Some(sc) ==> sc.model()
                == self.signed_commitment->0.model(),
            r.para_header.model() == self.para_header.model(),
            r.para_header_merkle_root@ == self.para_header_merkle_root@,
            r.para_header_merkle_proof.deep_view() == self.para_header_merkle_proof.deep_view(),
            r.chosen_kv_proof.deep_view() == self.chosen_kv_proof.deep_view(),
            r.chosen_kv_pair.0@ == self.chosen_kv_pair.0@,
            r.chosen_kv_pair.1@ == self.chosen_kv_pair.1@,
    {
        let root = self.beefy_mmr.root();
        let cloned_signed_commitment = match &self.signed_commitment {
            None => None,
            Some(sc) => Some(sc.duplicate()),
        };
        EthereumView {
            beefy_mmr_root: root,
            beefy_mmr_leaves: self.beefy_mmr.leaf_count(),
            relay_header: self.relay_header.duplicate(),
            signed_commitment: cloned_signed_commitment,
            para_header: self.para_header.duplicate(),
            para_header_merkle_proof: copy_bytes_list(&self.para_header_merkle_proof),
            para_header_merkle_root: copy_bytes(&self.para_header_merkle_root),
            chosen_kv_proof: copy_bytes_list(&self.chosen_kv_proof),
            chosen_kv_pair: (copy_bytes(&self.chosen_kv_pair.0), copy_bytes(&self.chosen_kv_pair.1)),
        }
    }
}

/// The secondary-chain genesis header: number 1, empty ancestry, the given
/// state root.
pub fn make_genesis_para_header(storage_trie_root: &Vec<u8>) -> (r: TestHeader)
    requires
        storage_trie_root@.len() == 32,
    ensures
        r.wf(),
        r.parent_hash@ == zero32(),
        r.number == 1,
        r.state_root@ == storage_trie_root@,
        r.extrinsics_root@ == zero32(),
{
    TestHeader {
        parent_hash: zero_hash(),
        number: 1,
        state_root: copy_bytes(storage_trie_root),
        extrinsics_root: zero_hash(),
    }
}

/// The child of a secondary-chain header, committing the given state root.
pub fn make_child_para_header(parent_para: &TestHeader, storage_trie_root: &Vec<u8>) -> (r:
    TestHeader)
    requires
        storage_trie_root@.len() == 32,
        parent_para.number < u64::MAX,
    ensures
        r.parent_hash@ == blake2_of(header_bytes_spec(*parent_para)),
        r.number == parent_para.number + 1,
        r.state_root@ == storage_trie_root@,
        r.extrinsics_root@ == zero32(),
        r.wf(),
{
    TestHeader {
        parent_hash: parent_para.hash(),
        number: parent_para.number + 1,
        state_root: copy_bytes(storage_trie_root),
        extrinsics_root: zero_hash(),
    }
}

/// The genesis snapshot: an empty accumulator, relay block number 1, the
/// initial authority set under id 0, and no commitment.
pub fn create_genesis_block(
    initial_authority_set: Vec<AuthorityPair>,
    para_header: TestHeader,
    encoded_para_head_data: Vec<(Vec<u8>, Vec<u8>)>,
    para_header_merkle_proof: Vec<Vec<u8>>,
    para_header_merkle_root: Vec<u8>,
    chosen_kv_pair: (Vec<u8>, Vec<u8>),
    chosen_kv_proof: Vec<Vec<u8>>,
) -> (r: BlockData)
    requires
        para_header.wf(),
        para_header_merkle_root@.len() == 32,
        pairs_wf(initial_authority_set@),
    ensures
        r.wf(),
        r.beefy_mmr.num_leaves() == 0,
        r.relay_header.number == 1,
        r.relay_header.parent_hash@ == zero32(),
        r.signed_commitment is None,
        r.current_authority_set == initial_authority_set,
        r.current_authority_set_id == 0,
        r.para_header == para_header,
        r.encoded_para_head_data == encoded_para_head_data,
        r.para_header_merkle_proof == para_header_merkle_proof,
        r.para_header_merkle_root == para_header_merkle_root,
        r.chosen_kv_pair == chosen_kv_pair,
        r.chosen_kv_proof == chosen_kv_proof,
{
    BlockData {
        beefy_mmr: Mmr::empty(),
        relay_header: TestHeader {
            parent_hash: zero_hash(),
            number: 1,
            state_root: zero_hash(),
            extrinsics_root: zero_hash(),
        },
        signed_commitment: None,
        current_authority_set: initial_authority_set,
        current_authority_set_id: 0,
        para_header,
        encoded_para_head_data,
        para_header_merkle_proof,
        para_header_merkle_root,
        chosen_kv_proof,
        chosen_kv_pair,
    }
}

/// The leaf a child snapshot pushes: it describes the parent block and the
/// secondary-header-set root as of the child.
pub open spec fn child_leaf(prev_relay: TestHeader, para_heads_root: Seq<u8>) -> LeafV {
    LeafV {
        block_number: prev_relay.number,
        block_hash: blake2_of(header_bytes_spec(prev_relay)),
        para_heads_root: para_heads_root,
    }
}

/// Derives the child snapshot of `prev`.  The caller supplies the new
/// secondary header and the trie material computed outside; this function
/// pushes the parent's leaf, links the relay header, rotates the authority
/// set if a new one is given, and — when asked — has the parent's authority
/// set sign a commitment to the new accumulator root.  A new authority set
/// demands a commitment.  Fails exactly when a commitment is demanded and
/// some seed of the signing set is inadmissible.
pub fn create_child_block(
    prev: &BlockData,
    should_generate_commitment: bool,
    new_authority_set: Option<Vec<AuthorityPair>>,
    new_para_header: TestHeader,
    encoded_para_head_data: Vec<(Vec<u8>, Vec<u8>)>,
    para_heads_merkle_proof: Vec<Vec<u8>>,
    para_heads_merkle_root: Vec<u8>,
    chosen_kv_pair: (Vec<u8>, Vec<u8>),
    chosen_kv_proof: Vec<Vec<u8>>,
) -> (r: Option<BlockData>)
    requires
        prev.wf(),
        prev.beefy_mmr.num_leaves() < MAX_LEAVES,
        prev.relay_header.number < u64::MAX,
        prev.current_authority_set_id < u64::MAX,
        new_para_header.wf(),
        para_heads_merkle_root@.len() == 32,
        new_authority_set is Some ==> should_generate_commitment,
        new_authority_set matches Some(s) ==> pairs_wf(s@),
    ensures
        r is Some <==> (should_generate_commitment ==> forall|j: int| 0 <= j
            < prev.current_authority_set@.len() ==> ecdsa_seed_ok(
            (#[trigger] prev.current_authority_set@[j]).0@,
        )),
        r matches Some(b) ==> {
            &&& b.wf()
            &&& b.beefy_mmr.leaves() == prev.beefy_mmr.leaves().push(
                child_leaf(prev.relay_header, para_heads_merkle_root@),
            )
            &&& b.relay_header.number == prev.relay_header.number + 1
            &&& b.relay_header.parent_hash@ == blake2_of(header_bytes_spec(prev.relay_header))
            &&& b.current_authority_set_id == (if new_authority_set is Some {
                prev.current_authority_set_id + 1
            } else {
                prev.current_authority_set_id as int
            })
            &&& pairs_model(b.current_authority_set@) == (match new_authority_set {
                Some(s) => pairs_model(s@),
                None => pairs_model(prev.current_authority_set@),
            })
            &&& (b.signed_commitment is Some <==> should_generate_commitment)
            &&& b.signed_commitment matches Some(sc) ==> {
                &&& sc.commitment.validator_set_id == prev.current_authority_set_id
                &&& sc.commitment.block_number == prev.relay_header.number + 1
                &&& sc.commitment.payload.mmr_node@ == root_spec(
                    prev.beefy_mmr.leaves().push(
                        child_leaf(prev.relay_header, para_heads_merkle_root@),
                    ),
                )
                &&& sc.commitment.payload.new_validator_set_id == b.current_authority_set_id
                &&& (sc.commitment.payload.changed_authority_ids is Some <==> new_authority_set
                    is Some)
                &&& sc.commitment.payload.changed_authority_ids matches Some(ids)
                    ==> ids.deep_view() == pairs_model(new_authority_set->0@).map_values(
                    |p: (Seq<u8>, Seq<u8>)| p.1,
                )
                &&& sc.signatures.deep_view().len() == prev.current_authority_set@.len()
                &&& forall|j: int| 0 <= j < sc.signatures.deep_view().len()
                    ==> #[trigger] sc.signatures.deep_view()[j] == Some(
                        crate::block_generation::ecdsa_sig_of(
                            seeds_model(prev.current_authority_set@)[j],
                            crate::block_generation::commitment_bytes_spec(sc.commitment),
                        ),
                    )
                &&& verify_commitment_spec(sc, ids_model(prev.current_authority_set@)) == Ok::<
                    (),
                    crate::types::IngestError,
                >(())
            }
            &&& b.para_header == new_para_header
            &&& b.encoded_para_head_data == encoded_para_head_data
            &&& b.para_header_merkle_proof == para_heads_merkle_proof
            &&& b.para_header_merkle_root@ == para_heads_merkle_root@
            &&& b.chosen_kv_pair == chosen_kv_pair
            &&& b.chosen_kv_proof == chosen_kv_proof
        },
{
    let mut mmr = prev.beefy_mmr.duplicate();
    let leaf = LeafData {
        block_number: prev.relay_header.number,
        block_hash: prev.relay_header.hash(),
        para_heads_root: copy_bytes(&para_heads_merkle_root),
    };
    mmr.push(leaf);
    let signed_commitment = if should_generate_commitment {
        let root = mmr.root();
        let changed: Option<Vec<Vec<u8>>> = match &new_authority_set {
            None => None,
            Some(s) => {
                let m = s.len();
                let mut ids: Vec<Vec<u8>> = Vec::new();
                let mut j: usize = 0;
                while j < m
                    invariant
                        m == s@.len(),
                        j <= m,
                        ids@.len() == j,
                        forall|x: int| 0 <= x < j ==> (#[trigger] ids@[x])@ == s@[x].1@,
                    decreases m - j,
                {
                    ids.push(copy_bytes(&s[j].1));
                    j = j + 1;
                }
                proof {
                    let target = pairs_model(s@).map_values(|p: (Seq<u8>, Seq<u8>)| p.1);
                    assert forall|x: int| 0 <= x < m implies #[trigger] ids.deep_view()[x]
                        == target[x] by {
                        lemma_bytes_deep_view(ids@[x]);
                        assert(ids.deep_view()[x] == ids@[x].deep_view());
                        assert(pairs_model(s@)[x] == (s@[x].0@, s@[x].1@));
                    }
                    assert(ids.deep_view() =~= target);
                }
                Some(ids)
            },
        };
        let new_vsi = match &new_authority_set {
            Some(_) => prev.current_authority_set_id + 1,
            None => prev.current_authority_set_id,
        };
        let payload = CommitmentPayload {
            mmr_node: root,
            changed_authority_ids: changed,
            new_validator_set_id: new_vsi,
        };
        let ns = prev.current_authority_set.len();
        let mut seeds: Vec<Vec<u8>> = Vec::new();
        let mut j: usize = 0;
        while j < ns
            invariant
                ns == prev.current_authority_set@.len(),
                prev.wf(),
                j <= ns,
                seeds@.len() == j,
                forall|x: int| 0 <= x < j ==> (#[trigger] seeds@[x])@
                    == prev.current_authority_set@[x].0@,
            decreases ns - j,
        {
            seeds.push(copy_bytes(&prev.current_authority_set[j].0));
            j = j + 1;
        }
        proof {
            assert forall|x: int| 0 <= x < ns implies (#[trigger] seeds@[x])@.len() == 32 by {
                assert(seeds@[x]@ == prev.current_authority_set@[x].0@);
            }
        }
        match generate_signed_commitment(
            prev.current_authority_set_id,
            prev.relay_header.number + 1,
            payload,
            &seeds,
        ) {
            None => {
                proof {
                    let witness = choose|x: int|
                        0 <= x < ns && !ecdsa_seed_ok(#[trigger] seeds.deep_view()[x]);
                    lemma_bytes_deep_view(seeds@[witness]);
                    assert(!ecdsa_seed_ok(prev.current_authority_set@[witness].0@));
                }
                return None;
            },
            Some(sc) => {
                proof {
                    assert forall|x: int| 0 <= x < ns implies ecdsa_seed_ok(
                        (#[trigger] prev.current_authority_set@[x]).0@,
                    ) by {
                        lemma_bytes_deep_view(seeds@[x]);
                        assert(ecdsa_seed_ok(seeds.deep_view()[x]));
                    }
                    // The seeds handed to the signer are exactly the
                    // signing set's seeds, so the derived ids are exactly
                    // the signing set's stored ids.
                    let prevset = prev.current_authority_set@;
                    assert forall|x: int| 0 <= x < ns implies #[trigger] seeds.deep_view()[x]
                        == seeds_model(prevset)[x] by {
                        lemma_bytes_deep_view(seeds@[x]);
                    }
                    assert(seeds.deep_view() =~= seeds_model(prevset));
                    assert forall|x: int| 0 <= x < ns implies #[trigger] public_ids_of(
                        seeds.deep_view(),
                    )[x] == ids_model(prevset)[x] by {
                        assert(prevset[x].1@ == ecdsa_public_of(prevset[x].0@));
                        assert(public_ids_of(seeds.deep_view())[x] == ecdsa_public_of(
                            seeds.deep_view()[x],
                        ));
                    }
                    assert(public_ids_of(seeds.deep_view()) =~= ids_model(prevset));
                }
                Some(sc)
            },
        }
    } else {
        None
    };
    let (current_authority_set, current_authority_set_id) = match new_authority_set {
        Some(s) => {
            let id = prev.current_authority_set_id + 1;
            (s, id)
        },
        None => (copy_pair_list(&prev.current_authority_set), prev.current_authority_set_id),
    };
    proof {
        assert forall|j: int| 0 <= j < current_authority_set@.len() implies ((
        #[trigger] current_authority_set@[j]).0@.len() == 32 && current_authority_set@[j].1@
            == ecdsa_public_of(current_authority_set@[j].0@)) by {
            if new_authority_set is None {
                assert(pairs_model(current_authority_set@).len() == current_authority_set@.len());
                assert(pairs_model(prev.current_authority_set@).len()
                    == prev.current_authority_set@.len());
                assert(0 <= j < prev.current_authority_set@.len());
                assert(pairs_model(current_authority_set@)[j] == pairs_model(
                    prev.current_authority_set@,
                )[j]);
                assert(pairs_model(current_authority_set@)[j] == (
                    current_authority_set@[j].0@,
                    current_authority_set@[j].1@,
                ));
                assert(pairs_model(prev.current_authority_set@)[j] == (
                    prev.current_authority_set@[j].0@,
                    prev.current_authority_set@[j].1@,
                ));
                assert(prev.current_authority_set@[j].1@ == ecdsa_public_of(
                    prev.current_authority_set@[j].0@,
                ));
            }
        }
        assert(pairs_wf(current_authority_set@));
    }
    let b = BlockData {
        beefy_mmr: mmr,
        relay_header: TestHeader {
            parent_hash: prev.relay_header.hash(),
            number: prev.relay_header.number + 1,
            state_root: zero_hash(),
            extrinsics_root: zero_hash(),
        },
        signed_commitment,
        current_authority_set,
        current_authority_set_id,
        para_header: new_para_header,
        encoded_para_head_data,
        para_header_merkle_proof: para_heads_merkle_proof,
        para_header_merkle_root: para_heads_merkle_root,
        chosen_kv_proof,
        chosen_kv_pair,
    };
    Some(b)
}

} // verus!
