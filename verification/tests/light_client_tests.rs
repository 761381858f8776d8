//! End-to-end scenarios: a simulated relay chain with a bridged secondary
//! chain, commitments ingested by the verifier, and nested claims.

use beefy_light_client::block_data::{
    create_child_block, create_genesis_block, make_child_para_header, make_genesis_para_header,
    AuthorityPair, BlockData,
};
use beefy_light_client::block_generation::authority_pair_from_seed;
use beefy_light_client::encoding::header_bytes;
use beefy_light_client::ethereum_actor::EthereumActor;
use beefy_light_client::traits::Hashable;
use beefy_light_client::types::{ClaimError, IngestError, TestHeader};
use beefy_light_client::utils::leaf_index_to_pos;
use sp_trie::TrieMut;

type Layout = sp_trie::LayoutV1<sp_core::KeccakHasher>;

/// Builds a keccak trie over the entries and returns its root and an
/// inclusion proof for `key`.
fn trie_root_and_proof(entries: &[(Vec<u8>, Vec<u8>)], key: &[u8]) -> (Vec<u8>, Vec<Vec<u8>>) {
    let mut db = sp_trie::MemoryDB::<sp_core::KeccakHasher>::default();
    let mut root: sp_core::H256 = Default::default();
    {
        let mut trie = sp_trie::TrieDBMutBuilder::<Layout>::new(&mut db, &mut root).build();
        for (k, v) in entries {
            trie.insert(k, v).unwrap();
        }
    }
    let proof = sp_trie::generate_trie_proof::<Layout, _, _, _>(&db, root, vec![&key.to_vec()])
        .unwrap();
    (root.0.to_vec(), proof)
}

/// A deterministic little state trie for one block: a handful of key/value
/// pairs, one of them chosen for the claim.
fn storage_for(tag: u8) -> (Vec<u8>, (Vec<u8>, Vec<u8>), Vec<Vec<u8>>) {
    let mut entries: Vec<(Vec<u8>, Vec<u8>)> = Vec::new();
    for i in 0..5u8 {
        let mut key = vec![0u8; 32];
        key[0] = tag;
        key[1] = i;
        let mut value = vec![0u8; 64];
        value[0] = tag ^ 0x5a;
        value[1] = i;
        entries.push((key, value));
    }
    let chosen = entries[2].clone();
    let (root, proof) = trie_root_and_proof(&entries, &chosen.0);
    (root, chosen, proof)
}

fn authorities(seed_tags: &[u8]) -> Vec<AuthorityPair> {
    seed_tags.iter().map(|t| authority_pair_from_seed(&vec![*t; 32]).unwrap()).collect()
}

fn ids_of(set: &[AuthorityPair]) -> Vec<Vec<u8>> {
    set.iter().map(|p| p.1.clone()).collect()
}

/// Mirrors the chain-simulation collaborator: random state replaced by a
/// deterministic one, trie construction done here, structure and signing
/// done by the library.
fn next_block(
    prev: Option<&BlockData>,
    should_generate_commitment: bool,
    new_authority_set: Option<Vec<AuthorityPair>>,
) -> BlockData {
    match prev {
        None => {
            let (storage_root, kv, kv_proof) = storage_for(1);
            let para_header = make_genesis_para_header(&storage_root);
            let entries = vec![(para_header.hash(), header_bytes(&para_header))];
            let (heads_root, heads_proof) = trie_root_and_proof(&entries, &para_header.hash());
            create_genesis_block(
                new_authority_set.expect("genesis needs an initial authority set"),
                para_header,
                entries,
                heads_proof,
                heads_root,
                kv,
                kv_proof,
            )
        },
        Some(prev) => {
            let (storage_root, kv, kv_proof) =
                storage_for(prev.para_header.number as u8 + 1);
            let new_para = make_child_para_header(&prev.para_header, &storage_root);
            let mut entries = prev.encoded_para_head_data.clone();
            entries.push((new_para.hash(), header_bytes(&new_para)));
            let (heads_root, heads_proof) = trie_root_and_proof(&entries, &new_para.hash());
            create_child_block(
                prev,
                should_generate_commitment,
                new_authority_set,
                new_para,
                entries,
                heads_proof,
                heads_root,
                kv,
                kv_proof,
            )
            .expect("all test seeds are admissible")
        },
    }
}

/// One genesis plus ten children, rotating from five to six authorities at
/// the fifth block, plus a final committing block: the demo chain.
fn build_chain() -> (Vec<BlockData>, Vec<AuthorityPair>, Vec<AuthorityPair>) {
    let initial = authorities(&[1, 2, 3, 4, 5]);
    let next = authorities(&[6, 7, 8, 9, 10, 11]);
    let mut blocks = Vec::new();
    blocks.push(next_block(None, false, Some(initial.clone())));
    for i in 0..10 {
        let b = if i == 3 {
            next_block(Some(blocks.last().unwrap()), true, Some(next.clone()))
        } else {
            next_block(Some(blocks.last().unwrap()), false, None)
        };
        blocks.push(b);
    }
    blocks.push(next_block(Some(blocks.last().unwrap()), true, None));
    (blocks, initial, next)
}

/// The claim of the demo: block at `leaf_index` is finalized and its chosen
/// key/value pair is part of its committed state.
fn claim_for(
    actor: &EthereumActor,
    blocks: &[BlockData],
    leaf_index: u64,
    last: &BlockData,
) -> Result<(), ClaimError> {
    let target = &blocks[leaf_index as usize];
    let child = &blocks[leaf_index as usize + 1];
    let proof_items = last.beefy_mmr.gen_proof(leaf_index);
    let (_, incl_proof) =
        trie_root_and_proof(&child.encoded_para_head_data, &target.para_header.hash());
    actor.verify_claim(
        target.relay_header.duplicate(),
        proof_items,
        leaf_index_to_pos(leaf_index),
        target.para_header.duplicate(),
        incl_proof,
        child.para_header_merkle_root.clone(),
        target.chosen_kv_pair.clone(),
        target.chosen_kv_proof.clone(),
    )
}

#[test]
fn end_to_end_scenario() {
    let (blocks, initial, _next) = build_chain();
    let last = blocks.last().unwrap();
    let mut actor = EthereumActor::new(ids_of(&initial), 0);
    // The rotation block must go in first: it carries the new authority set.
    assert_eq!(actor.ingest_new_header(blocks[4].ethereum_view()), Ok(()));
    // Then the head, which carries the freshest accumulator root.
    assert_eq!(actor.ingest_new_header(last.ethereum_view()), Ok(()));
    // The claim about block at leaf index 4 succeeds.
    assert_eq!(claim_for(&actor, &blocks, 4, last), Ok(()));
    // The same claim aimed at the head itself is refused: a block cannot
    // attest to its own finality.
    let at_head = last.relay_header.duplicate();
    let proof_items = last.beefy_mmr.gen_proof(4);
    let r = actor.verify_claim(
        at_head,
        proof_items,
        leaf_index_to_pos(4),
        blocks[4].para_header.duplicate(),
        blocks[5].para_header_merkle_proof.clone(),
        blocks[5].para_header_merkle_root.clone(),
        blocks[4].chosen_kv_pair.clone(),
        blocks[4].chosen_kv_proof.clone(),
    );
    assert_eq!(r, Err(ClaimError::BlockNotBeforeFinalized));
}

#[test]
fn lag_invariant() {
    let (blocks, initial, _next) = build_chain();
    let mut actor = EthereumActor::new(ids_of(&initial), 0);
    // Ingest the commitment of the rotation block (relay number 5).
    assert_eq!(actor.ingest_new_header(blocks[4].ethereum_view()), Ok(()));
    // A claim about that very block fails: it is not strictly before the
    // finalized head.  (The proof content is never reached.)
    let r = actor.verify_claim(
        blocks[4].relay_header.duplicate(),
        blocks[4].beefy_mmr.gen_proof(3),
        leaf_index_to_pos(3),
        blocks[4].para_header.duplicate(),
        blocks[4].para_header_merkle_proof.clone(),
        blocks[4].para_header_merkle_root.clone(),
        blocks[4].chosen_kv_pair.clone(),
        blocks[4].chosen_kv_proof.clone(),
    );
    assert_eq!(r, Err(ClaimError::BlockNotBeforeFinalized));
    // A claim about its parent (leaf index 3) succeeds with correct proofs.
    assert_eq!(claim_for(&actor, &blocks, 3, &blocks[4]), Ok(()));
}

#[test]
fn rotation_atomicity() {
    let (blocks, initial, next) = build_chain();
    let last = blocks.last().unwrap();
    let mut actor = EthereumActor::new(ids_of(&initial), 0);
    assert_eq!(actor.ingest_new_header(blocks[4].ethereum_view()), Ok(()));
    // The new set and its id are installed together.
    assert_eq!(actor.current_set_id, 1);
    assert_eq!(actor.current_authorities, ids_of(&next));
    assert_eq!(actor.current_authorities.len(), 6);
    // Replaying the stale commitment, signed under set id 0, is refused.
    assert_eq!(
        actor.ingest_new_header(blocks[4].ethereum_view()),
        Err(IngestError::SetIdMismatch)
    );
    // The state is untouched by the failure, and a commitment under the new
    // id with six valid signatures goes through.
    assert_eq!(actor.current_set_id, 1);
    assert_eq!(actor.ingest_new_header(last.ethereum_view()), Ok(()));
}

#[test]
fn storage_proof_tampering_detected() {
    let (blocks, initial, _next) = build_chain();
    let last = blocks.last().unwrap();
    let mut actor = EthereumActor::new(ids_of(&initial), 0);
    assert_eq!(actor.ingest_new_header(blocks[4].ethereum_view()), Ok(()));
    assert_eq!(actor.ingest_new_header(last.ethereum_view()), Ok(()));
    let target = &blocks[4];
    let child = &blocks[5];
    let proof_items = last.beefy_mmr.gen_proof(4);
    let (_, incl_proof) =
        trie_root_and_proof(&child.encoded_para_head_data, &target.para_header.hash());
    // Flip the last byte of the claimed value.
    let mut kv = target.chosen_kv_pair.clone();
    let value_len = kv.1.len();
    kv.1[value_len - 1] ^= 1;
    let r = actor.verify_claim(
        target.relay_header.duplicate(),
        proof_items,
        leaf_index_to_pos(4),
        target.para_header.duplicate(),
        incl_proof,
        child.para_header_merkle_root.clone(),
        kv,
        target.chosen_kv_proof.clone(),
    );
    assert_eq!(r, Err(ClaimError::StorageProofInvalid));
}

#[test]
fn header_inclusion_tampering_detected() {
    let (blocks, initial, _next) = build_chain();
    let last = blocks.last().unwrap();
    let mut actor = EthereumActor::new(ids_of(&initial), 0);
    assert_eq!(actor.ingest_new_header(blocks[4].ethereum_view()), Ok(()));
    assert_eq!(actor.ingest_new_header(last.ethereum_view()), Ok(()));
    let target = &blocks[4];
    let child = &blocks[5];
    let proof_items = last.beefy_mmr.gen_proof(4);
    // An inclusion proof generated for a different header.
    let (_, wrong_incl) =
        trie_root_and_proof(&child.encoded_para_head_data, &blocks[2].para_header.hash());
    let r = actor.verify_claim(
        target.relay_header.duplicate(),
        proof_items,
        leaf_index_to_pos(4),
        target.para_header.duplicate(),
        wrong_incl,
        child.para_header_merkle_root.clone(),
        target.chosen_kv_pair.clone(),
        target.chosen_kv_proof.clone(),
    );
    assert_eq!(r, Err(ClaimError::ParaHeaderInclusionInvalid));
}

#[test]
fn accumulator_proof_tampering_detected() {
    let (blocks, initial, _next) = build_chain();
    let last = blocks.last().unwrap();
    let mut actor = EthereumActor::new(ids_of(&initial), 0);
    assert_eq!(actor.ingest_new_header(blocks[4].ethereum_view()), Ok(()));
    assert_eq!(actor.ingest_new_header(last.ethereum_view()), Ok(()));
    let target = &blocks[4];
    let child = &blocks[5];
    let proof_items = last.beefy_mmr.gen_proof(3);  // a proof for another leaf
    let (_, incl_proof) =
        trie_root_and_proof(&child.encoded_para_head_data, &target.para_header.hash());
    let r = actor.verify_claim(
        target.relay_header.duplicate(),
        proof_items,
        leaf_index_to_pos(4),
        target.para_header.duplicate(),
        incl_proof,
        child.para_header_merkle_root.clone(),
        target.chosen_kv_pair.clone(),
        target.chosen_kv_proof.clone(),
    );
    assert_eq!(r, Err(ClaimError::MmrProofInvalid));
}

#[test]
fn ingest_error_paths() {
    let (blocks, initial, _next) = build_chain();
    let mut actor = EthereumActor::new(ids_of(&initial), 0);
    // No commitment carried: refused.
    assert_eq!(
        actor.ingest_new_header(blocks[1].ethereum_view()),
        Err(IngestError::MissingCommitment)
    );
    // A view whose header number disagrees with the committed one.
    let mut v = blocks[4].ethereum_view();
    v.relay_header.number += 1;
    assert_eq!(actor.ingest_new_header(v), Err(IngestError::BlockNumberMismatch));
    // A view whose own accumulator root disagrees with the committed root.
    let mut v = blocks[4].ethereum_view();
    v.beefy_mmr_root = beefy_light_client::mmr::MMRNode::Hash(vec![0u8; 32]);
    assert_eq!(actor.ingest_new_header(v), Err(IngestError::MmrRootMismatch));
    // Nothing was accepted on the way, so claims are still impossible.
    let r = claim_for(&actor, &blocks, 3, &blocks[4]);
    assert_eq!(r, Err(ClaimError::NotIngestedYet));
}

#[test]
fn view_projection_is_faithful() {
    let (blocks, _initial, _next) = build_chain();
    let v = blocks[4].ethereum_view();
    assert_eq!(v.beefy_mmr_leaves, 4);
    assert_eq!(v.relay_header.number, blocks[4].relay_header.number);
    assert!(v.signed_commitment.is_some());
    let sc = v.signed_commitment.as_ref().unwrap();
    assert_eq!(sc.commitment.block_number, 5);
    assert_eq!(sc.commitment.validator_set_id, 0);
    assert_eq!(sc.commitment.payload.new_validator_set_id, 1);
    assert!(sc.commitment.payload.changed_authority_ids.is_some());
    assert_eq!(
        sc.commitment.payload.changed_authority_ids.as_ref().unwrap().len(),
        6
    );
    // The root the view carries is the root of its own accumulator.
    assert!(v.beefy_mmr_root.eq_node(&blocks[4].beefy_mmr.root()));
}

#[test]
fn genesis_layout() {
    let initial = authorities(&[1, 2, 3, 4, 5]);
    let g = next_block(None, false, Some(initial));
    assert_eq!(g.beefy_mmr_leaves(), 0);
    assert_eq!(g.relay_header.number, 1);
    assert_eq!(g.current_authority_set_id, 0);
    assert!(g.signed_commitment.is_none());
    assert_eq!(g.para_header.number, 1);
}

#[test]
fn header_encoding_shape() {
    let h = TestHeader {
        parent_hash: vec![1u8; 32],
        number: 0x0102030405060708,
        state_root: vec![2u8; 32],
        extrinsics_root: vec![3u8; 32],
    };
    let b = header_bytes(&h);
    assert_eq!(b.len(), 32 + 8 + 32 + 32);
    assert_eq!(&b[0..32], &[1u8; 32][..]);
    // Little endian number.
    assert_eq!(&b[32..40], &[8, 7, 6, 5, 4, 3, 2, 1][..]);
    assert_eq!(&b[40..72], &[2u8; 32][..]);
    assert_eq!(&b[72..104], &[3u8; 32][..]);
    // The header digest is the hash of exactly these bytes.
    let d = h.hash();
    assert_eq!(d.len(), 32);
}
