use beefy_light_client::block_generation::{
    authority_pair_from_seed, generate_signed_commitment, verify_signed_commitment,
    CommitmentPayload,
};
use beefy_light_client::mmr::MMRNode;
use beefy_light_client::types::IngestError;

fn seeds(n: u8) -> Vec<Vec<u8>> {
    (1..=n).map(|i| vec![i; 32]).collect()
}

fn ids_of(seeds: &Vec<Vec<u8>>) -> Vec<Vec<u8>> {
    seeds.iter().map(|s| authority_pair_from_seed(s).unwrap().1).collect()
}

fn payload() -> CommitmentPayload {
    CommitmentPayload {
        mmr_node: MMRNode::Hash(vec![9u8; 32]),
        changed_authority_ids: None,
        new_validator_set_id: 0,
    }
}

#[test]
fn generated_commitment_verifies() {
    let sk = seeds(5);
    let sc = generate_signed_commitment(0, 7, payload(), &sk).unwrap();
    assert_eq!(sc.signatures.len(), 5);
    assert!(sc.signatures.iter().all(|s| s.is_some()));
    assert_eq!(verify_signed_commitment(&sc, &ids_of(&sk)), Ok(()));
}

#[test]
fn empty_slot_is_rejected() {
    let sk = seeds(5);
    let mut sc = generate_signed_commitment(0, 7, payload(), &sk).unwrap();
    sc.signatures[2] = None;
    assert_eq!(
        verify_signed_commitment(&sc, &ids_of(&sk)),
        Err(IngestError::MissingSignature)
    );
}

#[test]
fn flipped_signature_bit_is_rejected() {
    let sk = seeds(5);
    let mut sc = generate_signed_commitment(0, 7, payload(), &sk).unwrap();
    if let Some(sig) = &mut sc.signatures[3] {
        sig[10] ^= 0x01;
    }
    assert_eq!(
        verify_signed_commitment(&sc, &ids_of(&sk)),
        Err(IngestError::InvalidSignature)
    );
}

#[test]
fn misplaced_signature_is_rejected() {
    let sk = seeds(5);
    let mut sc = generate_signed_commitment(0, 7, payload(), &sk).unwrap();
    sc.signatures.swap(0, 1);
    assert_eq!(
        verify_signed_commitment(&sc, &ids_of(&sk)),
        Err(IngestError::InvalidSignature)
    );
}

#[test]
fn five_member_set_rejects_six_signatures() {
    let sk6 = seeds(6);
    let sc6 = generate_signed_commitment(0, 7, payload(), &sk6).unwrap();
    let ids5 = ids_of(&seeds(5));
    assert_eq!(
        verify_signed_commitment(&sc6, &ids5),
        Err(IngestError::SignatureCountMismatch)
    );
}

#[test]
fn six_member_set_rejects_five_signatures() {
    let sk5 = seeds(5);
    let sc5 = generate_signed_commitment(0, 7, payload(), &sk5).unwrap();
    let ids6 = ids_of(&seeds(6));
    assert_eq!(
        verify_signed_commitment(&sc5, &ids6),
        Err(IngestError::SignatureCountMismatch)
    );
}

#[test]
fn altered_commitment_content_is_rejected() {
    let sk = seeds(5);
    let mut sc = generate_signed_commitment(0, 7, payload(), &sk).unwrap();
    sc.commitment.block_number = 8;
    assert_eq!(
        verify_signed_commitment(&sc, &ids_of(&sk)),
        Err(IngestError::InvalidSignature)
    );
}

#[test]
fn invalid_seed_yields_no_commitment() {
    // The zero seed is not admissible secp256k1 key material.
    let mut sk = seeds(3);
    sk[1] = vec![0u8; 32];
    assert!(generate_signed_commitment(0, 7, payload(), &sk).is_none());
}
