use beefy_light_client::mmr::{MMRNode, MergeStrategy, Mmr};
use beefy_light_client::types::LeafData;
use beefy_light_client::utils::{leaf_index_to_pos, mmr_size_from_number_of_leaves};

fn leaf(n: u64) -> LeafData {
    LeafData {
        block_number: n,
        block_hash: vec![n as u8; 32],
        para_heads_root: vec![n.wrapping_mul(7) as u8; 32],
    }
}

fn filled(n: u64) -> Mmr {
    let mut m = Mmr::empty();
    for i in 0..n {
        let pos = m.push(leaf(i));
        assert_eq!(pos, leaf_index_to_pos(i));
    }
    m
}

#[test]
fn size_follows_leaf_count() {
    let expected: [u64; 9] = [0, 1, 3, 4, 7, 8, 10, 11, 15];
    for (n, want) in expected.iter().enumerate() {
        assert_eq!(mmr_size_from_number_of_leaves(n as u64), *want);
    }
    assert_eq!(leaf_index_to_pos(0), 0);
    assert_eq!(leaf_index_to_pos(1), 1);
    assert_eq!(leaf_index_to_pos(2), 3);
    assert_eq!(leaf_index_to_pos(3), 4);
    assert_eq!(leaf_index_to_pos(4), 7);
}

#[test]
fn store_size_matches_formula() {
    for n in 0..9u64 {
        let m = filled(n);
        assert_eq!(m.leaf_count(), n);
        assert_eq!(m.size(), mmr_size_from_number_of_leaves(n));
    }
}

#[test]
fn singleton_root_is_the_leaf_datum() {
    let m = filled(1);
    let root = m.root();
    match root {
        MMRNode::Data(l) => {
            assert_eq!(l.block_number, 0);
            assert_eq!(l.block_hash, vec![0u8; 32]);
        },
        MMRNode::Hash(_) => panic!("a one-leaf accumulator must answer with the leaf itself"),
    }
}

#[test]
fn round_trip_all_leaves_all_sizes() {
    for n in 1..=8u64 {
        let m = filled(n);
        let root = m.root();
        let size = m.size();
        for i in 0..n {
            let items = m.gen_proof(i);
            let ok = Mmr::verify(
                &root,
                size,
                &items,
                leaf_index_to_pos(i),
                &MMRNode::Data(leaf(i)),
            );
            assert!(ok, "round trip failed for leaf {} of {}", i, n);
        }
    }
}

#[test]
fn tampered_proof_item_is_rejected() {
    let m = filled(5);
    let root = m.root();
    let size = m.size();
    let mut items = m.gen_proof(2);
    match &mut items[0] {
        MMRNode::Hash(d) => d[0] ^= 1,
        MMRNode::Data(l) => l.block_hash[0] ^= 1,
    }
    assert!(!Mmr::verify(&root, size, &items, leaf_index_to_pos(2), &MMRNode::Data(leaf(2))));
}

#[test]
fn tampered_leaf_is_rejected() {
    let m = filled(5);
    let root = m.root();
    let size = m.size();
    let items = m.gen_proof(2);
    let mut wrong = leaf(2);
    wrong.block_hash[31] ^= 1;
    assert!(!Mmr::verify(&root, size, &items, leaf_index_to_pos(2), &MMRNode::Data(wrong)));
    let other = leaf(3);
    assert!(!Mmr::verify(&root, size, &items, leaf_index_to_pos(2), &MMRNode::Data(other)));
}

#[test]
fn wrong_position_is_rejected() {
    let m = filled(5);
    let root = m.root();
    let size = m.size();
    let items = m.gen_proof(2);
    assert!(!Mmr::verify(&root, size, &items, leaf_index_to_pos(3), &MMRNode::Data(leaf(2))));
    // A non-leaf position can never carry a leaf claim.
    assert!(!Mmr::verify(&root, size, &items, 2, &MMRNode::Data(leaf(2))));
}

#[test]
fn wrong_size_is_rejected() {
    let m = filled(5);
    let root = m.root();
    let items = m.gen_proof(2);
    assert!(!Mmr::verify(&root, 6, &items, leaf_index_to_pos(2), &MMRNode::Data(leaf(2))));
}

#[test]
fn exported_store_can_be_wrapped_again() {
    let m = filled(6);
    let store = m.export_store();
    assert_eq!(store.len() as u64, mmr_size_from_number_of_leaves(6));
    let m2 = Mmr::new(6, store);
    assert!(m.root().eq_node(&m2.root()));
    let items = m2.gen_proof(5);
    assert!(Mmr::verify(&m.root(), m.size(), &items, leaf_index_to_pos(5), &MMRNode::Data(leaf(5))));
}

#[test]
fn merge_is_order_sensitive() {
    let a = MMRNode::Data(leaf(1));
    let b = MMRNode::Data(leaf(2));
    let ab = MergeStrategy::merge(&a, &b);
    let ba = MergeStrategy::merge(&b, &a);
    assert!(!ab.eq_node(&ba));
}

#[test]
fn push_preserves_earlier_proofs() {
    // Referential transparency: a proof generated against an earlier root
    // still verifies against that root, and the extended accumulator yields
    // its own consistent proofs.
    let m4 = filled(4);
    let root4 = m4.root();
    let size4 = m4.size();
    let items = m4.gen_proof(1);
    let mut m5 = m4.duplicate();
    m5.push(leaf(4));
    assert!(Mmr::verify(&root4, size4, &items, leaf_index_to_pos(1), &MMRNode::Data(leaf(1))));
    let root5 = m5.root();
    let items5 = m5.gen_proof(1);
    assert!(Mmr::verify(&root5, m5.size(), &items5, leaf_index_to_pos(1), &MMRNode::Data(leaf(1))));
    assert!(!Mmr::verify(&root5, m5.size(), &items, leaf_index_to_pos(1), &MMRNode::Data(leaf(1))));
}
