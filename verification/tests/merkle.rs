use hashvault::{HashAlgo, HashValue, MerkleTree};

fn leaf(data: &[u8]) -> HashValue {
    HashValue::compute(data, HashAlgo::Sha256)
}

fn pair(a: &HashValue, b: &HashValue) -> HashValue {
    let mut combined = a.bytes.clone();
    combined.extend_from_slice(&b.bytes);
    HashValue::compute(&combined, HashAlgo::Sha256)
}

#[test]
fn empty_tree_root_is_hash_of_empty_bytes() {
    let tree = MerkleTree::new(&Vec::new());
    let expected = HashValue::compute(b"", HashAlgo::Sha256);
    assert!(tree.root() == expected);
}

#[test]
fn empty_tree_root_has_canonical_hex() {
    let tree = MerkleTree::new(&Vec::new());
    assert_eq!(
        tree.root().to_hex(),
        "e3b0c44298fc1c149afbf4c8996fb92427ae41e4649b934ca495991b7852b855"
    );
}

#[test]
fn single_leaf_root_is_the_leaf_itself() {
    let l = leaf(b"only leaf");
    let tree = MerkleTree::new(&vec![l.clone()]);
    assert!(tree.root() == l);
}

#[test]
fn two_leaf_root_pairs_left_then_right() {
    let l1 = leaf(b"one");
    let l2 = leaf(b"two");
    let tree = MerkleTree::new(&vec![l1.clone(), l2.clone()]);
    assert!(tree.root() == pair(&l1, &l2));
}

#[test]
fn odd_level_pairs_last_node_with_itself() {
    let l1 = leaf(b"one");
    let l2 = leaf(b"two");
    let l3 = leaf(b"three");
    let tree = MerkleTree::new(&vec![l1.clone(), l2.clone(), l3.clone()]);
    let expected = pair(&pair(&l1, &l2), &pair(&l3, &l3));
    assert!(tree.root() == expected);
}

#[test]
fn four_leaf_root_matches_manual_construction() {
    let leaves: Vec<HashValue> = (0u8..4).map(|i| leaf(&[i])).collect();
    let tree = MerkleTree::new(&leaves);
    let expected = pair(
        &pair(&leaves[0], &leaves[1]),
        &pair(&leaves[2], &leaves[3]),
    );
    assert!(tree.root() == expected);
}

#[test]
fn generated_proofs_verify_for_power_of_two_sizes() {
    for n in [1usize, 2, 4, 8] {
        let leaves: Vec<HashValue> = (0..n).map(|i| leaf(&[i as u8, 7])).collect();
        let tree = MerkleTree::new(&leaves);
        for i in 0..n {
            let proof = tree.generate_proof(i).expect("index in range");
            assert!(MerkleTree::verify_proof(&proof));
        }
    }
}

#[test]
fn generated_proofs_verify_on_complete_paths_of_odd_trees() {
    let leaves: Vec<HashValue> = (0u8..3).map(|i| leaf(&[i])).collect();
    let tree = MerkleTree::new(&leaves);
    for i in 0..2 {
        let proof = tree.generate_proof(i).expect("index in range");
        assert!(MerkleTree::verify_proof(&proof));
    }
}

#[test]
fn self_paired_leaf_path_omits_its_sibling_and_cannot_replay() {
    // the third leaf of a three-leaf tree is paired with itself; the
    // proof records no sibling for that level, and replaying the
    // recorded siblings alone does not reproduce the self-pairing step
    let leaves: Vec<HashValue> = (0u8..3).map(|i| leaf(&[i])).collect();
    let tree = MerkleTree::new(&leaves);
    let proof = tree.generate_proof(2).expect("index in range");
    assert!(!MerkleTree::verify_proof(&proof));
}

#[test]
fn out_of_range_index_yields_no_proof() {
    let leaves: Vec<HashValue> = (0u8..3).map(|i| leaf(&[i])).collect();
    let tree = MerkleTree::new(&leaves);
    assert!(tree.generate_proof(3).is_none());
    assert!(tree.generate_proof(100).is_none());
    let empty = MerkleTree::new(&Vec::new());
    assert!(empty.generate_proof(0).is_none());
}

#[test]
fn distinct_leaf_sequences_give_distinct_roots() {
    let leaves: Vec<HashValue> = (0u8..4).map(|i| leaf(&[i])).collect();
    let t1 = MerkleTree::new(&leaves);
    let other: Vec<HashValue> = (10u8..14).map(|i| leaf(&[i])).collect();
    let t2 = MerkleTree::new(&other);
    assert!(t1.root() != t2.root());
}
