//! Tests of the commitment engine: construction, inclusion proofs,
//! degenerate cases, ordering, and serialization.

use proof_aggregation::leaf::{compute_leaf, create_merkle_tree, words_to_bytes_le};
use proof_aggregation::merkle::{flatten_nodes, split_nodes, MerkleProof, MerkleTree};

fn hex_byte(c: u8) -> u8 {
    match c {
        b'0'..=b'9' => c - b'0',
        b'a'..=b'f' => c - b'a' + 10,
        b'A'..=b'F' => c - b'A' + 10,
        _ => panic!("not a hex digit"),
    }
}

fn hex32(s: &str) -> [u8; 32] {
    let b = s.as_bytes();
    assert_eq!(b.len(), 64);
    let mut out = [0u8; 32];
    for i in 0..32 {
        out[i] = hex_byte(b[2 * i]) * 16 + hex_byte(b[2 * i + 1]);
    }
    out
}

fn leaf_of_byte(x: u8) -> [u8; 32] {
    let mut l = [0u8; 32];
    l[0] = x;
    l
}

#[test]
fn test_empty_tree() {
    let tree = MerkleTree::new(Vec::new());
    assert_eq!(tree.root, [0u8; 32]);
    assert_eq!(tree.tree.len(), 0);
    assert!(tree.generate_proof([7u8; 32]).is_none());
}

#[test]
fn test_single_leaf() {
    let leaf = leaf_of_byte(9);
    let tree = MerkleTree::new(vec![leaf]);
    assert_eq!(tree.root, leaf);
    let proof = tree.generate_proof(leaf).expect("leaf is present");
    assert!(proof.is_empty());
    assert!(tree.verify_proof(proof, leaf));
}

#[test]
fn test_round_trip_all_sizes() {
    for n in 1..=8u8 {
        let leaves: Vec<[u8; 32]> = (0..n).map(leaf_of_byte).collect();
        let tree = MerkleTree::new(leaves.clone());
        for leaf in leaves {
            let proof = tree.generate_proof(leaf).expect("leaf is present");
            assert!(tree.verify_proof(proof, leaf), "proof fails for size {}", n);
        }
    }
}

#[test]
fn test_absent_leaf_has_no_proof() {
    let leaves: Vec<[u8; 32]> = (0..4).map(leaf_of_byte).collect();
    let tree = MerkleTree::new(leaves);
    assert!(tree.generate_proof(leaf_of_byte(99)).is_none());
}

#[test]
fn test_determinism() {
    let leaves: Vec<[u8; 32]> = (0..5).map(leaf_of_byte).collect();
    let t1 = MerkleTree::new(leaves.clone());
    let t2 = MerkleTree::new(leaves.clone());
    assert_eq!(t1.root, t2.root);
    assert_eq!(t1.tree, t2.tree);
    let p1 = t1.generate_proof(leaves[3]).unwrap();
    let p2 = t2.generate_proof(leaves[3]).unwrap();
    assert_eq!(p1, p2);
}

#[test]
fn test_pair_order_independent() {
    let a = leaf_of_byte(1);
    let b = leaf_of_byte(2);
    let t_ab = MerkleTree::new(vec![a, b]);
    let t_ba = MerkleTree::new(vec![b, a]);
    // sibling sorting makes the two-leaf root independent of presentation order
    assert_eq!(t_ab.root, t_ba.root);
    let p_a_in_ab = t_ab.generate_proof(a).unwrap();
    let p_a_in_ba = t_ba.generate_proof(a).unwrap();
    // a proof generated against either ordering verifies against both roots
    assert!(t_ba.verify_proof(p_a_in_ab.clone(), a));
    assert!(t_ab.verify_proof(p_a_in_ba, a));
    assert!(t_ab.verify_proof(p_a_in_ab, a));
}

#[test]
fn test_known_keccak_root_of_two_zero_leaves() {
    // Keccak-256 of 64 zero bytes, a widely published digest value
    let expected = hex32("ad3228b676f7d3cd4284a5443f17f1962b36e491b30a40b2405849e597ba5fb5");
    let tree = MerkleTree::new(vec![[0u8; 32], [0u8; 32]]);
    assert_eq!(tree.root, expected);
}

#[test]
fn test_odd_level_carries_last_node_forward() {
    let leaves: Vec<[u8; 32]> = (0..3).map(leaf_of_byte).collect();
    let tree = MerkleTree::new(leaves.clone());
    // level order: 3 leaves, then [hash(l0,l1), l2], then the root
    assert_eq!(tree.tree.len(), 6);
    assert_eq!(tree.tree[0], leaves[0]);
    assert_eq!(tree.tree[1], leaves[1]);
    assert_eq!(tree.tree[2], leaves[2]);
    // the unpaired third leaf is carried forward unchanged, not re-hashed
    assert_eq!(tree.tree[4], leaves[2]);
    assert_eq!(tree.tree[5], tree.root);
    // and its inclusion proof skips the carried level
    let proof = tree.generate_proof(leaves[2]).unwrap();
    assert_eq!(proof.len(), 1);
    assert_eq!(proof[0], tree.tree[3]);
}

#[test]
fn test_proof_carries_as_a_value() {
    // an inclusion proof is self-contained: it can be wrapped, moved, and
    // verified later with nothing but the root
    let leaves: Vec<[u8; 32]> = (0..6).map(leaf_of_byte).collect();
    let tree = MerkleTree::new(leaves.clone());
    let wrapped = MerkleProof { siblings: tree.generate_proof(leaves[4]).unwrap() };
    assert!(tree.verify_proof(wrapped.siblings, leaves[4]));
}

#[test]
fn test_tampered_proof_fails() {
    let leaves: Vec<[u8; 32]> = (0..4).map(leaf_of_byte).collect();
    let tree = MerkleTree::new(leaves.clone());
    let mut proof = tree.generate_proof(leaves[1]).unwrap();
    proof[0][0] ^= 1;
    assert!(!tree.verify_proof(proof, leaves[1]));
    let good = tree.generate_proof(leaves[1]).unwrap();
    // a proof for one leaf does not verify another leaf
    assert!(!tree.verify_proof(good, leaves[2]));
}

#[test]
fn test_words_to_bytes_le_exact() {
    let words: [u32; 8] = [
        0x04030201, 0x08070605, 0x0c0b0a09, 0x100f0e0d, 0x14131211, 0x18171615, 0x1c1b1a19,
        0x201f1e1d,
    ];
    let bytes = words_to_bytes_le(&words);
    for i in 0..32 {
        assert_eq!(bytes[i], (i + 1) as u8);
    }
}

#[test]
fn test_leaf_digest_known_value() {
    // SHA-256 of 32 zero bytes: zero key digest and empty public values
    let expected = hex32("66687aadf862bd776c8fc18b8e9f8e20089714856ee233b3902a591d0d5f2925");
    let leaf = compute_leaf(&[0u8; 32], &Vec::new());
    assert_eq!(leaf, expected);
}

#[test]
fn test_create_merkle_tree_matches_engine() {
    let vkeys: Vec<[u32; 8]> = vec![[1u32; 8], [2u32; 8], [3u32; 8]];
    let pvs: Vec<Vec<u8>> = vec![vec![10, 11], vec![], vec![12]];
    let root = create_merkle_tree(&vkeys, &pvs);
    let leaves: Vec<[u8; 32]> = vkeys
        .iter()
        .zip(pvs.iter())
        .map(|(vk, pv)| compute_leaf(&words_to_bytes_le(vk), pv))
        .collect();
    let tree = MerkleTree::new(leaves);
    assert_eq!(root, tree.root.to_vec());
}

#[test]
fn test_serialization_round_trip() {
    let nodes: Vec<[u8; 32]> = (0..5).map(leaf_of_byte).collect();
    let flat = flatten_nodes(&nodes);
    assert_eq!(flat.len(), 160);
    let back = split_nodes(&flat).expect("length is a multiple of 32");
    assert_eq!(back, nodes);
    // rebuilding from the stored leaves reproduces an identical root
    let t1 = MerkleTree::new(nodes);
    let t2 = MerkleTree::new(back);
    assert_eq!(t1.root, t2.root);
}

#[test]
fn test_split_rejects_ragged_bytes() {
    let bytes = vec![0u8; 33];
    assert!(split_nodes(&bytes).is_none());
}
