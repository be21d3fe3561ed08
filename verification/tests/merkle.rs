use fri::hash::hash_nodes;
use fri::merkle::power_of_two;
use fri::merkle::MerkleProof;
use fri::merkle::MerkleTree;

fn leaves(count: usize) -> Vec<Vec<u8>> {
    (0..count).map(|i| vec![i as u8; 32]).collect()
}

#[test]
fn power_of_two_recognises_the_powers() {
    for n in [1usize, 2, 4, 8, 1024, 1 << 40] {
        assert!(power_of_two(n));
    }
    for n in [0usize, 3, 5, 6, 12, 1023, (1 << 40) + 1, usize::MAX] {
        assert!(!power_of_two(n));
    }
}

#[test]
fn tree_needs_a_power_of_two_of_leaves() {
    assert!(MerkleTree::new(leaves(0)).is_none());
    assert!(MerkleTree::new(leaves(3)).is_none());
    assert!(MerkleTree::new(leaves(6)).is_none());
    assert!(MerkleTree::new(leaves(1)).is_some());
    assert!(MerkleTree::new(leaves(2)).is_some());
    assert!(MerkleTree::new(leaves(8)).is_some());
}

#[test]
fn tree_of_one_leaf_has_the_leaf_as_root() {
    let tree = MerkleTree::new(leaves(1)).unwrap();
    assert_eq!(tree.leaf_count(), 1);
    assert_eq!(tree.root(), &vec![0u8; 32]);
    let proof = tree.prove(0).unwrap();
    assert_eq!(proof.siblings().len(), 0);
    assert!(proof.verify(0, 1));
    assert!(!proof.verify(1, 1));
    assert!(!proof.verify(0, 2));
}

#[test]
fn root_hashes_the_levels_pairwise() {
    let l = leaves(4);
    let tree = MerkleTree::new(l.clone()).unwrap();
    let left = hash_nodes(&l[0], &l[1]);
    let right = hash_nodes(&l[2], &l[3]);
    assert_eq!(tree.root(), &hash_nodes(&left, &right));
    let proof = tree.prove(2).unwrap();
    assert_eq!(proof.root(), tree.root());
    assert_eq!(proof.leaf(), &l[2]);
    assert_eq!(proof.siblings(), &vec![l[3].clone(), left]);
}

#[test]
fn every_leaf_has_a_proof_that_verifies() {
    for count in [1usize, 2, 4, 8, 16, 64] {
        let tree = MerkleTree::new(leaves(count)).unwrap();
        assert_eq!(tree.leaf_count(), count);
        for index in 0..count {
            let proof = tree.prove(index).unwrap();
            assert!(proof.verify(index, count), "leaf {} of {}", index, count);
        }
        assert!(tree.prove(count).is_none());
    }
}

#[test]
fn proof_verifies_for_its_own_index_only() {
    let tree = MerkleTree::new(leaves(8)).unwrap();
    let proof = tree.prove(5).unwrap();
    for index in 0..16 {
        assert_eq!(proof.verify(index, 8), index == 5);
    }
    assert!(!proof.verify(5, 4));
    assert!(!proof.verify(5, 16));
    assert!(!proof.verify(5, 0));
}

#[test]
fn changed_proofs_do_not_verify() {
    let tree = MerkleTree::new(leaves(8)).unwrap();
    let proof = tree.prove(3).unwrap();
    let mut root = proof.root().clone();
    root[31] ^= 1;
    assert!(!MerkleProof::new(root, proof.leaf().clone(), proof.siblings().clone()).verify(3, 8));
    let mut leaf = proof.leaf().clone();
    leaf[0] ^= 1;
    assert!(!MerkleProof::new(proof.root().clone(), leaf, proof.siblings().clone()).verify(3, 8));
    for level in 0..3 {
        let mut siblings = proof.siblings().clone();
        siblings[level][9] ^= 0x10;
        assert!(!MerkleProof::new(proof.root().clone(), proof.leaf().clone(), siblings).verify(3, 8));
    }
    let mut short = proof.siblings().clone();
    short.pop();
    assert!(!MerkleProof::new(proof.root().clone(), proof.leaf().clone(), short).verify(3, 8));
}
