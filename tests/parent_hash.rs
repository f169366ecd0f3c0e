use aws_mls::cipher_suite::CipherSuite;
use aws_mls::parent_hash::ParentHashError;
use aws_mls::tree_kem::{
    LeafIndex, LeafNode, LeafNodeSource, Node, Parent, ParentHash, RatchetTreeError,
    SigningIdentity, TreeKemPublic, ValidatedUpdatePath,
};

const TEST_CIPHER_SUITE: CipherSuite = CipherSuite::Curve25519Aes128;

fn get_basic_test_node(_cipher_suite: CipherSuite, name: &str) -> LeafNode {
    let mut public_key = b"leaf key ".to_vec();
    public_key.extend_from_slice(name.as_bytes());
    LeafNode {
        public_key,
        signing_identity: SigningIdentity::new(name.as_bytes().to_vec(), b"signature key".to_vec()),
        leaf_node_source: LeafNodeSource::KeyPackage,
    }
}

fn test_parent_node(seed: u8, unmerged_leaves: Vec<LeafIndex>) -> Node {
    Node::Parent(Parent {
        public_key: vec![seed; 32],
        parent_hash: ParentHash::empty(),
        unmerged_leaves,
    })
}

fn get_test_tree_fig_12(cipher_suite: CipherSuite) -> TreeKemPublic {
    let h = aws_mls::crypto::Hash::new(cipher_suite);
    let mut tree = TreeKemPublic::new();
    let leaves = ["A", "B", "C", "D", "E", "F", "G"]
        .map(|l| get_basic_test_node(cipher_suite, l))
        .to_vec();
    tree.add_leaves(leaves).unwrap();

    tree.nodes[1] = Some(test_parent_node(1, vec![]));
    tree.nodes[3] = Some(test_parent_node(3, vec![LeafIndex(3)]));
    tree.nodes[7] = Some(test_parent_node(7, vec![LeafIndex(3), LeafIndex(6)]));
    tree.nodes[9] = Some(test_parent_node(9, vec![LeafIndex(5)]));
    tree.nodes[11] = Some(test_parent_node(11, vec![LeafIndex(5), LeafIndex(6)]));

    tree.update_parent_hashes(&h, LeafIndex(0), None).unwrap();
    tree.update_parent_hashes(&h, LeafIndex(4), None).unwrap();
    tree
}

#[test]
fn test_missing_parent_hash() {
    let h = aws_mls::crypto::Hash::new(TEST_CIPHER_SUITE);
    let mut test_tree = get_test_tree_fig_12(TEST_CIPHER_SUITE);
    let test_key_package = get_basic_test_node(TEST_CIPHER_SUITE, "foo");
    let test_update_path = ValidatedUpdatePath {
        leaf_node: test_key_package,
        nodes: vec![],
    };
    let missing_parent_hash_res =
        test_tree.update_parent_hashes(&h, LeafIndex(0), Some(&test_update_path));
    assert!(matches!(
        missing_parent_hash_res,
        Err(RatchetTreeError::ParentHashNotFound)
    ));
}

#[test]
fn test_parent_hash_mismatch() {
    let h = aws_mls::crypto::Hash::new(TEST_CIPHER_SUITE);
    let mut test_tree = get_test_tree_fig_12(TEST_CIPHER_SUITE);
    let test_key_package = get_basic_test_node(TEST_CIPHER_SUITE, "foo");
    let mut test_update_path = ValidatedUpdatePath {
        leaf_node: test_key_package,
        nodes: vec![],
    };
    let unexpected_parent_hash = ParentHash(vec![0xf0, 0x0d]);
    test_update_path.leaf_node.leaf_node_source = LeafNodeSource::Commit(unexpected_parent_hash);
    let invalid_parent_hash_res =
        test_tree.update_parent_hashes(&h, LeafIndex(0), Some(&test_update_path));
    assert!(matches!(
        invalid_parent_hash_res,
        Err(RatchetTreeError::ParentHashMismatch)
    ));
}

#[test]
fn test_parent_hash_invalid() {
    let h = aws_mls::crypto::Hash::new(TEST_CIPHER_SUITE);
    let mut test_tree = get_test_tree_fig_12(TEST_CIPHER_SUITE);
    test_tree.nodes[2] = None;
    let res = test_tree.validate_parent_hashes(&h);
    assert!(matches!(res, Err(RatchetTreeError::ParentHashMismatch)));
}

#[test]
fn test_parent_hash_with_blanks() {
    let h = aws_mls::crypto::Hash::new(TEST_CIPHER_SUITE);

    // A tree with 4 blanks: leaves C and D, and their 2 ancestors.
    let mut tree = TreeKemPublic::new();
    let leaves = ["A", "B", "C", "D", "E", "F"]
        .map(|l| get_basic_test_node(TEST_CIPHER_SUITE, l))
        .to_vec();
    tree.add_leaves(leaves).unwrap();

    tree.nodes[1] = Some(test_parent_node(1, vec![]));
    tree.nodes[7] = Some(test_parent_node(7, vec![]));
    tree.nodes[9] = Some(test_parent_node(9, vec![]));
    tree.nodes[4] = None;
    tree.nodes[6] = None;

    // Compute parent hashes after E commits and then A commits.
    for i in [4, 0] {
        let ph = tree.update_parent_hashes(&h, LeafIndex(i), None).unwrap();
        tree.set_leaf_node_source(LeafIndex(i), LeafNodeSource::Commit(ph))
            .unwrap();
    }

    assert!(tree.validate_parent_hashes(&h).is_ok());
}

#[test]
fn test_parent_hash_edge() {
    let h = aws_mls::crypto::Hash::new(TEST_CIPHER_SUITE);
    let mut tree = TreeKemPublic::new();
    let leaves = [
        "0", "1", "2", "3", "4", "5", "6", "7", "8", "9", "10", "11", "12", "13",
    ]
    .map(|l| get_basic_test_node(TEST_CIPHER_SUITE, l))
    .to_vec();
    tree.add_leaves(leaves).unwrap();

    for i in [19, 23, 1, 3, 5, 9, 11, 13, 7, 15] {
        tree.nodes[i] = Some(test_parent_node(i as u8, vec![]));
    }
    for i in [16, 24] {
        tree.nodes[i] = None;
    }

    for i in [0, 2, 4, 6, 9] {
        let ph = tree.update_parent_hashes(&h, LeafIndex(i), None).unwrap();
        tree.set_leaf_node_source(LeafIndex(i), LeafNodeSource::Commit(ph))
            .unwrap();
    }

    for leaf_name in ["A", "B", "C"] {
        tree.add_leaves(vec![get_basic_test_node(TEST_CIPHER_SUITE, leaf_name)])
            .unwrap();
    }

    assert!(tree.validate_parent_hashes(&h).is_ok());
}

#[test]
fn parent_hash_of_single_leaf_is_empty() {
    let h = aws_mls::crypto::Hash::new(TEST_CIPHER_SUITE);
    let mut tree = TreeKemPublic::new();
    tree.add_leaves(vec![get_basic_test_node(TEST_CIPHER_SUITE, "A")])
        .unwrap();
    let ph = tree.update_parent_hashes(&h, LeafIndex(0), None).unwrap();
    assert!(ph.0.is_empty());
    assert!(tree.validate_parent_hashes(&h).is_ok());
}

#[test]
fn parent_hash_new_hashes_its_inputs() {
    let h = aws_mls::crypto::Hash::new(TEST_CIPHER_SUITE);
    let a = ParentHash::new(&h, b"key", &ParentHash::empty(), b"sibling").unwrap();
    let b = ParentHash::new(&h, b"key", &ParentHash::empty(), b"other").unwrap();
    assert_eq!(a.0.len(), 32);
    assert!(!a.matches(&b));
    assert!(a.matches(&a.clone()));
    let _unused: Option<ParentHashError> = None;
}

#[test]
fn test_parent_hash_test_vectors() {
    for cipher_suite in CipherSuite::all() {
        let tree_data = get_test_tree_fig_12(cipher_suite).export_node_data();
        let h = aws_mls::crypto::Hash::new(cipher_suite);
        let tree = TreeKemPublic::import_node_data(&tree_data).unwrap();
        assert_eq!(tree.export_node_data(), tree_data);

        for index in tree.non_empty_leaves() {
            let leaf = tree.get_leaf_node(index).unwrap();
            if let LeafNodeSource::Commit(parent_hash) = &leaf.leaf_node_source {
                let (calculated_parent_hash, changes) = tree.parent_hash_for_leaf(&h, index).unwrap();
                for (node_index, parent_hash) in changes {
                    match &tree.nodes[node_index as usize] {
                        Some(Node::Parent(p)) => assert_eq!(parent_hash.0, p.parent_hash.0),
                        _ => panic!("expected a parent"),
                    }
                }
                assert_eq!(calculated_parent_hash.0, parent_hash.0);
            }
        }
    }
}

/// Figure 12 with E committing first and A last, each leaf carrying the
/// parent hash that its commit computed.
fn fig_12_committed() -> TreeKemPublic {
    let h = aws_mls::crypto::Hash::new(TEST_CIPHER_SUITE);
    let mut tree = get_test_tree_fig_12(TEST_CIPHER_SUITE);
    for i in [4u32, 0] {
        let ph = tree.update_parent_hashes(&h, LeafIndex(i), None).unwrap();
        tree.set_leaf_node_source(LeafIndex(i), LeafNodeSource::Commit(ph)).unwrap();
    }
    tree
}

#[test]
fn fig_12_validates_when_a_commits_last() {
    let h = aws_mls::crypto::Hash::new(TEST_CIPHER_SUITE);
    assert!(fig_12_committed().validate_parent_hashes(&h).is_ok());
}

#[test]
fn fig_12_blanking_a_non_root_parent_fails() {
    let h = aws_mls::crypto::Hash::new(TEST_CIPHER_SUITE);
    for blank in [1usize, 3, 9, 11] {
        let mut tree = fig_12_committed();
        tree.nodes[blank] = None;
        assert!(matches!(
            tree.validate_parent_hashes(&h),
            Err(RatchetTreeError::ParentHashMismatch)
        ));
    }
}
