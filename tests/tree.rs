use aws_mls::tree_kem::{
    LeafIndex, LeafNode, LeafNodeSource, Node, Parent, ParentHash, RatchetTreeError, SigningIdentity,
    TreeKemPublic,
};

fn leaf(name: &str) -> LeafNode {
    LeafNode {
        public_key: name.as_bytes().to_vec(),
        signing_identity: SigningIdentity::new(name.as_bytes().to_vec(), vec![1, 2, 3]),
        leaf_node_source: LeafNodeSource::KeyPackage,
    }
}

fn parent(seed: u8) -> Node {
    Node::Parent(Parent {
        public_key: vec![seed; 8],
        parent_hash: ParentHash::empty(),
        unmerged_leaves: vec![],
    })
}

#[test]
fn adds_fill_leftmost_blank_then_extend() {
    let mut tree = TreeKemPublic::new();
    let added = tree.add_leaves(vec![leaf("A"), leaf("B"), leaf("C")]).unwrap();
    assert_eq!(added, vec![LeafIndex(0), LeafIndex(1), LeafIndex(2)]);
    assert_eq!(tree.total_leaf_count(), 4);
    assert_eq!(tree.nodes.len(), 7);
    tree.remove_leaf(LeafIndex(1)).unwrap();
    let again = tree.add_leaves(vec![leaf("D")]).unwrap();
    assert_eq!(again, vec![LeafIndex(1)]);
    let more = tree.add_leaves(vec![leaf("E"), leaf("F")]).unwrap();
    assert_eq!(more, vec![LeafIndex(3), LeafIndex(4)]);
    assert_eq!(tree.total_leaf_count(), 8);
}

#[test]
fn adds_are_unmerged_at_non_blank_ancestors() {
    let mut tree = TreeKemPublic::new();
    tree.add_leaves(vec![leaf("A"), leaf("B"), leaf("C")]).unwrap();
    tree.nodes[3] = Some(parent(3));
    tree.nodes[5] = Some(parent(5));
    tree.add_leaves(vec![leaf("D")]).unwrap();
    for i in [3usize, 5] {
        match &tree.nodes[i] {
            Some(Node::Parent(p)) => assert_eq!(p.unmerged_leaves, vec![LeafIndex(3)]),
            _ => panic!("expected a parent"),
        }
    }
    assert!(tree.nodes[1].is_none());
}

#[test]
fn remove_blanks_direct_path_and_keeps_size() {
    let mut tree = TreeKemPublic::new();
    tree.add_leaves(vec![leaf("A"), leaf("B"), leaf("C"), leaf("D")]).unwrap();
    for i in [1usize, 3, 5] {
        tree.nodes[i] = Some(parent(i as u8));
    }
    tree.remove_leaf(LeafIndex(2)).unwrap();
    assert!(tree.nodes[4].is_none());
    assert!(tree.nodes[5].is_none());
    assert!(tree.nodes[3].is_none());
    assert!(tree.nodes[1].is_some());
    assert_eq!(tree.total_leaf_count(), 4);
    assert!(matches!(
        tree.remove_leaf(LeafIndex(2)),
        Err(RatchetTreeError::ExpectedLeaf(_))
    ));
}

#[test]
fn resolution_of_blank_and_non_blank_nodes() {
    let mut tree = TreeKemPublic::new();
    tree.add_leaves(vec![leaf("A"), leaf("B"), leaf("C"), leaf("D")]).unwrap();
    tree.nodes[2] = None;
    tree.nodes[5] = Some(Node::Parent(Parent {
        public_key: vec![5],
        parent_hash: ParentHash::empty(),
        unmerged_leaves: vec![LeafIndex(3)],
    }));
    assert_eq!(tree.resolution_of(3, 4), vec![0, 5, 6]);
    assert_eq!(tree.resolution_of(1, 2), vec![0]);
    assert_eq!(tree.resolution_of(2, 1), Vec::<u32>::new());
}

#[test]
fn tree_hash_reflects_contents() {
    let h = aws_mls::crypto::Hash::new(aws_mls::cipher_suite::CipherSuite::Curve25519Aes128);
    let mut tree = TreeKemPublic::new();
    tree.add_leaves(vec![leaf("A"), leaf("B")]).unwrap();
    let before = tree.tree_hash(&h);
    assert_eq!(before.len(), 32);
    tree.update_leaf(LeafIndex(1), leaf("B2")).unwrap();
    assert_ne!(tree.tree_hash(&h), before);
}

#[test]
fn import_rejects_malformed_trees() {
    let mut tree = TreeKemPublic::new();
    tree.add_leaves(vec![leaf("A"), leaf("B")]).unwrap();
    let data = tree.export_node_data();
    assert!(TreeKemPublic::import_node_data(&data).is_some());
    assert!(TreeKemPublic::import_node_data(&data[..data.len() - 1]).is_none());
    tree.nodes[1] = Some(Node::Leaf(leaf("X")));
    assert!(!tree.is_well_formed());
}

#[test]
fn leaf_once_in_resolution_below_first_non_blank_ancestor() {
    let mut tree = TreeKemPublic::new();
    tree.add_leaves(vec![leaf("A"), leaf("B"), leaf("C"), leaf("D")]).unwrap();
    tree.nodes[3] = Some(Node::Parent(Parent {
        public_key: vec![3],
        parent_hash: ParentHash::empty(),
        unmerged_leaves: vec![LeafIndex(1)],
    }));
    // Leaf 0's first non-blank ancestor is the root; its child on that side is node 1.
    let res = tree.resolution_of(1, 2);
    assert_eq!(res.iter().filter(|&&x| x == 0).count(), 1);
    assert_eq!(res, vec![0, 2]);
}

#[test]
fn blank_parent_on_filtered_path_is_an_error() {
    let h = aws_mls::crypto::Hash::new(aws_mls::cipher_suite::CipherSuite::Curve25519Aes128);
    let mut tree = TreeKemPublic::new();
    tree.add_leaves(vec![leaf("A"), leaf("B")]).unwrap();
    let before = tree.export_node_data();
    assert!(matches!(
        tree.update_parent_hashes(&h, LeafIndex(0), None),
        Err(RatchetTreeError::ExpectedParent(1))
    ));
    assert_eq!(tree.export_node_data(), before);
}
