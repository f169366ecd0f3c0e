//! The public ratchet tree: a left-balanced binary tree kept as a flat vector
//! of optional nodes, leaves at even indices and parents at odd ones.
use vstd::prelude::*;
use crate::codec::{
    enc_bytes, enc_u32, write_bytes, write_raw, write_u32, write_u8,
};

verus! {

/// Position of a member among the leaves.
#[derive(Clone, Copy, Debug, PartialEq, Eq, Structural)]
pub struct LeafIndex(pub u32);

/// A member's identity: a signature key with its credential.
#[derive(Clone, Debug)]
pub struct SigningIdentity {
    pub signature_key: Vec<u8>,
    pub credential: Vec<u8>,
}

impl SigningIdentity {
    /// Create a new signing identity from `credential` and `signature_key`.
    pub fn new(credential: Vec<u8>, signature_key: Vec<u8>) -> (r: SigningIdentity)
        ensures
            r.credential@ == credential@,
            r.signature_key@ == signature_key@,
    {
        SigningIdentity { credential, signature_key }
    }
}

/// A hash binding a node to its parent and to the original tree hash of its
/// sibling subtree.
#[derive(Clone, Debug)]
pub struct ParentHash(pub Vec<u8>);

/// How a leaf got its current contents.
#[derive(Clone, Debug)]
pub enum LeafNodeSource {
    KeyPackage,
    Update,
    Commit(ParentHash),
}

#[derive(Clone, Debug)]
pub struct LeafNode {
    pub public_key: Vec<u8>,
    pub signing_identity: SigningIdentity,
    pub leaf_node_source: LeafNodeSource,
}

#[derive(Clone, Debug)]
pub struct Parent {
    pub public_key: Vec<u8>,
    pub parent_hash: ParentHash,
    pub unmerged_leaves: Vec<LeafIndex>,
}

#[derive(Clone, Debug)]
pub enum Node {
    Leaf(LeafNode),
    Parent(Parent),
}

/// An HPKE ciphertext: the encapsulated key and the sealed bytes.
#[derive(Clone, Debug)]
pub struct HpkeCiphertext {
    pub kem_output: Vec<u8>,
    pub ciphertext: Vec<u8>,
}

/// One node of an update path: its new public key and the path secret
/// encrypted to each member of the co-path child's resolution.
#[derive(Clone, Debug)]
pub struct UpdatePathNode {
    pub public_key: Vec<u8>,
    pub encrypted_path_secret: Vec<HpkeCiphertext>,
}

/// An update path whose signature has been checked.
#[derive(Clone, Debug)]
pub struct ValidatedUpdatePath {
    pub leaf_node: LeafNode,
    pub nodes: Vec<UpdatePathNode>,
}

/// The public tree. A slot holding `None` is blank.
#[derive(Clone, Debug)]
pub struct TreeKemPublic {
    pub nodes: Vec<Option<Node>>,
}

/// Failures of tree operations.
#[derive(Debug)]
pub enum RatchetTreeError {
    ParentHashMismatch,
    ParentHashNotFound,
    ExpectedParent(u32),
    ExpectedLeaf(u32),
    TreeFull,
    InvalidRatchetTree,
}

pub open spec fn fits_u32(b: Seq<u8>) -> bool {
    b.len() <= u32::MAX
}

pub open spec fn is_pow2(w: int) -> bool
    decreases w,
{
    if w <= 1 {
        w == 1
    } else {
        w % 2 == 0 && is_pow2(w / 2)
    }
}

/// `s` is strictly increasing and every entry is below `n`.
pub open spec fn leaf_set_ok(s: Seq<LeafIndex>, n: int) -> bool {
    &&& forall|i: int, j: int| 0 <= i < j < s.len() ==> s[i].0 < s[j].0
    &&& forall|i: int| 0 <= i < s.len() ==> s[i].0 < n
}

impl LeafNode {
    pub open spec fn wf(self) -> bool {
        &&& fits_u32(self.public_key@)
        &&& fits_u32(self.signing_identity.signature_key@)
        &&& fits_u32(self.signing_identity.credential@)
        &&& (self.leaf_node_source matches LeafNodeSource::Commit(ph) ==> fits_u32(ph.0@))
    }
}

impl Parent {
    pub open spec fn wf(self, n: int) -> bool {
        &&& fits_u32(self.public_key@)
        &&& fits_u32(self.parent_hash.0@)
        &&& leaf_set_ok(self.unmerged_leaves@, n)
    }
}

pub open spec fn node_ok(node: Option<Node>, i: int, n: int) -> bool {
    match node {
        None => true,
        Some(Node::Leaf(l)) => i % 2 == 0 && l.wf(),
        Some(Node::Parent(p)) => i % 2 == 1 && p.wf(n),
    }
}

/// The slot at `i`, blank outside the vector.
pub open spec fn node_at(nodes: Seq<Option<Node>>, i: int) -> Option<Node> {
    if 0 <= i < nodes.len() {
        nodes[i]
    } else {
        None
    }
}

/// The number of leaves of a tree of `len` nodes.
pub open spec fn leaf_count_of(len: int) -> int {
    (len + 1) / 2
}

pub open spec fn nodes_wf(nodes: Seq<Option<Node>>) -> bool {
    &&& nodes.len() % 2 == 1
    &&& nodes.len() < 0x8000_0000
    &&& is_pow2(leaf_count_of(nodes.len() as int))
    &&& forall|i: int|
        0 <= i < nodes.len() ==> #[trigger] node_ok(nodes[i], i, leaf_count_of(nodes.len() as int))
}

/// The subtree rooted at `x`, spanning `w` leaves, lies inside a vector of
/// `len` nodes: it covers the indices from `x + 1 - w` to `x + w - 1`.
pub open spec fn in_range(x: int, w: int, len: int) -> bool {
    &&& 1 <= w
    &&& w <= x + 1
    &&& x + w <= len
}

/// The left child of the node at `x` spanning `w` leaves.
pub open spec fn left_of(x: int, w: int) -> int {
    x - w / 2
}

pub open spec fn right_of(x: int, w: int) -> int {
    x + w / 2
}

/// Leaf `l` lies under the node at `x` spanning `w` leaves.
pub open spec fn in_subtree(l: LeafIndex, x: int, w: int) -> bool {
    x + 1 - w <= 2 * l.0 <= x + w - 1
}

/// Who a path secret for the subtree at `x` is encrypted to: a non-blank node
/// followed by its unmerged leaves, or, for a blank parent, the resolutions of
/// its children in order.
pub open spec fn resolution(nodes: Seq<Option<Node>>, x: int, w: int) -> Seq<u32>
    decreases w,
{
    match node_at(nodes, x) {
        Some(Node::Parent(p)) => seq![x as u32] + p.unmerged_leaves@.map_values(
            |l: LeafIndex| (2 * l.0) as u32,
        ),
        Some(Node::Leaf(_)) => seq![x as u32],
        None => if w <= 1 {
            Seq::empty()
        } else {
            resolution(nodes, left_of(x, w), w / 2) + resolution(nodes, right_of(x, w), w / 2)
        },
    }
}

/// The entries of `s` that are not in `excl`, in order.
pub open spec fn without(s: Seq<LeafIndex>, excl: Seq<LeafIndex>) -> Seq<LeafIndex>
    decreases s.len(),
{
    if s.len() == 0 {
        s
    } else {
        let r = without(s.drop_last(), excl);
        if excl.contains(s.last()) {
            r
        } else {
            r.push(s.last())
        }
    }
}

pub open spec fn enc_leaf_list(s: Seq<LeafIndex>) -> Seq<u8>
    decreases s.len(),
{
    if s.len() == 0 {
        Seq::empty()
    } else {
        enc_leaf_list(s.drop_last()) + enc_u32(s.last().0)
    }
}

pub open spec fn enc_source(s: LeafNodeSource) -> Seq<u8> {
    match s {
        LeafNodeSource::KeyPackage => seq![1u8],
        LeafNodeSource::Update => seq![2u8],
        LeafNodeSource::Commit(ph) => seq![3u8] + enc_bytes(ph.0@),
    }
}

pub open spec fn enc_leaf_node(l: LeafNode) -> Seq<u8> {
    enc_bytes(l.public_key@) + enc_bytes(l.signing_identity.signature_key@) + enc_bytes(
        l.signing_identity.credential@,
    ) + enc_source(l.leaf_node_source)
}

pub open spec fn enc_parent_fields(pk: Seq<u8>, ph: Seq<u8>, unmerged: Seq<LeafIndex>) -> Seq<
    u8,
> {
    enc_bytes(pk) + enc_bytes(ph) + enc_u32(unmerged.len() as u32) + enc_leaf_list(unmerged)
}

/// The tree-hash input of the leaf slot at `x`; a leaf in `excl` counts as blank.
pub open spec fn leaf_hash_input(x: int, node: Option<Node>, excl: Seq<LeafIndex>) -> Seq<u8> {
    seq![1u8] + enc_u32(x as u32) + match node {
        Some(Node::Leaf(l)) => if excl.contains(LeafIndex((x / 2) as u32)) {
            seq![0u8]
        } else {
            seq![1u8] + enc_leaf_node(l)
        },
        _ => seq![0u8],
    }
}

/// The tree-hash input of the parent slot at `x`, before its children's hashes;
/// the leaves in `excl` are left out of its unmerged leaves.
pub open spec fn parent_hash_input_of(x: int, node: Option<Node>, excl: Seq<LeafIndex>) -> Seq<u8> {
    seq![2u8] + enc_u32(x as u32) + match node {
        Some(Node::Parent(p)) => seq![1u8] + enc_parent_fields(
            p.public_key@,
            p.parent_hash.0@,
            without(p.unmerged_leaves@, excl),
        ),
        _ => seq![0u8],
    }
}

/// The tree hash of the subtree at `x` spanning `w` leaves, in the tree where
/// the leaves in `excl` are blank and left out of every unmerged set. With an
/// empty `excl` this is the plain tree hash.
pub open spec fn tree_hash_excl(
    h: crate::crypto::Hash,
    nodes: Seq<Option<Node>>,
    x: int,
    w: int,
    excl: Seq<LeafIndex>,
) -> Seq<u8>
    decreases w,
{
    if w <= 1 {
        h.spec_hash(leaf_hash_input(x, node_at(nodes, x), excl))
    } else {
        h.spec_hash(
            parent_hash_input_of(x, node_at(nodes, x), excl) + tree_hash_excl(
                h,
                nodes,
                left_of(x, w),
                w / 2,
                excl,
            ) + tree_hash_excl(h, nodes, right_of(x, w), w / 2, excl),
        )
    }
}

pub proof fn lemma_leaf_set_len(s: Seq<LeafIndex>, n: int)
    requires
        leaf_set_ok(s, n),
        0 <= n,
    ensures
        s.len() <= n,
    decreases s.len(),
{
    if s.len() > 0 {
        let t = s.drop_last();
        assert(s[s.len() - 1].0 < n);
        assert(leaf_set_ok(t, n));
        lemma_leaf_set_len(t, n);
        if t.len() > 0 {
            assert forall|i: int| 0 <= i < t.len() implies t[i].0 < s.last().0 by {
                assert(s[i].0 < s[s.len() - 1].0);
            }
            assert(leaf_set_ok(t, s.last().0 as int));
            lemma_leaf_set_len(t, s.last().0 as int);
        }
    }
}

pub fn leaf_list_contains(s: &[LeafIndex], l: LeafIndex) -> (r: bool)
    ensures
        r == s@.contains(l),
{
    let mut i: usize = 0;
    while i < s.len()
        invariant
            i <= s@.len(),
            forall|j: int| 0 <= j < i ==> s@[j] != l,
        decreases s@.len() - i,
    {
        if s[i].0 == l.0 {
            return true;
        }
        i = i + 1;
    }
    false
}

/// The entries of `s` that are not in `excl`.
pub fn leaves_without(s: &[LeafIndex], excl: &[LeafIndex]) -> (r: Vec<LeafIndex>)
    ensures
        r@ == without(s@, excl@),
{
    let mut r: Vec<LeafIndex> = Vec::new();
    let mut i: usize = 0;
    while i < s.len()
        invariant
            i <= s@.len(),
            r@ == without(s@.subrange(0, i as int), excl@),
        decreases s@.len() - i,
    {
        let l = s[i];
        assert(s@.subrange(0, i + 1).drop_last() =~= s@.subrange(0, i as int));
        if !leaf_list_contains(excl, l) {
            r.push(l);
        }
        i = i + 1;
    }
    assert(s@.subrange(0, s@.len() as int) =~= s@);
    r
}

pub proof fn lemma_without_len(s: Seq<LeafIndex>, excl: Seq<LeafIndex>)
    ensures
        without(s, excl).len() <= s.len(),
    decreases s.len(),
{
    if s.len() > 0 {
        lemma_without_len(s.drop_last(), excl);
    }
}

pub fn write_leaf_list(out: &mut Vec<u8>, s: &[LeafIndex])
    ensures
        final(out)@ == old(out)@ + enc_leaf_list(s@),
{
    let ghost start = out@;
    let mut i: usize = 0;
    while i < s.len()
        invariant
            i <= s@.len(),
            out@ == start + enc_leaf_list(s@.subrange(0, i as int)),
        decreases s@.len() - i,
    {
        write_u32(out, s[i].0);
        assert(s@.subrange(0, i + 1).drop_last() =~= s@.subrange(0, i as int));
        i = i + 1;
        assert(out@ =~= start + enc_leaf_list(s@.subrange(0, i as int)));
    }
    assert(s@.subrange(0, s@.len() as int) =~= s@);
}

pub fn write_source(out: &mut Vec<u8>, s: &LeafNodeSource)
    requires
        s matches LeafNodeSource::Commit(ph) ==> fits_u32(ph.0@),
    ensures
        final(out)@ == old(out)@ + enc_source(*s),
{
    match s {
        LeafNodeSource::KeyPackage => write_u8(out, 1),
        LeafNodeSource::Update => write_u8(out, 2),
        LeafNodeSource::Commit(ph) => {
            write_u8(out, 3);
            write_bytes(out, ph.0.as_slice());
        },
    }
    assert(final(out)@ =~= old(out)@ + enc_source(*s));
}

pub fn write_leaf_node(out: &mut Vec<u8>, l: &LeafNode)
    requires
        l.wf(),
    ensures
        final(out)@ == old(out)@ + enc_leaf_node(*l),
{
    write_bytes(out, l.public_key.as_slice());
    write_bytes(out, l.signing_identity.signature_key.as_slice());
    write_bytes(out, l.signing_identity.credential.as_slice());
    write_source(out, &l.leaf_node_source);
    assert(final(out)@ =~= old(out)@ + enc_leaf_node(*l));
}

pub fn write_parent_fields(out: &mut Vec<u8>, pk: &[u8], ph: &[u8], unmerged: &[LeafIndex])
    requires
        fits_u32(pk@),
        fits_u32(ph@),
        unmerged@.len() <= u32::MAX,
    ensures
        final(out)@ == old(out)@ + enc_parent_fields(pk@, ph@, unmerged@),
{
    write_bytes(out, pk);
    write_bytes(out, ph);
    write_u32(out, unmerged.len() as u32);
    write_leaf_list(out, unmerged);
    assert(final(out)@ =~= old(out)@ + enc_parent_fields(pk@, ph@, unmerged@));
}

impl TreeKemPublic {
    pub open spec fn wf(&self) -> bool {
        nodes_wf(self.nodes@)
    }

    pub open spec fn spec_leaf_count(&self) -> int {
        leaf_count_of(self.nodes@.len() as int)
    }

    /// The root's index and span.
    pub open spec fn root(&self) -> (int, int) {
        (self.spec_leaf_count() - 1, self.spec_leaf_count())
    }

    /// A tree of one blank leaf.
    pub fn new() -> (r: TreeKemPublic)
        ensures
            r.wf(),
            r.nodes@ == seq![None::<Node>],
    {
        let mut nodes: Vec<Option<Node>> = Vec::new();
        nodes.push(None);
        let r = TreeKemPublic { nodes };
        assert(r.nodes@ =~= seq![None::<Node>]);
        assert(is_pow2(1));
        r
    }

    /// The number of leaf slots, blank ones included.
    pub fn total_leaf_count(&self) -> (r: u32)
        requires
            self.wf(),
        ensures
            r == self.spec_leaf_count(),
    {
        ((self.nodes.len() + 1) / 2) as u32
    }

    /// The resolution of the subtree at `x` spanning `w` leaves.
    pub fn resolution_of(&self, x: u32, w: u32) -> (r: Vec<u32>)
        requires
            self.wf(),
            in_range(x as int, w as int, self.nodes@.len() as int),
        ensures
            r@ == resolution(self.nodes@, x as int, w as int),
        decreases w,
    {
        match &self.nodes[x as usize] {
            Some(Node::Parent(p)) => {
                let mut r: Vec<u32> = Vec::new();
                r.push(x);
                let ghost n = self.spec_leaf_count();
                assert(node_ok(self.nodes@[x as int], x as int, n));
                let mut i: usize = 0;
                while i < p.unmerged_leaves.len()
                    invariant
                        i <= p.unmerged_leaves@.len(),
                        leaf_set_ok(p.unmerged_leaves@, n),
                        n <= 0x4000_0000,
                        r@ == seq![x] + p.unmerged_leaves@.subrange(0, i as int).map_values(
                            |l: LeafIndex| (2 * l.0) as u32,
                        ),
                    decreases p.unmerged_leaves@.len() - i,
                {
                    let l = p.unmerged_leaves[i];
                    assert(l.0 < n);
                    r.push(2 * l.0);
                    i = i + 1;
                    assert(r@ =~= seq![x] + p.unmerged_leaves@.subrange(0, i as int).map_values(
                        |l: LeafIndex| (2 * l.0) as u32,
                    ));
                }
                assert(p.unmerged_leaves@.subrange(0, i as int) =~= p.unmerged_leaves@);
                r
            },
            Some(Node::Leaf(_)) => {
                let mut r: Vec<u32> = Vec::new();
                r.push(x);
                assert(r@ =~= seq![x]);
                r
            },
            None => {
                if w <= 1 {
                    let r: Vec<u32> = Vec::new();
                    assert(r@ =~= Seq::<u32>::empty());
                    r
                } else {
                    let mut a = self.resolution_of(x - w / 2, w / 2);
                    let mut b = self.resolution_of(x + w / 2, w / 2);
                    a.append(&mut b);
                    a
                }
            },
        }
    }

    /// The tree hash of the subtree at `x` spanning `w` leaves, with the leaves
    /// in `excl` treated as blank.
    pub fn tree_hash_at(&self, h: &crate::crypto::Hash, x: u32, w: u32, excl: &[LeafIndex]) -> (r: Vec<u8>)
        requires
            self.wf(),
            in_range(x as int, w as int, self.nodes@.len() as int),
        ensures
            r@ == tree_hash_excl(*h, self.nodes@, x as int, w as int, excl@),
            r@.len() == h.spec_size(),
        decreases w,
    {
        let ghost n = self.spec_leaf_count();
        assert(node_ok(self.nodes@[x as int], x as int, n));
        let mut input: Vec<u8> = Vec::new();
        if w <= 1 {
            write_u8(&mut input, 1);
            write_u32(&mut input, x);
            match &self.nodes[x as usize] {
                Some(Node::Leaf(l)) => {
                    if leaf_list_contains(excl, LeafIndex(x / 2)) {
                        write_u8(&mut input, 0);
                    } else {
                        write_u8(&mut input, 1);
                        write_leaf_node(&mut input, l);
                    }
                },
                _ => write_u8(&mut input, 0),
            }
            assert(input@ =~= leaf_hash_input(x as int, node_at(self.nodes@, x as int), excl@));
            h.hash(input.as_slice())
        } else {
            write_u8(&mut input, 2);
            write_u32(&mut input, x);
            match &self.nodes[x as usize] {
                Some(Node::Parent(p)) => {
                    write_u8(&mut input, 1);
                    let kept = leaves_without(p.unmerged_leaves.as_slice(), excl);
                    proof {
                        lemma_without_len(p.unmerged_leaves@, excl@);
                        lemma_leaf_set_len(p.unmerged_leaves@, n);
                    }
                    write_parent_fields(
                        &mut input,
                        p.public_key.as_slice(),
                        p.parent_hash.0.as_slice(),
                        kept.as_slice(),
                    );
                },
                _ => write_u8(&mut input, 0),
            }
            assert(input@ =~= parent_hash_input_of(
                x as int,
                node_at(self.nodes@, x as int),
                excl@,
            ));
            let lh = self.tree_hash_at(h, x - w / 2, w / 2, excl);
            let rh = self.tree_hash_at(h, x + w / 2, w / 2, excl);
            write_raw(&mut input, lh.as_slice());
            write_raw(&mut input, rh.as_slice());
            h.hash(input.as_slice())
        }
    }

    /// The tree hash of the whole tree.
    pub fn tree_hash(&self, h: &crate::crypto::Hash) -> (r: Vec<u8>)
        requires
            self.wf(),
        ensures
            r@ == tree_hash_excl(*h, self.nodes@, self.root().0, self.root().1, Seq::empty()),
            r@.len() == h.spec_size(),
    {
        let n = self.total_leaf_count();
        let excl: Vec<LeafIndex> = Vec::new();
        assert(excl@ =~= Seq::<LeafIndex>::empty());
        self.tree_hash_at(h, n - 1, n, excl.as_slice())
    }
}

} // verus!
