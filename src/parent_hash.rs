//! Parent hashes: computing the chain from the root down to a committing leaf,
//! and checking that every non-blank parent is covered by exactly one chain.
use vstd::prelude::*;
use crate::codec::{bytes_eq, copy_bytes, enc_bytes, write_bytes};
use crate::tree_kem::{
    fits_u32, in_range, in_subtree, is_pow2, node_at, resolution, tree_hash_excl, LeafIndex, LeafNode,
    LeafNodeSource, Node, ParentHash, RatchetTreeError, TreeKemPublic, ValidatedUpdatePath,
};

verus! {

/// Failure to compute a parent hash.
#[derive(Debug)]
pub enum ParentHashError {
    /// An input was too long for its length prefix.
    SerializationError,
}

/// The parent hash of a node with key `public_key` whose own parent hash is
/// `parent_hash`, for a child whose sibling had original tree hash `sibling`.
pub open spec fn parent_hash_value(
    h: crate::crypto::Hash,
    public_key: Seq<u8>,
    parent_hash: Seq<u8>,
    sibling: Seq<u8>,
) -> Seq<u8> {
    h.spec_hash(enc_bytes(public_key) + enc_bytes(parent_hash) + enc_bytes(sibling))
}

pub fn parent_hash_bytes(
    h: &crate::crypto::Hash,
    public_key: &[u8],
    parent_hash: &[u8],
    sibling: &[u8],
) -> (r: Vec<u8>)
    requires
        fits_u32(public_key@),
        fits_u32(parent_hash@),
        fits_u32(sibling@),
    ensures
        r@ == parent_hash_value(*h, public_key@, parent_hash@, sibling@),
        r@.len() == h.spec_size(),
{
    let mut input: Vec<u8> = Vec::new();
    write_bytes(&mut input, public_key);
    write_bytes(&mut input, parent_hash);
    write_bytes(&mut input, sibling);
    assert(input@ =~= enc_bytes(public_key@) + enc_bytes(parent_hash@) + enc_bytes(sibling@));
    h.hash(input.as_slice())
}

impl ParentHash {
    /// The parent hash over `public_key`, the parent's own `parent_hash` and the
    /// original tree hash of the sibling subtree.
    pub fn new(
        h: &crate::crypto::Hash,
        public_key: &[u8],
        parent_hash: &ParentHash,
        original_sibling_tree_hash: &[u8],
    ) -> (r: Result<ParentHash, ParentHashError>)
        ensures
            match r {
                Ok(v) => v.0@ == parent_hash_value(
                    *h,
                    public_key@,
                    parent_hash.0@,
                    original_sibling_tree_hash@,
                ),
                Err(_) => !(fits_u32(public_key@) && fits_u32(parent_hash.0@) && fits_u32(
                    original_sibling_tree_hash@,
                )),
            },
    {
        if public_key.len() > u32::MAX as usize || parent_hash.0.len() > u32::MAX as usize
            || original_sibling_tree_hash.len() > u32::MAX as usize {
            return Err(ParentHashError::SerializationError);
        }
        Ok(
            ParentHash(
                parent_hash_bytes(
                    h,
                    public_key,
                    parent_hash.0.as_slice(),
                    original_sibling_tree_hash,
                ),
            ),
        )
    }

    /// The parent hash of a root: the empty string.
    pub fn empty() -> (r: ParentHash)
        ensures
            r.0@.len() == 0,
    {
        ParentHash(Vec::new())
    }

    /// Whether two parent hashes are equal, compared in constant time.
    pub fn matches(&self, hash: &ParentHash) -> (r: bool)
        ensures
            r == (self.0@ == hash.0@),
    {
        bytes_eq(self.0.as_slice(), hash.0.as_slice())
    }
}

/// The ancestors of the node `t` met on the way down from the node at `x`
/// spanning `w` leaves, root first: each with the child that is not on the
/// way (its co-path child) and its own span.
pub open spec fn descent(x: int, w: int, t: int) -> Seq<(u32, u32, u32)>
    decreases w,
{
    if w <= 1 {
        Seq::empty()
    } else if t < x {
        seq![(x as u32, (x + w / 2) as u32, w as u32)] + descent(x - w / 2, w / 2, t)
    } else {
        seq![(x as u32, (x - w / 2) as u32, w as u32)] + descent(x + w / 2, w / 2, t)
    }
}

/// The entries of a path whose co-path child has a non-empty resolution.
pub open spec fn filter_path(nodes: Seq<Option<Node>>, p: Seq<(u32, u32, u32)>) -> Seq<
    (u32, u32, u32),
>
    decreases p.len(),
{
    if p.len() == 0 {
        p
    } else {
        let r = filter_path(nodes, p.drop_last());
        let e = p.last();
        if resolution(nodes, e.1 as int, (e.2 / 2) as int).len() > 0 {
            r.push(e)
        } else {
            r
        }
    }
}

/// The parent hash that the next node down a path receives, after walking the
/// path `p` from the root; `None` if a node on it is not a parent.
pub open spec fn chain_value(
    h: crate::crypto::Hash,
    nodes: Seq<Option<Node>>,
    p: Seq<(u32, u32, u32)>,
) -> Option<Seq<u8>>
    decreases p.len(),
{
    if p.len() == 0 {
        Some(Seq::empty())
    } else {
        match chain_value(h, nodes, p.drop_last()) {
            None => None,
            Some(last) => {
                let e = p.last();
                match node_at(nodes, e.0 as int) {
                    Some(Node::Parent(q)) => Some(
                        parent_hash_value(
                            h,
                            q.public_key@,
                            last,
                            tree_hash_excl(h, nodes, e.1 as int, (e.2 / 2) as int, q.unmerged_leaves@),
                        ),
                    ),
                    _ => None,
                }
            },
        }
    }
}

/// The filtered direct path of `leaf`, root first.
pub open spec fn filtered_path_of(t: &TreeKemPublic, leaf: LeafIndex) -> Seq<(u32, u32, u32)> {
    filter_path(t.nodes@, descent(t.root().0, t.root().1, 2 * leaf.0))
}

/// The new parent hash of every node on the filtered direct path of `leaf`:
/// the chain value before that node.
pub open spec fn chain_changes(
    h: crate::crypto::Hash,
    nodes: Seq<Option<Node>>,
    p: Seq<(u32, u32, u32)>,
) -> Seq<(u32, Seq<u8>)> {
    Seq::new(p.len(), |k: int| (p[k].0, chain_value(h, nodes, p.take(k))->Some_0))
}

/// The value assigned to node `i` by the last entry of `changes` that names it.
pub open spec fn change_for(changes: Seq<(u32, Seq<u8>)>, i: int) -> Option<Seq<u8>>
    decreases changes.len(),
{
    if changes.len() == 0 {
        None
    } else if changes.last().0 == i {
        Some(changes.last().1)
    } else {
        change_for(changes.drop_last(), i)
    }
}

/// `new` is `old` with its parent hash set to `v`, if `old` is a parent.
pub open spec fn with_parent_hash(old: Option<Node>, new: Option<Node>, v: Seq<u8>) -> bool {
    match old {
        Some(Node::Parent(p)) => match new {
            Some(Node::Parent(q)) => q.public_key == p.public_key && q.unmerged_leaves
                == p.unmerged_leaves && q.parent_hash.0@ == v,
            _ => false,
        },
        _ => new == old,
    }
}

pub open spec fn changed(old: Option<Node>, new: Option<Node>, c: Option<Seq<u8>>) -> bool {
    match c {
        None => new == old,
        Some(v) => with_parent_hash(old, new, v),
    }
}

/// What the parent-hash computation for `leaf` gives: the leaf's own parent
/// hash and the new parent hash of each node on its filtered direct path.
pub open spec fn leaf_chain(t: &TreeKemPublic, h: crate::crypto::Hash, leaf: LeafIndex) -> Option<
    (Seq<u8>, Seq<(u32, Seq<u8>)>),
> {
    if t.spec_leaf_count() <= 1 {
        Some((Seq::empty(), Seq::empty()))
    } else {
        let p = filtered_path_of(t, leaf);
        match chain_value(h, t.nodes@, p) {
            Some(v) => Some((v, chain_changes(h, t.nodes@, p))),
            None => None,
        }
    }
}

/// The parent hash recorded in a node: a parent's field, or a committed
/// leaf's source.
pub open spec fn stored_parent_hash(node: Option<Node>) -> Option<Seq<u8>> {
    match node {
        Some(Node::Parent(p)) => Some(p.parent_hash.0@),
        Some(Node::Leaf(l)) => match l.leaf_node_source {
            LeafNodeSource::Commit(ph) => Some(ph.0@),
            _ => None,
        },
        None => None,
    }
}

} // verus!

verus! {

pub proof fn lemma_descent_in_range(x: int, w: int, t: int, len: int)
    requires
        in_range(x, w, len),
        len < 0x8000_0000,
    ensures
        forall|k: int|
            0 <= k < descent(x, w, t).len() ==> {
                let e = #[trigger] descent(x, w, t)[k];
                &&& e.2 >= 2
                &&& in_range(e.0 as int, e.2 as int, len)
                &&& in_range(e.1 as int, (e.2 / 2) as int, len)
                &&& (e.1 == e.0 + e.2 / 2 || e.1 == e.0 - e.2 / 2)
            },
    decreases w,
{
    if w > 1 {
        if t < x {
            lemma_descent_in_range(x - w / 2, w / 2, t, len);
        } else {
            lemma_descent_in_range(x + w / 2, w / 2, t, len);
        }
        let d = descent(x, w, t);
        assert forall|k: int| 0 <= k < d.len() implies {
            let e = #[trigger] d[k];
            &&& e.2 >= 2
            &&& in_range(e.0 as int, e.2 as int, len)
            &&& in_range(e.1 as int, (e.2 / 2) as int, len)
            &&& (e.1 == e.0 + e.2 / 2 || e.1 == e.0 - e.2 / 2)
        } by {
            if k > 0 {
                if t < x {
                    assert(d[k] == descent(x - w / 2, w / 2, t)[k - 1]);
                } else {
                    assert(d[k] == descent(x + w / 2, w / 2, t)[k - 1]);
                }
            }
        }
    }
}

pub proof fn lemma_chain_none(
    h: crate::crypto::Hash,
    nodes: Seq<Option<Node>>,
    p: Seq<(u32, u32, u32)>,
    k: int,
)
    requires
        0 <= k <= p.len(),
        chain_value(h, nodes, p.take(k)) is None,
    ensures
        chain_value(h, nodes, p) is None,
    decreases p.len() - k,
{
    if k == p.len() {
        assert(p.take(k) =~= p);
    } else {
        assert(p.take(k + 1).drop_last() =~= p.take(k));
        lemma_chain_none(h, nodes, p, k + 1);
    }
}

pub proof fn lemma_filter_sub(nodes: Seq<Option<Node>>, p: Seq<(u32, u32, u32)>)
    ensures
        forall|k: int|
            0 <= k < filter_path(nodes, p).len() ==> p.contains(#[trigger] filter_path(nodes, p)[k]),
    decreases p.len(),
{
    if p.len() > 0 {
        lemma_filter_sub(nodes, p.drop_last());
        let f = filter_path(nodes, p);
        let g = filter_path(nodes, p.drop_last());
        assert forall|k: int| 0 <= k < f.len() implies p.contains(#[trigger] f[k]) by {
            if k < g.len() {
                assert(f[k] == g[k]);
                let j = choose|j: int| 0 <= j < p.drop_last().len() && p.drop_last()[j] == g[k];
                assert(p[j] == f[k]);
            } else {
                assert(f[k] == p[p.len() - 1]);
            }
        }
    }
}

impl TreeKemPublic {
    /// The direct path of `leaf` with its co-path, root first: each ancestor
    /// with its child off the path and its span.
    pub fn direct_path_co_path(&self, leaf: LeafIndex) -> (r: Vec<(u32, u32, u32)>)
        requires
            self.wf(),
            leaf.0 < self.spec_leaf_count(),
        ensures
            r@ == descent(self.root().0, self.root().1, 2 * leaf.0),
    {
        let n = self.total_leaf_count();
        let t = 2 * leaf.0;
        let mut x = n - 1;
        let mut w = n;
        let mut r: Vec<(u32, u32, u32)> = Vec::new();
        assert(r@ + descent(x as int, w as int, t as int) =~= descent(
            self.root().0,
            self.root().1,
            2 * leaf.0,
        ));
        while w > 1
            invariant
                in_range(x as int, w as int, self.nodes@.len() as int),
                self.nodes@.len() < 0x8000_0000,
                r@ + descent(x as int, w as int, t as int) == descent(
                    self.root().0,
                    self.root().1,
                    2 * leaf.0,
                ),
            decreases w,
        {
            let half = w / 2;
            let ghost before = r@;
            let ghost ox = x as int;
            let ghost ow = w as int;
            if t < x {
                r.push((x, x + half, w));
                x = x - half;
            } else {
                r.push((x, x - half, w));
                x = x + half;
            }
            w = half;
            assert(descent(ox, ow, t as int) =~= seq![r@.last()] + descent(x as int, w as int, t as int));
            assert(r@ =~= before.push(r@.last()));
            assert(r@ + descent(x as int, w as int, t as int) =~= before + descent(ox, ow, t as int));
        }
        assert(r@ =~= r@ + descent(x as int, w as int, t as int));
        r
    }
}


impl TreeKemPublic {
    /// The direct path of `leaf` without the ancestors whose co-path child has
    /// an empty resolution, root first.
    pub fn filtered_direct_path_co_path(&self, leaf: LeafIndex) -> (r: Vec<(u32, u32, u32)>)
        requires
            self.wf(),
            leaf.0 < self.spec_leaf_count(),
        ensures
            r@ == filtered_path_of(self, leaf),
            forall|k: int|
                0 <= k < r@.len() ==> {
                    let e = #[trigger] r@[k];
                    &&& e.2 >= 2
                    &&& in_range(e.0 as int, e.2 as int, self.nodes@.len() as int)
                    &&& in_range(e.1 as int, (e.2 / 2) as int, self.nodes@.len() as int)
                },
    {
        let path = self.direct_path_co_path(leaf);
        proof {
            lemma_descent_in_range(
                self.root().0,
                self.root().1,
                2 * leaf.0,
                self.nodes@.len() as int,
            );
        }
        let mut r: Vec<(u32, u32, u32)> = Vec::new();
        let mut i: usize = 0;
        while i < path.len()
            invariant
                self.wf(),
                i <= path@.len(),
                path@ == descent(self.root().0, self.root().1, 2 * leaf.0),
                r@ == filter_path(self.nodes@, path@.take(i as int)),
                forall|k: int|
                    0 <= k < path@.len() ==> {
                        let e = #[trigger] path@[k];
                        &&& e.2 >= 2
                        &&& in_range(e.0 as int, e.2 as int, self.nodes@.len() as int)
                        &&& in_range(e.1 as int, (e.2 / 2) as int, self.nodes@.len() as int)
                    },
                forall|k: int|
                    0 <= k < r@.len() ==> {
                        let e = #[trigger] r@[k];
                        &&& e.2 >= 2
                        &&& in_range(e.0 as int, e.2 as int, self.nodes@.len() as int)
                        &&& in_range(e.1 as int, (e.2 / 2) as int, self.nodes@.len() as int)
                    },
            decreases path@.len() - i,
        {
            let e = path[i];
            let res = self.resolution_of(e.1, e.2 / 2);
            assert(path@.take(i + 1).drop_last() =~= path@.take(i as int));
            if res.len() > 0 {
                r.push(e);
            }
            i = i + 1;
        }
        assert(path@.take(path@.len() as int) =~= path@);
        r
    }

    /// The parent hash that `leaf` gets from its filtered direct path, with the
    /// parent hash that each node on that path gets, computed from the root
    /// down.
    pub fn parent_hash_for_leaf(&self, h: &crate::crypto::Hash, leaf: LeafIndex) -> (r: Result<
        (ParentHash, Vec<(u32, ParentHash)>),
        RatchetTreeError,
    >)
        requires
            self.wf(),
            leaf.0 < self.spec_leaf_count(),
        ensures
            match leaf_chain(self, *h, leaf) {
                None => r is Err,
                Some((v, ch)) => r is Ok && r->Ok_0.0.0@ == v && r->Ok_0.1@.map_values(
                    |e: (u32, ParentHash)| (e.0, e.1.0@),
                ) == ch,
            },
            r is Ok ==> r->Ok_0.0.0@.len() <= 64 && forall|k: int|
                0 <= k < r->Ok_0.1@.len() ==> (#[trigger] r->Ok_0.1@[k]).1.0@.len() <= 64,
    {
        let mut changes: Vec<(u32, ParentHash)> = Vec::new();
        if self.total_leaf_count() <= 1 {
            assert(changes@.map_values(|e: (u32, ParentHash)| (e.0, e.1.0@)) =~= Seq::<
                (u32, Seq<u8>),
            >::empty());
            return Ok((ParentHash::empty(), changes));
        }
        let path = self.filtered_direct_path_co_path(leaf);
        let mut last: Vec<u8> = Vec::new();
        let mut k: usize = 0;
        assert(path@.take(0) =~= Seq::<(u32, u32, u32)>::empty());
        while k < path.len()
            invariant
                self.wf(),
                self.spec_leaf_count() > 1,
                k <= path@.len(),
                path@ == filtered_path_of(self, leaf),
                forall|j: int|
                    0 <= j < path@.len() ==> {
                        let e = #[trigger] path@[j];
                        &&& e.2 >= 2
                        &&& in_range(e.0 as int, e.2 as int, self.nodes@.len() as int)
                        &&& in_range(e.1 as int, (e.2 / 2) as int, self.nodes@.len() as int)
                    },
                chain_value(*h, self.nodes@, path@.take(k as int)) == Some(last@),
                last@.len() <= 64,
                changes@.map_values(|e: (u32, ParentHash)| (e.0, e.1.0@)) == chain_changes(
                    *h,
                    self.nodes@,
                    path@.take(k as int),
                ),
                forall|j: int| 0 <= j < changes@.len() ==> (#[trigger] changes@[j]).1.0@.len() <= 64,
            decreases path@.len() - k,
        {
            let e = path[k];
            let ghost pre = path@.take(k as int);
            assert(path@.take(k + 1).drop_last() =~= pre);
            match &self.nodes[e.0 as usize] {
                Some(Node::Parent(q)) => {
                    assert(crate::tree_kem::node_ok(
                        self.nodes@[e.0 as int],
                        e.0 as int,
                        self.spec_leaf_count(),
                    ));
                    let sibling = self.tree_hash_at(h, e.1, e.2 / 2, q.unmerged_leaves.as_slice());
                    let next = parent_hash_bytes(
                        h,
                        q.public_key.as_slice(),
                        last.as_slice(),
                        sibling.as_slice(),
                    );
                    let ghost old_changes = changes@;
                    let ghost old_last = last@;
                    changes.push((e.0, ParentHash(last)));
                    last = next;
                    k = k + 1;
                    proof {
                        let m = changes@.map_values(|e: (u32, ParentHash)| (e.0, e.1.0@));
                        let om = old_changes.map_values(|e: (u32, ParentHash)| (e.0, e.1.0@));
                        let c = chain_changes(*h, self.nodes@, path@.take(k as int));
                        let oc = chain_changes(*h, self.nodes@, pre);
                        assert(om == oc);
                        assert(oc.len() == k - 1);
                        assert(changes@.len() == k);
                        assert(m.len() == k);
                        assert(c.len() == k);
                        assert forall|j: int| 0 <= j < k implies m[j] == c[j] by {
                            assert(path@.take(k as int).take(j) =~= path@.take(j));
                            if j < k - 1 {
                                assert(pre.take(j) =~= path@.take(j));
                                assert(changes@[j] == old_changes[j]);
                                assert(m[j] == om[j]);
                                assert(om[j] == oc[j]);
                            } else {
                                assert(path@.take(j) =~= pre);
                            }
                        }
                        assert(m =~= c);
                        assert(chain_value(*h, self.nodes@, path@.take(k as int)) == Some(last@));
                    }
                },
                _ => {
                    proof {
                        lemma_chain_none(*h, self.nodes@, path@, k + 1);
                    }
                    return Err(RatchetTreeError::ExpectedParent(e.0));
                },
            }
        }
        assert(path@.take(path@.len() as int) =~= path@);
        Ok((ParentHash(last), changes))
    }
}


pub open spec fn source_check(v: Seq<u8>, update_path: Option<&ValidatedUpdatePath>) -> Option<bool> {
    match update_path {
        None => None,
        Some(up) => match up.leaf_node.leaf_node_source {
            LeafNodeSource::Commit(ph) => Some(ph.0@ == v),
            _ => Some(false),
        },
    }
}

impl TreeKemPublic {
    /// Sets the parent hash of every node on the filtered direct path of
    /// `leaf`, and gives the parent hash that `leaf` itself should carry. With
    /// an update path, its leaf must carry exactly that value; otherwise
    /// nothing changes.
    pub fn update_parent_hashes(
        &mut self,
        h: &crate::crypto::Hash,
        leaf: LeafIndex,
        update_path: Option<&ValidatedUpdatePath>,
    ) -> (r: Result<ParentHash, RatchetTreeError>)
        requires
            old(self).wf(),
            leaf.0 < old(self).spec_leaf_count(),
        ensures
            final(self).wf(),
            final(self).nodes@.len() == old(self).nodes@.len(),
            r is Err ==> final(self).nodes@ == old(self).nodes@,
            leaf_chain(old(self), *h, leaf) is None ==> r is Err,
            leaf_chain(old(self), *h, leaf) is Some ==> match source_check(
                leaf_chain(old(self), *h, leaf)->Some_0.0,
                update_path,
            ) {
                None => r is Ok,
                Some(true) => r is Ok,
                Some(false) => if update_path->Some_0.leaf_node.leaf_node_source is Commit {
                    r matches Err(RatchetTreeError::ParentHashMismatch)
                } else {
                    r matches Err(RatchetTreeError::ParentHashNotFound)
                },
            },
            r is Ok ==> leaf_chain(old(self), *h, leaf) is Some && r->Ok_0.0@ == leaf_chain(
                old(self),
                *h,
                leaf,
            )->Some_0.0 && forall|i: int|
                0 <= i < old(self).nodes@.len() ==> changed(
                    old(self).nodes@[i],
                    #[trigger] final(self).nodes@[i],
                    change_for(leaf_chain(old(self), *h, leaf)->Some_0.1, i),
                ),
    {
        let (leaf_hash, changes) = match self.parent_hash_for_leaf(h, leaf) {
            Ok(v) => v,
            Err(e) => {
                return Err(e);
            },
        };
        match update_path {
            Some(up) => match &up.leaf_node.leaf_node_source {
                LeafNodeSource::Commit(ph) => {
                    if !leaf_hash.matches(ph) {
                        return Err(RatchetTreeError::ParentHashMismatch);
                    }
                },
                _ => {
                    return Err(RatchetTreeError::ParentHashNotFound);
                },
            },
            None => {},
        }
        let ghost ch = changes@.map_values(|e: (u32, ParentHash)| (e.0, e.1.0@));
        let ghost old_nodes = self.nodes@;
        let ghost n = self.spec_leaf_count();
        let mut k: usize = 0;
        while k < changes.len()
            invariant
                k <= changes@.len(),
                ch == changes@.map_values(|e: (u32, ParentHash)| (e.0, e.1.0@)),
                forall|j: int| 0 <= j < changes@.len() ==> (#[trigger] changes@[j]).1.0@.len() <= 64,
                self.nodes@.len() == old_nodes.len(),
                n == self.spec_leaf_count(),
                self.wf(),
                forall|i: int|
                    0 <= i < old_nodes.len() ==> changed(
                        old_nodes[i],
                        #[trigger] self.nodes@[i],
                        change_for(ch.take(k as int), i),
                    ),
            decreases changes@.len() - k,
        {
            let d = changes[k].0;
            let v = copy_bytes(changes[k].1.0.as_slice());
            let ghost before = self.nodes@;
            if (d as usize) < self.nodes.len() {
                match &mut self.nodes[d as usize] {
                    Some(Node::Parent(p)) => {
                        p.parent_hash = ParentHash(v);
                    },
                    _ => {},
                }
            }
            proof {
                assert(ch.take(k + 1).drop_last() =~= ch.take(k as int));
                assert(ch.take(k + 1).last() == ch[k as int]);
                assert forall|i: int| 0 <= i < old_nodes.len() implies changed(
                    old_nodes[i],
                    #[trigger] self.nodes@[i],
                    change_for(ch.take(k + 1), i),
                ) by {
                    if i != d {
                        assert(self.nodes@[i] == before[i]);
                    }
                }
                assert forall|i: int| 0 <= i < self.nodes@.len() implies #[trigger]
                    crate::tree_kem::node_ok(self.nodes@[i], i, n) by {
                    assert(crate::tree_kem::node_ok(before[i], i, n));
                }
            }
            k = k + 1;
        }
        assert(ch.take(changes@.len() as int) =~= ch);
        Ok(leaf_hash)
    }
}


/// The position in the path `p`, below `k`, of the lowest non-blank ancestor;
/// -1 if every one of them is blank.
pub open spec fn first_nonblank(nodes: Seq<Option<Node>>, p: Seq<(u32, u32, u32)>, k: int) -> int
    decreases k,
{
    if k <= 0 {
        -1
    } else if node_at(nodes, p[k - 1].0 as int) is Some {
        k - 1
    } else {
        first_nonblank(nodes, p, k - 1)
    }
}

/// The child of a path entry's node that lies on the path.
pub open spec fn path_child(e: (u32, u32, u32)) -> int {
    if e.1 > e.0 {
        e.0 - e.2 / 2
    } else {
        e.0 + e.2 / 2
    }
}

/// The unmerged leaves in `s` that lie under the node at `c` spanning `wc`
/// leaves, as node indices.
pub open spec fn doubled_in(s: Seq<LeafIndex>, c: int, wc: int) -> Seq<u32>
    decreases s.len(),
{
    if s.len() == 0 {
        Seq::empty()
    } else {
        let r = doubled_in(s.drop_last(), c, wc);
        if in_subtree(s.last(), c, wc) {
            r.push((2 * s.last().0) as u32)
        } else {
            r
        }
    }
}

/// One chain of the validation: from node `n`, whose remaining ancestors are
/// the first `k` entries of `p`, find the first non-blank ancestor; if `n`
/// carries its parent hash, that ancestor must still be unmarked and its
/// unmerged leaves must account for the rest of the resolution on `n`'s side.
/// Gives the set of parents still unmarked, or `None` on a mismatch.
pub open spec fn walk(
    h: crate::crypto::Hash,
    nodes: Seq<Option<Node>>,
    p: Seq<(u32, u32, u32)>,
    k: int,
    n: u32,
    marked: Set<u32>,
) -> Option<Set<u32>>
    decreases k,
{
    let j = first_nonblank(nodes, p, k);
    if j < 0 || j >= k {
        Some(marked)
    } else {
        let e = p[j];
        match node_at(nodes, e.0 as int) {
            Some(Node::Parent(q)) => {
                let expected = parent_hash_value(
                    h,
                    q.public_key@,
                    q.parent_hash.0@,
                    tree_hash_excl(h, nodes, e.1 as int, (e.2 / 2) as int, q.unmerged_leaves@),
                );
                if stored_parent_hash(node_at(nodes, n as int)) == Some(expected) {
                    let c = path_child(e);
                    let wc = (e.2 / 2) as int;
                    let res = resolution(nodes, c, wc);
                    if res.contains(n) && res.to_set().remove(n) == doubled_in(
                        q.unmerged_leaves@,
                        c,
                        wc,
                    ).to_set() && marked.contains(e.0) {
                        walk(h, nodes, p, j, e.0, marked.remove(e.0))
                    } else {
                        None
                    }
                } else {
                    Some(marked)
                }
            },
            _ => None,
        }
    }
}

/// The chains of the first `m` leaves, in order, starting from `marked`.
pub open spec fn leaves_walk(
    h: crate::crypto::Hash,
    t: &TreeKemPublic,
    m: int,
    marked: Set<u32>,
) -> Option<Set<u32>>
    decreases m,
{
    if m <= 0 {
        Some(marked)
    } else {
        match leaves_walk(h, t, m - 1, marked) {
            None => None,
            Some(mk) => if node_at(t.nodes@, 2 * (m - 1)) is Some {
                chain_walk(t, h, (m - 1) as u32, mk)
            } else {
                Some(mk)
            },
        }
    }
}

/// The non-blank parent slots.
pub open spec fn nonblank_parents(nodes: Seq<Option<Node>>) -> Set<u32> {
    Set::new(|i: u32| i < nodes.len() && i % 2 == 1 && nodes[i as int] is Some)
}

/// The tree's parent hashes are valid: every chain checks out and every
/// non-blank parent is covered by exactly one of them.
pub open spec fn parent_hashes_valid(t: &TreeKemPublic, h: crate::crypto::Hash) -> bool {
    match leaves_walk(h, t, t.spec_leaf_count(), nonblank_parents(t.nodes@)) {
        Some(s) => s == Set::<u32>::empty(),
        None => false,
    }
}

/// Whether the entries of `res` other than `n` are exactly those of `u`.
pub fn same_set_without(res: &[u32], n: u32, u: &[u32]) -> (r: bool)
    ensures
        r == (res@.to_set().remove(n) == u@.to_set()),
{
    let mut i: usize = 0;
    while i < res.len()
        invariant
            i <= res@.len(),
            forall|a: int| 0 <= a < i ==> res@[a] != n ==> u@.contains(#[trigger] res@[a]),
        decreases res@.len() - i,
    {
        let x = res[i];
        if x != n && !u32_slice_contains(u, x) {
            assert(res@.to_set().remove(n).contains(x));
            assert(!u@.to_set().contains(x));
            return false;
        }
        i = i + 1;
    }
    let mut j: usize = 0;
    while j < u.len()
        invariant
            j <= u@.len(),
            forall|b: int| 0 <= b < j ==> (#[trigger] u@[b]) != n && res@.contains(u@[b]),
        decreases u@.len() - j,
    {
        let y = u[j];
        if y == n || !u32_slice_contains(res, y) {
            assert(u@.to_set().contains(y));
            assert(!res@.to_set().remove(n).contains(y));
            return false;
        }
        j = j + 1;
    }
    assert forall|x: u32| res@.to_set().remove(n).contains(x) implies u@.to_set().contains(x) by {
        let a = choose|a: int| 0 <= a < res@.len() && res@[a] == x;
    }
    assert forall|x: u32| u@.to_set().contains(x) implies res@.to_set().remove(n).contains(x) by {
        let b = choose|b: int| 0 <= b < u@.len() && u@[b] == x;
    }
    assert(res@.to_set().remove(n) =~= u@.to_set());
    true
}

pub fn u32_slice_contains(s: &[u32], x: u32) -> (r: bool)
    ensures
        r == s@.contains(x),
{
    let mut i: usize = 0;
    while i < s.len()
        invariant
            i <= s@.len(),
            forall|j: int| 0 <= j < i ==> s@[j] != x,
        decreases s@.len() - i,
    {
        if s[i] == x {
            return true;
        }
        i = i + 1;
    }
    false
}

/// The leaves of `s` under the node at `c` spanning `wc` leaves, doubled.
pub fn doubled_in_subtree(s: &[LeafIndex], c: u32, wc: u32, n: Ghost<int>) -> (r: Vec<u32>)
    requires
        crate::tree_kem::leaf_set_ok(s@, n@),
        n@ <= 0x4000_0000,
    ensures
        r@ == doubled_in(s@, c as int, wc as int),
{
    let mut r: Vec<u32> = Vec::new();
    let mut i: usize = 0;
    while i < s.len()
        invariant
            i <= s@.len(),
            crate::tree_kem::leaf_set_ok(s@, n@),
            n@ <= 0x4000_0000,
            r@ == doubled_in(s@.take(i as int), c as int, wc as int),
        decreases s@.len() - i,
    {
        let l = s[i];
        assert(s@.take(i + 1).drop_last() =~= s@.take(i as int));
        assert(l.0 < n@);
        let lo: u64 = if (wc as u64) <= (c as u64) + 1 {
            c as u64 + 1 - wc as u64
        } else {
            0
        };
        let hi: u64 = c as u64 + wc as u64;
        if lo <= 2 * (l.0 as u64) && 2 * (l.0 as u64) < hi {
            r.push(2 * l.0);
        } else {
            assert(!in_subtree(l, c as int, wc as int));
        }
        i = i + 1;
    }
    assert(s@.take(s@.len() as int) =~= s@);
    r
}


/// The slots flagged in `v`.
pub open spec fn marked_set(v: Seq<bool>) -> Set<u32> {
    Set::new(|i: u32| i < v.len() && v[i as int])
}

pub proof fn lemma_leaves_none(h: crate::crypto::Hash, t: &TreeKemPublic, m: int, k: int, marked: Set<u32>)
    requires
        0 <= k <= m,
        leaves_walk(h, t, k, marked) is None,
    ensures
        leaves_walk(h, t, m, marked) is None,
    decreases m - k,
{
    if k < m {
        lemma_leaves_none(h, t, m, k + 1, marked);
    }
}

/// The chain that starts at leaf `leaf`.
pub open spec fn chain_walk(t: &TreeKemPublic, h: crate::crypto::Hash, leaf: u32, marked: Set<u32>) -> Option<Set<u32>> {
    let p = descent(t.root().0, t.root().1, 2 * leaf);
    walk(h, t.nodes@, p, p.len() as int, (2 * leaf) as u32, marked)
}

/// Every entry of a path lies inside the tree, and so do both its children.
pub open spec fn path_in_range(p: Seq<(u32, u32, u32)>, len: int) -> bool {
    forall|j: int|
        0 <= j < p.len() ==> {
            let e = #[trigger] p[j];
            &&& e.2 >= 2
            &&& in_range(e.0 as int, e.2 as int, len)
            &&& in_range(e.1 as int, (e.2 / 2) as int, len)
        }
}

impl TreeKemPublic {
    fn first_nonblank_at(&self, p: &Vec<(u32, u32, u32)>, k: usize) -> (r: Option<usize>)
        requires
            self.wf(),
            k <= p@.len(),
            path_in_range(p@, self.nodes@.len() as int),
        ensures
            match r {
                Some(j) => j < k && j as int == first_nonblank(self.nodes@, p@, k as int),
                None => first_nonblank(self.nodes@, p@, k as int) == -1,
            },
    {
        let mut i = k;
        while i > 0
            invariant
                i <= k <= p@.len(),
                path_in_range(p@, self.nodes@.len() as int),
                first_nonblank(self.nodes@, p@, k as int) == first_nonblank(
                    self.nodes@,
                    p@,
                    i as int,
                ),
            decreases i,
        {
            let e = p[i - 1];
            if self.nodes[e.0 as usize].is_some() {
                return Some(i - 1);
            }
            i = i - 1;
        }
        None
    }

    /// Whether the parent hash recorded in the node at `n` is `expected`.
    fn stored_parent_hash_is(&self, n: u32, expected: &[u8]) -> (r: bool)
        requires
            n < self.nodes@.len(),
        ensures
            r == (stored_parent_hash(self.nodes@[n as int]) == Some(expected@)),
    {
        match &self.nodes[n as usize] {
            Some(Node::Parent(pp)) => bytes_eq(pp.parent_hash.0.as_slice(), expected),
            Some(Node::Leaf(l)) => match &l.leaf_node_source {
                LeafNodeSource::Commit(ph) => bytes_eq(ph.0.as_slice(), expected),
                _ => false,
            },
            None => false,
        }
    }

    /// Walks the chain that starts at leaf `leaf`, unflagging in `marked` each
    /// parent that it covers.
    fn walk_chain(&self, h: &crate::crypto::Hash, leaf: u32, marked: &mut Vec<bool>) -> (r: bool)
        requires
            self.wf(),
            leaf < self.spec_leaf_count(),
            old(marked)@.len() == self.nodes@.len(),
        ensures
            final(marked)@.len() == self.nodes@.len(),
            chain_walk(self, *h, leaf, marked_set(old(marked)@)) is None ==> !r,
            chain_walk(self, *h, leaf, marked_set(old(marked)@)) is Some ==> r && marked_set(
                final(marked)@,
            ) == chain_walk(self, *h, leaf, marked_set(old(marked)@))->Some_0,
    {
        let path = self.direct_path_co_path(LeafIndex(leaf));
        proof {
            lemma_descent_in_range(self.root().0, self.root().1, 2 * leaf, self.nodes@.len() as int);
        }
        let ghost target = walk(*h, self.nodes@, path@, path@.len() as int, (2 * leaf) as u32, marked_set(marked@));
        let mut k: usize = path.len();
        let mut n: u32 = 2 * leaf;
        while k > 0
            invariant
                self.wf(),
                k <= path@.len(),
                n < self.nodes@.len(),
                marked@.len() == self.nodes@.len(),
                path_in_range(path@, self.nodes@.len() as int),
                walk(*h, self.nodes@, path@, k as int, n, marked_set(marked@)) == target,
                target == chain_walk(self, *h, leaf, marked_set(old(marked)@)),
                path@ == descent(self.root().0, self.root().1, 2 * leaf),
            decreases k,
        {
            let j = match self.first_nonblank_at(&path, k) {
                Some(j) => j,
                None => {
                    return true;
                },
            };
            let e = path[j];
            match &self.nodes[e.0 as usize] {
                Some(Node::Parent(q)) => {
                    assert(crate::tree_kem::node_ok(self.nodes@[e.0 as int], e.0 as int, self.spec_leaf_count()));
                    let sibling = self.tree_hash_at(h, e.1, e.2 / 2, q.unmerged_leaves.as_slice());
                    let expected = parent_hash_bytes(
                        h,
                        q.public_key.as_slice(),
                        q.parent_hash.0.as_slice(),
                        sibling.as_slice(),
                    );
                    if !self.stored_parent_hash_is(n, expected.as_slice()) {
                        return true;
                    }
                    let c = if e.1 > e.0 {
                        e.0 - e.2 / 2
                    } else {
                        e.0 + e.2 / 2
                    };
                    let wc = e.2 / 2;
                    let res = self.resolution_of(c, wc);
                    let u = doubled_in_subtree(
                        q.unmerged_leaves.as_slice(),
                        c,
                        wc,
                        Ghost(self.spec_leaf_count()),
                    );
                    if u32_slice_contains(res.as_slice(), n) && same_set_without(
                        res.as_slice(),
                        n,
                        u.as_slice(),
                    ) && marked[e.0 as usize] {
                        let ghost before = marked_set(marked@);
                        marked.set(e.0 as usize, false);
                        assert(marked_set(marked@) =~= before.remove(e.0));
                        n = e.0;
                        k = j;
                    } else {
                        return false;
                    }
                },
                _ => {
                    return false;
                },
            }
        }
        true
    }

    /// Checks that every non-blank parent is covered by exactly one parent-hash
    /// chain, walking up from each non-blank leaf in order.
    pub fn validate_parent_hashes(&self, h: &crate::crypto::Hash) -> (r: Result<(), RatchetTreeError>)
        requires
            self.wf(),
        ensures
            r is Ok <==> parent_hashes_valid(self, *h),
            r is Err ==> r matches Err(RatchetTreeError::ParentHashMismatch),
    {
        let len = self.nodes.len();
        let mut marked: Vec<bool> = Vec::new();
        let mut i: usize = 0;
        while i < len
            invariant
                len == self.nodes@.len(),
                i <= len,
                marked@.len() == i,
                forall|a: int| 0 <= a < i ==> #[trigger] marked@[a] == (a % 2 == 1 && self.nodes@[a] is Some),
            decreases len - i,
        {
            marked.push(i % 2 == 1 && self.nodes[i].is_some());
            i = i + 1;
        }
        let ghost init = nonblank_parents(self.nodes@);
        assert(marked_set(marked@) =~= init);
        let n = self.total_leaf_count();
        let mut m: u32 = 0;
        while m < n
            invariant
                self.wf(),
                n == self.spec_leaf_count(),
                m <= n,
                marked@.len() == self.nodes@.len(),
                leaves_walk(*h, self, m as int, init) == Some(marked_set(marked@)),
                init == nonblank_parents(self.nodes@),
            decreases n - m,
        {
            if self.nodes[(2 * m) as usize].is_some() {
                let ghost before = marked_set(marked@);
                if !self.walk_chain(h, m, &mut marked) {
                    proof {
                        assert(chain_walk(self, *h, m, before) is None);
                        assert(node_at(self.nodes@, 2 * m) is Some);
                        assert(leaves_walk(*h, self, m + 1, init) is None);
                        lemma_leaves_none(*h, self, n as int, m + 1, init);
                    }
                    return Err(RatchetTreeError::ParentHashMismatch);
                }
            }
            m = m + 1;
        }
        let mut j: usize = 0;
        while j < len
            invariant
                len == self.nodes@.len(),
                len < 0x8000_0000,
                marked@.len() == len,
                j <= len,
                forall|a: int| 0 <= a < j ==> !(#[trigger] marked@[a]),
                leaves_walk(*h, self, self.spec_leaf_count(), init) == Some(marked_set(marked@)),
                init == nonblank_parents(self.nodes@),
            decreases len - j,
        {
            if marked[j] {
                assert(marked_set(marked@).contains(j as u32));
                return Err(RatchetTreeError::ParentHashMismatch);
            }
            j = j + 1;
        }
        assert(marked_set(marked@) =~= Set::<u32>::empty());
        Ok(())
    }
}


pub proof fn lemma_descent_distinct(x: int, w: int, t: int)
    requires
        0 <= x,
        1 <= w,
        w <= x + 1,
        x + w < 0x1_0000_0000,
    ensures
        forall|k: int|
            0 <= k < descent(x, w, t).len() ==> x - w < (#[trigger] descent(x, w, t)[k]).0 < x + w,
        descent(x, w, t).map_values(|e: (u32, u32, u32)| e.0).no_duplicates(),
    decreases w,
{
    if w > 1 {
        let half = w / 2;
        let c = if t < x { x - half } else { x + half };
        lemma_descent_distinct(c, half, t);
        let d = descent(x, w, t);
        let dc = descent(c, half, t);
        assert(d =~= seq![(x as u32, (if t < x { x + half } else { x - half }) as u32, w as u32)] + dc);
        assert forall|k: int| 0 <= k < d.len() implies x - w < (#[trigger] d[k]).0 < x + w by {
            if k > 0 {
                assert(d[k] == dc[k - 1]);
            }
        }
        let m = d.map_values(|e: (u32, u32, u32)| e.0);
        let mc = dc.map_values(|e: (u32, u32, u32)| e.0);
        assert forall|i: int, j: int| 0 <= i < m.len() && 0 <= j < m.len() && i != j implies m[i]
            != m[j] by {
            if i > 0 && j > 0 {
                assert(m[i] == mc[i - 1]);
                assert(m[j] == mc[j - 1]);
            } else if i == 0 {
                assert(m[j] == dc[j - 1].0);
            } else {
                assert(m[i] == dc[i - 1].0);
            }
        }
    }
}

pub proof fn lemma_filter_distinct(nodes: Seq<Option<Node>>, p: Seq<(u32, u32, u32)>)
    requires
        p.map_values(|e: (u32, u32, u32)| e.0).no_duplicates(),
    ensures
        filter_path(nodes, p).map_values(|e: (u32, u32, u32)| e.0).no_duplicates(),
    decreases p.len(),
{
    if p.len() > 0 {
        let q = p.drop_last();
        assert(q.map_values(|e: (u32, u32, u32)| e.0) =~= p.map_values(|e: (u32, u32, u32)| e.0).drop_last());
        lemma_filter_distinct(nodes, q);
        lemma_filter_sub(nodes, q);
        let f = filter_path(nodes, q);
        let e = p.last();
        if resolution(nodes, e.1 as int, (e.2 / 2) as int).len() > 0 {
            let m = f.push(e).map_values(|e: (u32, u32, u32)| e.0);
            assert forall|i: int, j: int| 0 <= i < m.len() && 0 <= j < m.len() && i != j implies m[i]
                != m[j] by {
                if i == f.len() || j == f.len() {
                    let o = if i == f.len() { j } else { i };
                    assert(q.contains(f[o]));
                    let a = choose|a: int| 0 <= a < q.len() && q[a] == f[o];
                    assert(p.map_values(|e: (u32, u32, u32)| e.0)[a] == f[o].0);
                    assert(p.map_values(|e: (u32, u32, u32)| e.0)[p.len() - 1] == e.0);
                } else {
                    assert(m[i] == f.map_values(|e: (u32, u32, u32)| e.0)[i]);
                    assert(m[j] == f.map_values(|e: (u32, u32, u32)| e.0)[j]);
                }
            }
        }
    }
}


/// The node at `x` spanning `w` leaves sits where a left-balanced tree puts
/// such a node: `x + 1` is an odd multiple of `w`.
pub open spec fn aligned(x: int, w: int) -> bool {
    exists|q: int| q >= 0 && x + 1 == #[trigger] (q * (2 * w)) + w
}

pub proof fn lemma_descent_odd(x: int, w: int, t: int)
    requires
        is_pow2(w),
        aligned(x, w),
        0 <= x,
        x + w < 0x1_0000_0000,
    ensures
        forall|k: int| 0 <= k < descent(x, w, t).len() ==> (#[trigger] descent(x, w, t)[k]).0 % 2 == 1,
    decreases w,
{
    if w > 1 {
        let w2 = w / 2;
        let q = choose|q: int| q >= 0 && x + 1 == #[trigger] (q * (2 * w)) + w;
        assert(w == 2 * w2);
        let y = q * (2 * w2) + w2;
        assert(x + 1 == 2 * y) by (nonlinear_arith)
            requires
                x + 1 == q * (2 * w) + w,
                w == 2 * w2,
                y == q * (2 * w2) + w2,
        ;
        assert(q * (2 * w2) >= 0) by (nonlinear_arith)
            requires
                q >= 0,
                w2 >= 1,
        ;
        assert((x as u32) as int == x);
        assert((x as u32) % 2 == 1);
        let c = if t < x { x - w2 } else { x + w2 };
        if t < x {
            assert(c + 1 == (2 * q) * (2 * w2) + w2) by (nonlinear_arith)
                requires
                    x + 1 == 2 * y,
                    y == q * (2 * w2) + w2,
                    c == x - w2,
            ;
            assert(2 * q >= 0);
            assert(aligned(c, w2));
        } else {
            assert(c + 1 == (2 * q + 1) * (2 * w2) + w2) by (nonlinear_arith)
                requires
                    x + 1 == 2 * y,
                    y == q * (2 * w2) + w2,
                    c == x + w2,
            ;
            assert(2 * q + 1 >= 0);
            assert(aligned(c, w2));
        }
        lemma_descent_odd(c, w2, t);
        let d = descent(x, w, t);
        assert forall|k: int| 0 <= k < d.len() implies (#[trigger] d[k]).0 % 2 == 1 by {
            if k > 0 {
                assert(d[k] == descent(c, w2, t)[k - 1]);
            }
        }
    }
}

/// Every ancestor on a direct path sits at an odd index.
pub proof fn lemma_path_odd(t: &TreeKemPublic, leaf: LeafIndex)
    requires
        t.wf(),
    ensures
        forall|k: int|
            0 <= k < descent(t.root().0, t.root().1, 2 * leaf.0).len() ==> (#[trigger] descent(
                t.root().0,
                t.root().1,
                2 * leaf.0,
            )[k]).0 % 2 == 1,
{
    let n = t.spec_leaf_count();
    assert(n - 1 + 1 == 0 * (2 * n) + n);
    assert(aligned(n - 1, n));
    lemma_descent_odd(n - 1, n, 2 * leaf.0);
}

} // verus!
