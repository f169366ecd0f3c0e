//! Changes to the public tree: adding, removing and updating leaves, and
//! applying an update path.
use vstd::prelude::*;
use crate::parent_hash::{
    descent, filtered_path_of, lemma_descent_distinct, lemma_descent_in_range, lemma_filter_distinct,
    lemma_filter_sub, lemma_path_odd,
};
use crate::tree_kem::{
    in_range, is_pow2, leaf_count_of, LeafNodeSource, leaf_set_ok, node_at, node_ok, LeafIndex, LeafNode, Node,
    Parent, ParentHash, RatchetTreeError, TreeKemPublic, ValidatedUpdatePath,
};

verus! {

/// How many leading entries of `s` are below `l`.
pub open spec fn count_below(s: Seq<LeafIndex>, l: LeafIndex) -> int
    decreases s.len(),
{
    if s.len() == 0 || s[0].0 >= l.0 {
        0
    } else {
        1 + count_below(s.drop_first(), l)
    }
}

/// `s` with `l` put in its place in the order, unless it is there already.
pub open spec fn insert_leaf(s: Seq<LeafIndex>, l: LeafIndex) -> Seq<LeafIndex> {
    if s.contains(l) {
        s
    } else {
        s.insert(count_below(s, l), l)
    }
}

/// `new` is `old` with `l` added to its unmerged leaves, if `old` is a parent.
pub open spec fn with_unmerged(old: Option<Node>, new: Option<Node>, l: LeafIndex) -> bool {
    match old {
        Some(Node::Parent(p)) => match new {
            Some(Node::Parent(q)) => q.public_key == p.public_key && q.parent_hash
                == p.parent_hash && q.unmerged_leaves@ == insert_leaf(p.unmerged_leaves@, l),
            _ => false,
        },
        _ => new == old,
    }
}

/// The node at `i` is one of the ancestors in `p`.
pub open spec fn on_path(p: Seq<(u32, u32, u32)>, i: int) -> bool {
    exists|k: int| 0 <= k < p.len() && (#[trigger] p[k]).0 == i
}

/// The index of the leftmost blank leaf among the first `m`, if any.
pub open spec fn leftmost_blank(nodes: Seq<Option<Node>>, m: int) -> Option<int>
    decreases m,
{
    if m <= 0 {
        None
    } else {
        match leftmost_blank(nodes, m - 1) {
            Some(l) => Some(l),
            None => if node_at(nodes, 2 * (m - 1)) is None {
                Some(m - 1)
            } else {
                None
            },
        }
    }
}

pub proof fn lemma_count_below(s: Seq<LeafIndex>, l: LeafIndex)
    requires
        forall|i: int, j: int| 0 <= i < j < s.len() ==> s[i].0 < s[j].0,
    ensures
        0 <= count_below(s, l) <= s.len(),
        forall|i: int| 0 <= i < count_below(s, l) ==> s[i].0 < l.0,
        forall|i: int| count_below(s, l) <= i < s.len() ==> s[i].0 >= l.0,
    decreases s.len(),
{
    if s.len() > 0 && s[0].0 < l.0 {
        let t = s.drop_first();
        lemma_count_below(t, l);
        assert forall|i: int| 0 <= i < count_below(s, l) implies s[i].0 < l.0 by {
            if i > 0 {
                assert(s[i] == t[i - 1]);
            }
        }
        assert forall|i: int| count_below(s, l) <= i < s.len() implies s[i].0 >= l.0 by {
            assert(s[i] == t[i - 1]);
        }
    } else if s.len() > 0 {
        assert forall|i: int| 0 <= i < s.len() implies s[i].0 >= l.0 by {
            if i > 0 {
                assert(s[0].0 < s[i].0);
            }
        }
    }
}

pub proof fn lemma_insert_leaf_ok(s: Seq<LeafIndex>, l: LeafIndex, n: int)
    requires
        leaf_set_ok(s, n),
        l.0 < n,
    ensures
        leaf_set_ok(insert_leaf(s, l), n),
        insert_leaf(s, l).contains(l),
        insert_leaf(insert_leaf(s, l), l) == insert_leaf(s, l),
{
    lemma_count_below(s, l);
    if !s.contains(l) {
        let c = count_below(s, l);
        let r = s.insert(c, l);
        assert(r[c] == l);
        assert forall|i: int, j: int| 0 <= i < j < r.len() implies r[i].0 < r[j].0 by {
            if j < c {
            } else if j == c {
            } else if i < c {
                assert(s[j - 1].0 >= l.0);
                assert(s[j - 1] != l);
            } else if i == c {
                assert(s[j - 1].0 >= l.0);
                assert(s[j - 1] != l);
            } else {
            }
        }
    }
}

/// Inserts `l` into the ordered set `s`.
pub fn insert_leaf_exec(s: &mut Vec<LeafIndex>, l: LeafIndex)
    requires
        forall|i: int, j: int| 0 <= i < j < old(s)@.len() ==> old(s)@[i].0 < old(s)@[j].0,
    ensures
        final(s)@ == insert_leaf(old(s)@, l),
{
    proof {
        lemma_count_below(s@, l);
    }
    let mut i: usize = 0;
    while i < s.len() && s[i].0 < l.0
        invariant
            i <= s@.len(),
            i <= count_below(s@, l),
            forall|a: int| 0 <= a < i ==> s@[a].0 < l.0,
            0 <= count_below(s@, l) <= s@.len(),
            forall|a: int| count_below(s@, l) <= a < s@.len() ==> s@[a].0 >= l.0,
        decreases s@.len() - i,
    {
        i = i + 1;
    }
    assert(i == count_below(s@, l));
    if i < s.len() && s[i].0 == l.0 {
        assert(s@[i as int] == l);
        assert(s@.contains(l));
        return;
    }
    assert(!s@.contains(l)) by {
        if s@.contains(l) {
            let a = choose|a: int| 0 <= a < s@.len() && s@[a] == l;
        }
    }
    s.insert(i, l);
}

impl TreeKemPublic {
    /// Doubles the number of leaf slots: the old tree becomes the left half
    /// of the new one.
    fn extend(&mut self)
        requires
            old(self).wf(),
            old(self).nodes@.len() < 0x4000_0000,
        ensures
            final(self).wf(),
            final(self).nodes@.len() == 2 * old(self).nodes@.len() + 1,
            final(self).spec_leaf_count() == 2 * old(self).spec_leaf_count(),
            forall|i: int| 0 <= i < old(self).nodes@.len() ==> #[trigger] final(self).nodes@[i]
                == old(self).nodes@[i],
            forall|i: int| old(self).nodes@.len() <= i < final(self).nodes@.len() ==> #[trigger] final(self).nodes@[i]
                is None,
    {
        let ghost n = self.spec_leaf_count();
        let len = self.nodes.len();
        let mut i: usize = 0;
        while i <= len
            invariant
                i <= len + 1,
                len == old(self).nodes@.len(),
                len < 0x4000_0000,
                self.nodes@.len() == len + i,
                forall|a: int| 0 <= a < len ==> #[trigger] self.nodes@[a] == old(self).nodes@[a],
                forall|a: int| len <= a < len + i ==> #[trigger] self.nodes@[a] is None,
            decreases len + 1 - i,
        {
            self.nodes.push(None);
            i = i + 1;
        }
        assert(leaf_count_of(self.nodes@.len() as int) == 2 * n);
        assert(is_pow2(2 * n));
        assert forall|a: int| 0 <= a < self.nodes@.len() implies #[trigger] node_ok(
            self.nodes@[a],
            a,
            2 * n,
        ) by {
            if a < len {
                assert(node_ok(old(self).nodes@[a], a, n));
                match self.nodes@[a] {
                    Some(Node::Parent(p)) => {
                        assert(leaf_set_ok(p.unmerged_leaves@, 2 * n));
                    },
                    _ => {},
                }
            }
        }
    }

    /// The index of the leftmost blank leaf slot, if any.
    pub fn find_empty_leaf(&self) -> (r: Option<u32>)
        requires
            self.wf(),
        ensures
            match r {
                Some(l) => leftmost_blank(self.nodes@, self.spec_leaf_count()) == Some(l as int),
                None => leftmost_blank(self.nodes@, self.spec_leaf_count()) is None,
            },
    {
        let n = self.total_leaf_count();
        let mut m: u32 = 0;
        while m < n
            invariant
                self.wf(),
                n == self.spec_leaf_count(),
                m <= n,
                leftmost_blank(self.nodes@, m as int) is None,
            decreases n - m,
        {
            if self.nodes[(2 * m) as usize].is_none() {
                assert(leftmost_blank(self.nodes@, m + 1) == Some(m as int));
                proof {
                    lemma_leftmost_blank_stays(self.nodes@, m + 1, n as int);
                }
                return Some(m);
            }
            m = m + 1;
        }
        None
    }
}

pub proof fn lemma_leftmost_blank_range(nodes: Seq<Option<Node>>, m: int)
    ensures
        leftmost_blank(nodes, m) matches Some(b) ==> 0 <= b < m && node_at(nodes, 2 * b) is None,
    decreases m,
{
    if m > 0 {
        lemma_leftmost_blank_range(nodes, m - 1);
    }
}

pub proof fn lemma_leftmost_blank_stays(nodes: Seq<Option<Node>>, m: int, k: int)
    requires
        0 <= m <= k,
        leftmost_blank(nodes, m) is Some,
    ensures
        leftmost_blank(nodes, k) == leftmost_blank(nodes, m),
    decreases k - m,
{
    if m < k {
        lemma_leftmost_blank_stays(nodes, m, k - 1);
    }
}


/// The tree after doubling the number of leaf slots.
pub open spec fn extended(nodes: Seq<Option<Node>>) -> Seq<Option<Node>> {
    nodes + Seq::new((nodes.len() + 1) as nat, |i: int| None::<Node>)
}

/// `new` is `base` with `leaf` at leaf `l`, and `l` added to the unmerged
/// leaves of every non-blank parent on its direct path.
pub open spec fn leaf_added(
    base: Seq<Option<Node>>,
    new: Seq<Option<Node>>,
    l: LeafIndex,
    leaf: LeafNode,
) -> bool {
    let n = leaf_count_of(base.len() as int);
    let p = descent(n - 1, n, 2 * l.0);
    &&& new.len() == base.len()
    &&& new[2 * l.0] == Some(Node::Leaf(leaf))
    &&& forall|i: int|
        0 <= i < new.len() && i != 2 * l.0 ==> if on_path(p, i) {
            with_unmerged(base[i], #[trigger] new[i], l)
        } else {
            new[i] == base[i]
        }
}

impl TreeKemPublic {
    /// Puts `leaf` in the leftmost blank leaf slot, doubling the tree first if
    /// there is none, and records it as unmerged at every non-blank ancestor.
    pub fn add_leaf(&mut self, leaf: LeafNode) -> (r: Result<LeafIndex, RatchetTreeError>)
        requires
            old(self).wf(),
            leaf.wf(),
        ensures
            final(self).wf(),
            match r {
                Ok(l) => match leftmost_blank(old(self).nodes@, old(self).spec_leaf_count()) {
                    Some(b) => l.0 == b && leaf_added(old(self).nodes@, final(self).nodes@, l, leaf),
                    None => l.0 == old(self).spec_leaf_count() && leaf_added(
                        extended(old(self).nodes@),
                        final(self).nodes@,
                        l,
                        leaf,
                    ),
                },
                Err(e) => e is TreeFull && leftmost_blank(
                    old(self).nodes@,
                    old(self).spec_leaf_count(),
                ) is None && old(self).nodes@.len() >= 0x4000_0000 && final(self).nodes@
                    == old(self).nodes@,
            },
    {
        let l = match self.find_empty_leaf() {
            Some(l) => l,
            None => {
                if self.nodes.len() >= 0x4000_0000 {
                    return Err(RatchetTreeError::TreeFull);
                }
                let n = self.total_leaf_count();
                self.extend();
                assert(self.nodes@ =~= extended(old(self).nodes@));
                n
            },
        };
        let ghost base = self.nodes@;
        let ghost n = self.spec_leaf_count();
        proof {
            if let Some(b) = leftmost_blank(old(self).nodes@, old(self).spec_leaf_count()) {
                lemma_leftmost_blank_range(old(self).nodes@, old(self).spec_leaf_count());
            }
        }
        assert(l < n);
        assert(node_ok(leaf_node_opt(leaf), 2 * l as int, n));
        self.nodes.set((2 * l) as usize, Some(Node::Leaf(leaf)));
        assert forall|a: int| 0 <= a < self.nodes@.len() implies #[trigger] node_ok(
            self.nodes@[a],
            a,
            n,
        ) by {
            if a != 2 * l {
                assert(node_ok(base[a], a, n));
            }
        }
        let path = self.direct_path_co_path(LeafIndex(l));
        proof {
            lemma_descent_in_range(self.root().0, self.root().1, 2 * l, self.nodes@.len() as int);
        }
        let mut k: usize = 0;
        while k < path.len()
            invariant
                self.wf(),
                n == self.spec_leaf_count(),
                l < n,
                k <= path@.len(),
                path@ == descent(n - 1, n, 2 * l),
                base.len() == self.nodes@.len(),
                leaf_count_of(base.len() as int) == n,
                self.nodes@[2 * l as int] == Some(Node::Leaf(leaf)),
                forall|j: int|
                    0 <= j < path@.len() ==> in_range(
                        (#[trigger] path@[j]).0 as int,
                        path@[j].2 as int,
                        self.nodes@.len() as int,
                    ),
                forall|a: int|
                    0 <= a < base.len() ==> #[trigger] node_ok(base[a], a, n),
                forall|i: int|
                    0 <= i < base.len() && i != 2 * l ==> if on_path(path@.take(k as int), i) {
                        with_unmerged(base[i], #[trigger] self.nodes@[i], LeafIndex(l))
                    } else {
                        self.nodes@[i] == base[i]
                    },
            decreases path@.len() - k,
        {
            let d = path[k].0;
            let ghost before = self.nodes@;
            assert(node_ok(self.nodes@[d as int], d as int, n));
            match &mut self.nodes[d as usize] {
                Some(Node::Parent(p)) => {
                    insert_leaf_exec(&mut p.unmerged_leaves, LeafIndex(l));
                },
                _ => {},
            }
            proof {
                assert forall|i: int|
                    0 <= i < base.len() && i != 2 * l implies if on_path(path@.take(k + 1), i) {
                    with_unmerged(base[i], #[trigger] self.nodes@[i], LeafIndex(l))
                } else {
                    self.nodes@[i] == base[i]
                } by {
                    if i == d {
                        assert(path@.take(k + 1)[k as int].0 == d);
                        assert(node_ok(base[i], i, n));
                        if on_path(path@.take(k as int), i) {
                            match base[i] {
                                Some(Node::Parent(bp)) => {
                                    lemma_insert_leaf_ok(bp.unmerged_leaves@, LeafIndex(l), n);
                                },
                                _ => {},
                            }
                        }
                    } else {
                        assert(self.nodes@[i] == before[i]);
                        if on_path(path@.take(k + 1), i) {
                            let j = choose|j: int| 0 <= j < k + 1 && (#[trigger] path@.take(k + 1)[j]).0 == i;
                            assert(j < k);
                            assert(path@.take(k as int)[j].0 == i);
                        }
                        if on_path(path@.take(k as int), i) {
                            let j = choose|j: int| 0 <= j < k && (#[trigger] path@.take(k as int)[j]).0 == i;
                            assert(path@.take(k + 1)[j].0 == i);
                        }
                    }
                }
                assert forall|a: int| 0 <= a < self.nodes@.len() implies #[trigger] node_ok(
                    self.nodes@[a],
                    a,
                    n,
                ) by {
                    if a != d {
                        assert(self.nodes@[a] == before[a]);
                    } else {
                        assert(node_ok(before[a], a, n));
                        match before[a] {
                            Some(Node::Parent(bp)) => {
                                lemma_insert_leaf_ok(bp.unmerged_leaves@, LeafIndex(l), n);
                            },
                            _ => {},
                        }
                    }
                }
            }
            k = k + 1;
        }
        assert(path@.take(path@.len() as int) =~= path@);
        Ok(LeafIndex(l))
    }
}

pub open spec fn leaf_node_opt(leaf: LeafNode) -> Option<Node> {
    Some(Node::Leaf(leaf))
}


/// `new` is `base` with every node on the direct path of leaf `l` blank.
pub open spec fn path_blanked(base: Seq<Option<Node>>, new: Seq<Option<Node>>, l: LeafIndex) -> bool {
    let n = leaf_count_of(base.len() as int);
    let p = descent(n - 1, n, 2 * l.0);
    &&& new.len() == base.len()
    &&& forall|i: int|
        0 <= i < new.len() && i != 2 * l.0 ==> if on_path(p, i) {
            #[trigger] new[i] is None
        } else {
            new[i] == base[i]
        }
}

impl TreeKemPublic {
    /// Blanks every node on the direct path of `leaf`.
    fn blank_direct_path(&mut self, leaf: LeafIndex)
        requires
            old(self).wf(),
            leaf.0 < old(self).spec_leaf_count(),
        ensures
            final(self).wf(),
            final(self).nodes@[2 * leaf.0 as int] == old(self).nodes@[2 * leaf.0 as int],
            path_blanked(old(self).nodes@, final(self).nodes@, leaf),
    {
        let path = self.direct_path_co_path(leaf);
        let ghost n = self.spec_leaf_count();
        proof {
            lemma_descent_in_range(self.root().0, self.root().1, 2 * leaf.0, self.nodes@.len() as int);
        }
        let mut k: usize = 0;
        while k < path.len()
            invariant
                self.wf(),
                n == self.spec_leaf_count(),
                leaf.0 < n,
                k <= path@.len(),
                path@ == descent(n - 1, n, 2 * leaf.0),
                self.nodes@.len() == old(self).nodes@.len(),
                self.nodes@[2 * leaf.0 as int] == old(self).nodes@[2 * leaf.0 as int],
                forall|j: int|
                    0 <= j < path@.len() ==> in_range(
                        (#[trigger] path@[j]).0 as int,
                        path@[j].2 as int,
                        self.nodes@.len() as int,
                    ),
                forall|i: int|
                    0 <= i < self.nodes@.len() && i != 2 * leaf.0 ==> if on_path(path@.take(k as int), i) {
                        #[trigger] self.nodes@[i] is None
                    } else {
                        self.nodes@[i] == old(self).nodes@[i]
                    },
            decreases path@.len() - k,
        {
            let d = path[k].0;
            let ghost before = self.nodes@;
            if d != 2 * leaf.0 {
                self.nodes.set(d as usize, None);
            }
            proof {
                assert forall|i: int| 0 <= i < self.nodes@.len() && i != 2 * leaf.0 implies if on_path(
                    path@.take(k + 1),
                    i,
                ) {
                    #[trigger] self.nodes@[i] is None
                } else {
                    self.nodes@[i] == old(self).nodes@[i]
                } by {
                    if i == d {
                        assert(path@.take(k + 1)[k as int].0 == d);
                    } else {
                        assert(self.nodes@[i] == before[i]);
                        if on_path(path@.take(k + 1), i) {
                            let j = choose|j: int| 0 <= j < k + 1 && (#[trigger] path@.take(k + 1)[j]).0 == i;
                            assert(path@.take(k as int)[j].0 == i);
                        }
                        if on_path(path@.take(k as int), i) {
                            let j = choose|j: int| 0 <= j < k && (#[trigger] path@.take(k as int)[j]).0 == i;
                            assert(path@.take(k + 1)[j].0 == i);
                        }
                    }
                }
                assert forall|a: int| 0 <= a < self.nodes@.len() implies #[trigger] node_ok(
                    self.nodes@[a],
                    a,
                    n,
                ) by {
                    if a != d {
                        assert(self.nodes@[a] == before[a]);
                    }
                }
            }
            k = k + 1;
        }
        assert(path@.take(path@.len() as int) =~= path@);
    }

    /// Removes the member at `leaf`: blanks the leaf and its direct path. The
    /// number of leaf slots stays as it was.
    pub fn remove_leaf(&mut self, leaf: LeafIndex) -> (r: Result<(), RatchetTreeError>)
        requires
            old(self).wf(),
            leaf.0 < old(self).spec_leaf_count(),
        ensures
            final(self).wf(),
            r is Ok <==> old(self).nodes@[2 * leaf.0 as int] is Some,
            r is Err ==> final(self).nodes@ == old(self).nodes@,
            r is Ok ==> final(self).nodes@[2 * leaf.0 as int] is None && path_blanked(
                old(self).nodes@,
                final(self).nodes@,
                leaf,
            ),
    {
        if self.nodes[(2 * leaf.0) as usize].is_none() {
            return Err(RatchetTreeError::ExpectedLeaf(2 * leaf.0));
        }
        self.blank_direct_path(leaf);
        let ghost mid = self.nodes@;
        self.nodes.set((2 * leaf.0) as usize, None);
        assert forall|a: int| 0 <= a < self.nodes@.len() implies #[trigger] node_ok(
            self.nodes@[a],
            a,
            self.spec_leaf_count(),
        ) by {
            if a != 2 * leaf.0 {
                assert(self.nodes@[a] == mid[a]);
            }
        }
        assert forall|i: int| 0 <= i < self.nodes@.len() && i != 2 * leaf.0 implies self.nodes@[i] == mid[i] by {}
        Ok(())
    }

    /// Replaces the contents of the non-blank leaf `leaf` and blanks its
    /// direct path.
    pub fn update_leaf(&mut self, leaf: LeafIndex, leaf_node: LeafNode) -> (r: Result<(), RatchetTreeError>)
        requires
            old(self).wf(),
            leaf.0 < old(self).spec_leaf_count(),
            leaf_node.wf(),
        ensures
            final(self).wf(),
            r is Ok <==> old(self).nodes@[2 * leaf.0 as int] is Some,
            r is Err ==> final(self).nodes@ == old(self).nodes@,
            r is Ok ==> final(self).nodes@[2 * leaf.0 as int] == Some(Node::Leaf(leaf_node))
                && path_blanked(old(self).nodes@, final(self).nodes@, leaf),
    {
        if self.nodes[(2 * leaf.0) as usize].is_none() {
            return Err(RatchetTreeError::ExpectedLeaf(2 * leaf.0));
        }
        self.blank_direct_path(leaf);
        let ghost mid = self.nodes@;
        self.nodes.set((2 * leaf.0) as usize, Some(Node::Leaf(leaf_node)));
        assert forall|a: int| 0 <= a < self.nodes@.len() implies #[trigger] node_ok(
            self.nodes@[a],
            a,
            self.spec_leaf_count(),
        ) by {
            if a != 2 * leaf.0 {
                assert(self.nodes@[a] == mid[a]);
            }
        }
        assert forall|i: int| 0 <= i < self.nodes@.len() && i != 2 * leaf.0 implies self.nodes@[i] == mid[i] by {}
        Ok(())
    }

    /// Adds each of `leaves` in turn, as `add_leaf` does.
    pub fn add_leaves(&mut self, leaves: Vec<LeafNode>) -> (r: Result<Vec<LeafIndex>, RatchetTreeError>)
        requires
            old(self).wf(),
            forall|k: int| 0 <= k < leaves@.len() ==> (#[trigger] leaves@[k]).wf(),
        ensures
            final(self).wf(),
            r is Ok ==> r->Ok_0@.len() == leaves@.len() && forall|k: int|
                0 <= k < leaves@.len() ==> {
                    let l = #[trigger] r->Ok_0@[k];
                    &&& l.0 < final(self).spec_leaf_count()
                    &&& final(self).nodes@[2 * l.0 as int] == Some(Node::Leaf(leaves@[k]))
                },
            r is Err ==> r matches Err(RatchetTreeError::TreeFull),
    {
        let ghost all = leaves@;
        let mut rest = leaves;
        let mut out: Vec<LeafIndex> = Vec::new();
        while rest.len() > 0
            invariant
                self.wf(),
                out@.len() + rest@.len() == all.len(),
                rest@ == all.skip(out@.len() as int),
                forall|k: int| 0 <= k < all.len() ==> (#[trigger] all[k]).wf(),
                forall|k: int|
                    0 <= k < out@.len() ==> {
                        let l = #[trigger] out@[k];
                        &&& l.0 < self.spec_leaf_count()
                        &&& self.nodes@[2 * l.0 as int] == Some(Node::Leaf(all[k]))
                    },
            decreases rest@.len(),
        {
            let leaf = rest.remove(0);
            assert(leaf == all[out@.len() as int]);
            assert(rest@ =~= all.skip((out@.len() + 1) as int));
            let ghost before = self.nodes@;
            let ghost bn = self.spec_leaf_count();
            let l = match self.add_leaf(leaf) {
                Ok(l) => l,
                Err(e) => {
                    return Err(e);
                },
            };
            proof {
                lemma_leftmost_blank_range(before, bn);
                assert forall|k: int| 0 <= k < out@.len() implies {
                    let m = #[trigger] out@[k];
                    &&& m.0 < self.spec_leaf_count()
                    &&& self.nodes@[2 * m.0 as int] == Some(Node::Leaf(all[k]))
                } by {
                    let m = out@[k];
                    assert(before[2 * m.0 as int] == Some(Node::Leaf(all[k])));
                    assert(2 * m.0 != 2 * l.0);
                    if leftmost_blank(before, bn) is None {
                        assert(extended(before)[2 * m.0 as int] == before[2 * m.0 as int]);
                    }
                }
            }
            out.push(l);
        }
        Ok(out)
    }

    /// Installs an update path sent by `sender`: its leaf, and a fresh key
    /// with no parent hash and no unmerged leaves at each node of the
    /// sender's filtered direct path.
    pub fn apply_update_path(&mut self, sender: LeafIndex, update_path: ValidatedUpdatePath) -> (r: Result<
        (),
        RatchetTreeError,
    >)
        requires
            old(self).wf(),
            sender.0 < old(self).spec_leaf_count(),
            update_path.leaf_node.wf(),
            forall|k: int|
                0 <= k < update_path.nodes@.len() ==> (#[trigger] update_path.nodes@[k]).public_key@.len()
                    <= u32::MAX,
        ensures
            final(self).wf(),
            r is Ok <==> update_path.nodes@.len() == filtered_path_of(old(self), sender).len(),
            r is Err ==> final(self).nodes@ == old(self).nodes@,
            r is Ok ==> path_installed(old(self).nodes@, final(self).nodes@, filtered_path_of(old(self), sender), sender, update_path),
    {
        let path = self.filtered_direct_path_co_path(sender);
        if update_path.nodes.len() != path.len() {
            return Err(RatchetTreeError::InvalidRatchetTree);
        }
        let ghost n = self.spec_leaf_count();
        let ghost p = path@;
        proof {
            lemma_path_odd(self, sender);
            lemma_filter_sub(self.nodes@, descent(self.root().0, self.root().1, 2 * sender.0));
            lemma_descent_distinct(self.root().0, self.root().1, 2 * sender.0);
            lemma_filter_distinct(self.nodes@, descent(self.root().0, self.root().1, 2 * sender.0));
        }
        let ValidatedUpdatePath { leaf_node, nodes } = update_path;
        let mut k: usize = 0;
        while k < path.len()
            invariant
                self.wf(),
                n == self.spec_leaf_count(),
                k <= path@.len(),
                p == path@,
                nodes@ == update_path.nodes@,
                nodes@.len() == path@.len(),
                self.nodes@.len() == old(self).nodes@.len(),
                p.map_values(|e: (u32, u32, u32)| e.0).no_duplicates(),
                forall|j: int|
                    0 <= j < path@.len() ==> in_range(
                        (#[trigger] path@[j]).0 as int,
                        path@[j].2 as int,
                        self.nodes@.len() as int,
                    ) && path@[j].0 % 2 == 1,
                forall|j: int|
                    0 <= j < nodes@.len() ==> (#[trigger] nodes@[j]).public_key@.len() <= u32::MAX,
                forall|j: int|
                    0 <= j < k ==> fresh_parent(self.nodes@[(#[trigger] p[j]).0 as int], nodes@[j].public_key@),
                forall|i: int|
                    0 <= i < self.nodes@.len() && !on_path(p.take(k as int), i) ==> #[trigger] self.nodes@[i]
                        == old(self).nodes@[i],
            decreases path@.len() - k,
        {
            let d = path[k].0;
            let ghost before = self.nodes@;
            let pk = crate::codec::copy_bytes(nodes[k].public_key.as_slice());
            let node = Node::Parent(Parent {
                public_key: pk,
                parent_hash: ParentHash::empty(),
                unmerged_leaves: Vec::new(),
            });
            self.nodes.set(d as usize, Some(node));
            proof {
                let m = p.map_values(|e: (u32, u32, u32)| e.0);
                assert forall|j: int| 0 <= j < k + 1 implies fresh_parent(
                    self.nodes@[(#[trigger] p[j]).0 as int],
                    nodes@[j].public_key@,
                ) by {
                    if j < k {
                        assert(m[j] != m[k as int]);
                    }
                }
                assert forall|i: int| 0 <= i < self.nodes@.len() && !on_path(p.take(k + 1), i) implies #[trigger] self.nodes@[i]
                    == old(self).nodes@[i] by {
                    assert(p.take(k + 1)[k as int].0 == d);
                    if on_path(p.take(k as int), i) {
                        let j = choose|j: int| 0 <= j < k && (#[trigger] p.take(k as int)[j]).0 == i;
                        assert(p.take(k + 1)[j].0 == i);
                    }
                }
                assert forall|a: int| 0 <= a < self.nodes@.len() implies #[trigger] node_ok(
                    self.nodes@[a],
                    a,
                    n,
                ) by {
                    if a != d {
                        assert(self.nodes@[a] == before[a]);
                    }
                }
            }
            k = k + 1;
        }
        assert(p.take(p.len() as int) =~= p);
        let ghost mid = self.nodes@;
        assert(node_ok(Some(Node::Leaf(leaf_node)), 2 * sender.0 as int, n));
        self.nodes.set((2 * sender.0) as usize, Some(Node::Leaf(leaf_node)));
        assert forall|a: int| 0 <= a < self.nodes@.len() implies #[trigger] node_ok(
            self.nodes@[a],
            a,
            n,
        ) by {
            if a != 2 * sender.0 {
                assert(self.nodes@[a] == mid[a]);
            }
        }
        Ok(())
    }
}

/// A parent with key `pk`, no parent hash and no unmerged leaves.
pub open spec fn fresh_parent(node: Option<Node>, pk: Seq<u8>) -> bool {
    match node {
        Some(Node::Parent(q)) => q.public_key@ == pk && q.parent_hash.0@.len() == 0
            && q.unmerged_leaves@.len() == 0,
        _ => false,
    }
}

/// `new` is `base` with a fresh parent from `up` at each node of the path `p`.
pub open spec fn path_installed(
    base: Seq<Option<Node>>,
    new: Seq<Option<Node>>,
    p: Seq<(u32, u32, u32)>,
    sender: LeafIndex,
    up: ValidatedUpdatePath,
) -> bool {
    &&& new.len() == base.len()
    &&& new[2 * sender.0 as int] == Some(Node::Leaf(up.leaf_node))
    &&& forall|j: int|
        0 <= j < p.len() && p[j].0 != 2 * sender.0 ==> fresh_parent(
            new[(#[trigger] p[j]).0 as int],
            up.nodes@[j].public_key@,
        )
    &&& forall|i: int|
        0 <= i < new.len() && i != 2 * sender.0 && !on_path(p, i) ==> #[trigger] new[i] == base[i]
}


impl TreeKemPublic {
    /// The non-blank leaves, in order.
    pub fn non_empty_leaves(&self) -> (r: Vec<LeafIndex>)
        requires
            self.wf(),
        ensures
            r@ == nonblank_leaves(self.nodes@, self.spec_leaf_count()),
    {
        let n = self.total_leaf_count();
        let mut r: Vec<LeafIndex> = Vec::new();
        let mut m: u32 = 0;
        while m < n
            invariant
                self.wf(),
                n == self.spec_leaf_count(),
                m <= n,
                r@ == nonblank_leaves(self.nodes@, m as int),
            decreases n - m,
        {
            if self.nodes[(2 * m) as usize].is_some() {
                r.push(LeafIndex(m));
            }
            m = m + 1;
        }
        r
    }

    /// The leaf node at `leaf`, if that slot is a non-blank leaf.
    pub fn get_leaf_node(&self, leaf: LeafIndex) -> (r: Option<&LeafNode>)
        requires
            self.wf(),
        ensures
            match r {
                Some(l) => node_at(self.nodes@, 2 * leaf.0) == Some(Node::Leaf(*l)),
                None => !(node_at(self.nodes@, 2 * leaf.0) is Some),
            },
    {
        if leaf.0 >= self.total_leaf_count() {
            return None;
        }
        let i = (2 * leaf.0) as usize;
        assert(node_at(self.nodes@, 2 * leaf.0) == self.nodes@[i as int]);
        assert(node_ok(self.nodes@[i as int], i as int, self.spec_leaf_count()));
        match &self.nodes[i] {
            Some(Node::Leaf(l)) => Some(l),
            _ => None,
        }
    }

    /// Sets the source of the non-blank leaf `leaf`.
    pub fn set_leaf_node_source(&mut self, leaf: LeafIndex, source: LeafNodeSource) -> (r: Result<(), RatchetTreeError>)
        requires
            old(self).wf(),
            source matches LeafNodeSource::Commit(ph) ==> crate::tree_kem::fits_u32(ph.0@),
        ensures
            final(self).wf(),
            final(self).nodes@.len() == old(self).nodes@.len(),
            r is Ok <==> node_at(old(self).nodes@, 2 * leaf.0) is Some,
            r is Ok ==> (match final(self).nodes@[2 * leaf.0 as int] {
                Some(Node::Leaf(l)) => old(self).nodes@[2 * leaf.0 as int] matches Some(Node::Leaf(o))
                    && l.public_key == o.public_key && l.signing_identity == o.signing_identity
                    && l.leaf_node_source == source,
                _ => false,
            }),
            forall|i: int| 0 <= i < old(self).nodes@.len() && i != 2 * leaf.0 ==> #[trigger] final(self).nodes@[i] == old(self).nodes@[i],
            r is Err ==> final(self).nodes@ == old(self).nodes@,
    {
        if leaf.0 >= self.total_leaf_count() {
            return Err(RatchetTreeError::ExpectedLeaf(leaf.0));
        }
        let ghost n = self.spec_leaf_count();
        let ghost before = self.nodes@;
        assert(node_ok(self.nodes@[2 * leaf.0 as int], 2 * leaf.0 as int, n));
        match &mut self.nodes[(2 * leaf.0) as usize] {
            Some(Node::Leaf(l)) => {
                l.leaf_node_source = source;
            },
            _ => {
                return Err(RatchetTreeError::ExpectedLeaf(leaf.0));
            },
        }
        assert forall|a: int| 0 <= a < self.nodes@.len() implies #[trigger] node_ok(self.nodes@[a], a, n) by {
            if a != 2 * leaf.0 {
                assert(self.nodes@[a] == before[a]);
            }
        }
        Ok(())
    }
}

/// The non-blank leaves among the first `m`, in order.
pub open spec fn nonblank_leaves(nodes: Seq<Option<Node>>, m: int) -> Seq<LeafIndex>
    decreases m,
{
    if m <= 0 {
        Seq::empty()
    } else if node_at(nodes, 2 * (m - 1)) is Some {
        nonblank_leaves(nodes, m - 1).push(LeafIndex((m - 1) as u32))
    } else {
        nonblank_leaves(nodes, m - 1)
    }
}

} // verus!
