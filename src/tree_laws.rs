//! Structural facts about resolutions along a leaf's direct path.
use vstd::prelude::*;
use crate::parent_hash::{aligned, descent, first_nonblank, path_child};
use crate::tree_kem::{is_pow2, node_at, resolution, Node, TreeKemPublic};

verus! {

/// How often `v` occurs in `s`.
pub open spec fn count(s: Seq<u32>, v: u32) -> nat
    decreases s.len(),
{
    if s.len() == 0 {
        0
    } else {
        count(s.drop_last(), v) + if s.last() == v { 1nat } else { 0nat }
    }
}

pub proof fn lemma_count_concat(a: Seq<u32>, b: Seq<u32>, v: u32)
    ensures
        count(a + b, v) == count(a, v) + count(b, v),
    decreases b.len(),
{
    if b.len() > 0 {
        lemma_count_concat(a, b.drop_last(), v);
        assert((a + b).drop_last() =~= a + b.drop_last());
    } else {
        assert(a + b =~= a);
    }
}

pub proof fn lemma_count_absent(s: Seq<u32>, v: u32)
    requires
        !s.contains(v),
    ensures
        count(s, v) == 0,
    decreases s.len(),
{
    if s.len() > 0 {
        assert(!s.drop_last().contains(v)) by {
            if s.drop_last().contains(v) {
                let i = choose|i: int| 0 <= i < s.drop_last().len() && s.drop_last()[i] == v;
                assert(s[i] == v);
            }
        }
        lemma_count_absent(s.drop_last(), v);
    }
}

/// Every parent in the subtree at `x` spanning `w` leaves lists as unmerged
/// only leaves of its own subtree.
pub open spec fn unmerged_local(nodes: Seq<Option<Node>>, x: int, w: int) -> bool
    decreases w,
{
    &&& (node_at(nodes, x) matches Some(Node::Parent(p)) ==> forall|k: int|
        0 <= k < p.unmerged_leaves@.len() ==> x - w + 1 <= 2 * (#[trigger] p.unmerged_leaves@[k]).0 <= x + w - 1)
    &&& (w > 1 ==> unmerged_local(nodes, x - w / 2, w / 2) && unmerged_local(nodes, x + w / 2, w / 2))
}

/// Every node of a resolution lies in the subtree it resolves.
pub proof fn lemma_resolution_in_subtree(nodes: Seq<Option<Node>>, x: int, w: int)
    requires
        unmerged_local(nodes, x, w),
        x + 1 >= w,
        x + w < 0x1_0000_0000,
        w >= 1,
    ensures
        forall|i: int| 0 <= i < resolution(nodes, x, w).len() ==> x - w + 1 <= #[trigger] resolution(nodes, x, w)[i] <= x + w - 1,
    decreases w,
{
    let r = resolution(nodes, x, w);
    match node_at(nodes, x) {
        Some(Node::Parent(p)) => {
            assert forall|i: int| 0 <= i < r.len() implies x - w + 1 <= #[trigger] r[i] <= x + w - 1 by {
                if i > 0 {
                    let l = p.unmerged_leaves@[i - 1];
                    assert(r[i] == (2 * l.0) as u32);
                }
            }
        },
        Some(Node::Leaf(_)) => {},
        None => {
            if w > 1 {
                lemma_resolution_in_subtree(nodes, x - w / 2, w / 2);
                lemma_resolution_in_subtree(nodes, x + w / 2, w / 2);
                let a = resolution(nodes, x - w / 2, w / 2);
                let b = resolution(nodes, x + w / 2, w / 2);
                assert forall|i: int| 0 <= i < r.len() implies x - w + 1 <= #[trigger] r[i] <= x + w - 1 by {
                    if i < a.len() {
                        assert(r[i] == a[i]);
                    } else {
                        assert(r[i] == b[i - a.len()]);
                    }
                }
            }
        },
    }
}

/// Below a blank stretch of `t`'s direct path, the resolution of the subtree
/// at `x` lists the non-blank leaf `t` exactly once.
pub proof fn lemma_blank_descent_count(nodes: Seq<Option<Node>>, x: int, w: int, t: int)
    requires
        is_pow2(w),
        aligned(x, w),
        unmerged_local(nodes, x, w),
        x >= 0,
        x + w < 0x1_0000_0000,
        x - w + 1 <= t <= x + w - 1,
        t % 2 == 0,
        node_at(nodes, t) matches Some(Node::Leaf(_)),
        forall|k: int| 0 <= k < descent(x, w, t).len() ==> node_at(nodes, (#[trigger] descent(x, w, t)[k]).0 as int) is None,
    ensures
        count(resolution(nodes, x, w), t as u32) == 1,
    decreases w,
{
    if w <= 1 {
        assert(t == x);
        let r = resolution(nodes, x, w);
        assert(r =~= seq![x as u32]);
        assert(r.drop_last() =~= Seq::<u32>::empty());
        assert(count(r.drop_last(), t as u32) == 0);
        assert(r.last() == t as u32);
        assert(count(r, t as u32) == count(r.drop_last(), t as u32) + 1);
    } else {
        let w2 = w / 2;
        let q = choose|q: int| q >= 0 && x + 1 == #[trigger] (q * (2 * w)) + w;
        assert(w == 2 * w2);
        let y = q * (2 * w2) + w2;
        assert(x + 1 == 2 * y) by (nonlinear_arith)
            requires
                x + 1 == q * (2 * w) + w,
                w == 2 * w2,
                y == q * (2 * w2) + w2,
        ;
        assert(q * (2 * w2) >= 0) by (nonlinear_arith)
            requires
                q >= 0,
                w2 >= 1,
        ;
        assert(t != x);
        assert(descent(x, w, t)[0].0 as int == x);
        assert(node_at(nodes, x) is None);
        let left = x - w2;
        let right = x + w2;
        assert(left + 1 == (2 * q) * (2 * w2) + w2) by (nonlinear_arith)
            requires
                x + 1 == 2 * y,
                y == q * (2 * w2) + w2,
                left == x - w2,
        ;
        assert(right + 1 == (2 * q + 1) * (2 * w2) + w2) by (nonlinear_arith)
            requires
                x + 1 == 2 * y,
                y == q * (2 * w2) + w2,
                right == x + w2,
        ;
        assert(2 * q >= 0);
        assert(aligned(left, w2));
        assert(aligned(right, w2));
        let ra = resolution(nodes, left, w2);
        let rb = resolution(nodes, right, w2);
        assert(resolution(nodes, x, w) == ra + rb);
        lemma_count_concat(ra, rb, t as u32);
        if t < x {
            let d = descent(x, w, t);
            assert forall|k: int| 0 <= k < descent(left, w2, t).len() implies node_at(nodes, (#[trigger] descent(left, w2, t)[k]).0 as int) is None by {
                assert(descent(left, w2, t)[k] == d[k + 1]);
            }
            lemma_blank_descent_count(nodes, left, w2, t);
            lemma_resolution_in_subtree(nodes, right, w2);
            assert(!rb.contains(t as u32)) by {
                if rb.contains(t as u32) {
                    let i = choose|i: int| 0 <= i < rb.len() && rb[i] == t as u32;
                }
            }
            lemma_count_absent(rb, t as u32);
        } else {
            let d = descent(x, w, t);
            assert forall|k: int| 0 <= k < descent(right, w2, t).len() implies node_at(nodes, (#[trigger] descent(right, w2, t)[k]).0 as int) is None by {
                assert(descent(right, w2, t)[k] == d[k + 1]);
            }
            lemma_blank_descent_count(nodes, right, w2, t);
            lemma_resolution_in_subtree(nodes, left, w2);
            assert(!ra.contains(t as u32)) by {
                if ra.contains(t as u32) {
                    let i = choose|i: int| 0 <= i < ra.len() && ra[i] == t as u32;
                }
            }
            lemma_count_absent(ra, t as u32);
        }
    }
}


/// The subtree hanging below entry `j` of a descent on the way to `t` is a
/// well-placed subtree that holds `t`, and the rest of the descent is its own.
pub proof fn lemma_descent_sub(nodes: Seq<Option<Node>>, x: int, w: int, t: int, j: int)
    requires
        is_pow2(w),
        aligned(x, w),
        unmerged_local(nodes, x, w),
        x >= 0,
        x + w < 0x1_0000_0000,
        x - w + 1 <= t <= x + w - 1,
        t % 2 == 0,
        0 <= j < descent(x, w, t).len(),
    ensures
        ({
            let e = descent(x, w, t)[j];
            let c = path_child(e);
            let wc = (e.2 / 2) as int;
            &&& is_pow2(wc)
            &&& aligned(c, wc)
            &&& unmerged_local(nodes, c, wc)
            &&& c >= 0
            &&& c + wc < 0x1_0000_0000
            &&& c - wc + 1 <= t <= c + wc - 1
            &&& descent(c, wc, t) == descent(x, w, t).skip(j + 1)
        }),
    decreases w,
{
    let w2 = w / 2;
    let q = choose|q: int| q >= 0 && x + 1 == #[trigger] (q * (2 * w)) + w;
    assert(w == 2 * w2);
    let y = q * (2 * w2) + w2;
    assert(x + 1 == 2 * y) by (nonlinear_arith)
        requires
            x + 1 == q * (2 * w) + w,
            w == 2 * w2,
            y == q * (2 * w2) + w2,
    ;
    assert(q * (2 * w2) >= 0) by (nonlinear_arith)
        requires
            q >= 0,
            w2 >= 1,
    ;
    assert(t != x);
    let c = if t < x { x - w2 } else { x + w2 };
    if t < x {
        assert(c + 1 == (2 * q) * (2 * w2) + w2) by (nonlinear_arith)
            requires
                x + 1 == 2 * y,
                y == q * (2 * w2) + w2,
                c == x - w2,
        ;
        assert(2 * q >= 0);
    } else {
        assert(c + 1 == (2 * q + 1) * (2 * w2) + w2) by (nonlinear_arith)
            requires
                x + 1 == 2 * y,
                y == q * (2 * w2) + w2,
                c == x + w2,
        ;
        assert(2 * q + 1 >= 0);
    }
    assert(aligned(c, w2));
    let d = descent(x, w, t);
    assert(d == seq![d[0]] + descent(c, w2, t));
    if j == 0 {
        assert(path_child(d[0]) == c);
        assert(d.skip(1) =~= descent(c, w2, t));
    } else {
        lemma_descent_sub(nodes, c, w2, t, j - 1);
        assert(d[j] == descent(c, w2, t)[j - 1]);
        assert(descent(c, w2, t).skip(j) =~= d.skip(j + 1));
    }
}

/// The entries of `p` above position `j` (towards the leaf) and below `k`
/// are blank when `j` is the first non-blank one found from `k` down.
pub proof fn lemma_first_nonblank_gap(nodes: Seq<Option<Node>>, p: Seq<(u32, u32, u32)>, k: int)
    requires
        0 <= k <= p.len(),
    ensures
        first_nonblank(nodes, p, k) < k,
        first_nonblank(nodes, p, k) >= -1,
        forall|i: int| first_nonblank(nodes, p, k) < i < k ==> node_at(nodes, (#[trigger] p[i]).0 as int) is None,
        first_nonblank(nodes, p, k) >= 0 ==> node_at(nodes, p[first_nonblank(nodes, p, k)].0 as int) is Some,
    decreases k,
{
    if k > 0 && node_at(nodes, p[k - 1].0 as int) is None {
        lemma_first_nonblank_gap(nodes, p, k - 1);
    }
}

/// A non-blank leaf appears exactly once in the resolution of the child, on
/// its side, of its first non-blank ancestor, in a tree whose parents list as
/// unmerged only leaves of their own subtrees.
pub proof fn lemma_leaf_once_in_resolution(t: &TreeKemPublic, leaf: crate::tree_kem::LeafIndex)
    requires
        t.wf(),
        leaf.0 < t.spec_leaf_count(),
        node_at(t.nodes@, 2 * leaf.0) matches Some(Node::Leaf(_)),
        unmerged_local(t.nodes@, t.root().0, t.root().1),
        first_nonblank(
            t.nodes@,
            descent(t.root().0, t.root().1, 2 * leaf.0),
            descent(t.root().0, t.root().1, 2 * leaf.0).len() as int,
        ) >= 0,
    ensures
        ({
            let p = descent(t.root().0, t.root().1, 2 * leaf.0);
            let e = p[first_nonblank(t.nodes@, p, p.len() as int)];
            count(resolution(t.nodes@, path_child(e), (e.2 / 2) as int), (2 * leaf.0) as u32) == 1
        }),
{
    let n = t.spec_leaf_count();
    let nodes = t.nodes@;
    let p = descent(n - 1, n, 2 * leaf.0);
    let j = first_nonblank(nodes, p, p.len() as int);
    lemma_first_nonblank_gap(nodes, p, p.len() as int);
    assert(n - 1 + 1 == 0 * (2 * n) + n);
    assert(aligned(n - 1, n));
    lemma_descent_sub(nodes, n - 1, n, 2 * leaf.0, j);
    let e = p[j];
    let c = path_child(e);
    let wc = (e.2 / 2) as int;
    assert forall|k: int| 0 <= k < descent(c, wc, 2 * leaf.0).len() implies node_at(nodes, (#[trigger] descent(c, wc, 2 * leaf.0)[k]).0 as int) is None by {
        assert(descent(c, wc, 2 * leaf.0)[k] == p[j + 1 + k]);
    }
    lemma_blank_descent_count(nodes, c, wc, 2 * leaf.0);
}

} // verus!
