//! The exported form of a ratchet tree, and the check that an imported tree
//! is well formed.
use vstd::prelude::*;
use crate::codec::{enc_u32, lemma_join, parse_bytes, parse_u32, parse_u8, write_u32, write_u8};
use crate::framing::parse_leaf_node;
use crate::tree_kem::{
    enc_leaf_list, enc_leaf_node, enc_parent_fields, is_pow2, leaf_count_of, leaf_set_ok, node_ok,
    nodes_wf, write_leaf_node, write_parent_fields, LeafIndex, Node, Parent, ParentHash,
    TreeKemPublic,
};

verus! {

pub open spec fn enc_slot(n: Option<Node>) -> Seq<u8> {
    match n {
        None => seq![0u8],
        Some(Node::Leaf(l)) => seq![1u8] + enc_leaf_node(l),
        Some(Node::Parent(p)) => seq![2u8] + enc_parent_fields(p.public_key@, p.parent_hash.0@, p.unmerged_leaves@),
    }
}

pub open spec fn enc_slots(s: Seq<Option<Node>>) -> Seq<u8>
    decreases s.len(),
{
    if s.len() == 0 {
        Seq::empty()
    } else {
        enc_slots(s.drop_last()) + enc_slot(s.last())
    }
}

pub open spec fn enc_node_data(s: Seq<Option<Node>>) -> Seq<u8> {
    enc_u32(s.len() as u32) + enc_slots(s)
}

pub fn is_pow2_exec(w: u32) -> (r: bool)
    ensures
        r == is_pow2(w as int),
    decreases w,
{
    if w <= 1 {
        w == 1
    } else {
        w % 2 == 0 && is_pow2_exec(w / 2)
    }
}

fn leaf_set_ok_exec(s: &[LeafIndex], n: u32) -> (r: bool)
    ensures
        r == leaf_set_ok(s@, n as int),
{
    let mut i: usize = 0;
    while i < s.len()
        invariant
            i <= s@.len(),
            forall|a: int, b: int| 0 <= a < b < i ==> s@[a].0 < s@[b].0,
            forall|a: int| 0 <= a < i ==> s@[a].0 < n,
        decreases s@.len() - i,
    {
        if s[i].0 >= n {
            return false;
        }
        if i > 0 && s[i - 1].0 >= s[i].0 {
            return false;
        }
        i = i + 1;
        assert forall|a: int, b: int| 0 <= a < b < i implies s@[a].0 < s@[b].0 by {
            if b == i - 1 && a < b - 1 {
                assert(s@[a].0 < s@[b - 1].0);
            }
        }
    }
    true
}

impl TreeKemPublic {
    /// Whether the tree is well formed: an odd number of slots whose leaf
    /// count is a power of two, leaves at even and parents at odd indices,
    /// every length within its prefix and every unmerged set ordered and in
    /// range.
    pub fn is_well_formed(&self) -> (r: bool)
        ensures
            r == self.wf(),
    {
        let len = self.nodes.len();
        if len % 2 != 1 || len >= 0x8000_0000 {
            return false;
        }
        let n = ((len + 1) / 2) as u32;
        if !is_pow2_exec(n) {
            return false;
        }
        let mut i: usize = 0;
        while i < len
            invariant
                len == self.nodes@.len(),
                len < 0x8000_0000,
                n == leaf_count_of(len as int),
                i <= len,
                forall|a: int| 0 <= a < i ==> #[trigger] node_ok(self.nodes@[a], a, n as int),
            decreases len - i,
        {
            let ok = match &self.nodes[i] {
                None => true,
                Some(Node::Leaf(l)) => i % 2 == 0 && crate::group::leaf_node_fits(l),
                Some(Node::Parent(p)) => i % 2 == 1 && p.public_key.len() <= u32::MAX as usize
                    && p.parent_hash.0.len() <= u32::MAX as usize && leaf_set_ok_exec(p.unmerged_leaves.as_slice(), n),
            };
            if !ok {
                assert(!node_ok(self.nodes@[i as int], i as int, n as int));
                return false;
            }
            i = i + 1;
        }
        true
    }

    /// The tree's slots in their wire form.
    pub fn export_node_data(&self) -> (r: Vec<u8>)
        requires
            self.wf(),
        ensures
            r@ == enc_node_data(self.nodes@),
    {
        let mut out: Vec<u8> = Vec::new();
        write_u32(&mut out, self.nodes.len() as u32);
        let ghost start = out@;
        let ghost n = self.spec_leaf_count();
        let mut i: usize = 0;
        while i < self.nodes.len()
            invariant
                self.wf(),
                n == self.spec_leaf_count(),
                i <= self.nodes@.len(),
                out@ == start + enc_slots(self.nodes@.take(i as int)),
            decreases self.nodes@.len() - i,
        {
            assert(node_ok(self.nodes@[i as int], i as int, n));
            match &self.nodes[i] {
                None => write_u8(&mut out, 0),
                Some(Node::Leaf(l)) => {
                    write_u8(&mut out, 1);
                    write_leaf_node(&mut out, l);
                },
                Some(Node::Parent(p)) => {
                    write_u8(&mut out, 2);
                    proof { crate::tree_kem::lemma_leaf_set_len(p.unmerged_leaves@, n); }
                    write_parent_fields(&mut out, p.public_key.as_slice(), p.parent_hash.0.as_slice(), p.unmerged_leaves.as_slice());
                },
            }
            assert(self.nodes@.take(i + 1).drop_last() =~= self.nodes@.take(i as int));
            i = i + 1;
            assert(out@ =~= start + enc_slots(self.nodes@.take(i as int)));
        }
        assert(self.nodes@.take(i as int) =~= self.nodes@);
        out
    }

    /// A tree read from its wire form; `None` unless the bytes are exactly
    /// the export of a well-formed tree.
    pub fn import_node_data(data: &[u8]) -> (r: Option<TreeKemPublic>)
        ensures
            r matches Some(t) ==> t.wf() && enc_node_data(t.nodes@) == data@,
    {
        let (count, at0) = match parse_u32(data, 0) { Some(v) => v, None => { return None; } };
        let mut nodes: Vec<Option<Node>> = Vec::new();
        let mut q = at0;
        let mut i: u32 = 0;
        assert(data@.subrange(at0 as int, q as int) =~= enc_slots(nodes@));
        while i < count
            invariant
                at0 <= q <= data@.len(),
                nodes@.len() == i,
                i <= count,
                data@.subrange(at0 as int, q as int) == enc_slots(nodes@),
            decreases count - i,
        {
            let (slot, q2) = match parse_slot(data, q) { Some(v) => v, None => { return None; } };
            proof { lemma_join(data@, at0 as int, q as int, q2 as int); }
            let ghost before = nodes@;
            nodes.push(slot);
            assert(nodes@.drop_last() =~= before);
            q = q2;
            i = i + 1;
        }
        if q != data.len() {
            return None;
        }
        proof {
            lemma_join(data@, 0, at0 as int, q as int);
            assert(data@.subrange(0, q as int) =~= data@);
        }
        let t = TreeKemPublic { nodes };
        if !t.is_well_formed() {
            return None;
        }
        assert(enc_node_data(t.nodes@) =~= data@);
        Some(t)
    }
}

fn parse_slot(data: &[u8], pos: usize) -> (r: Option<(Option<Node>, usize)>)
    ensures
        r matches Some((n, p)) ==> pos <= p <= data@.len() && data@.subrange(pos as int, p as int) == enc_slot(n),
{
    let (tag, at1) = match parse_u8(data, pos) { Some(v) => v, None => { return None; } };
    if tag == 0 {
        Some((None, at1))
    } else if tag == 1 {
        let (l, at2) = match parse_leaf_node(data, at1) { Some(v) => v, None => { return None; } };
        proof { lemma_join(data@, pos as int, at1 as int, at2 as int); }
        Some((Some(Node::Leaf(l)), at2))
    } else if tag == 2 {
        let (pk, at2) = match parse_bytes(data, at1) { Some(v) => v, None => { return None; } };
        let (ph, at3) = match parse_bytes(data, at2) { Some(v) => v, None => { return None; } };
        let (count, at4) = match parse_u32(data, at3) { Some(v) => v, None => { return None; } };
        let mut unmerged: Vec<LeafIndex> = Vec::new();
        let mut q = at4;
        let mut i: u32 = 0;
        assert(data@.subrange(at4 as int, q as int) =~= enc_leaf_list(unmerged@));
        while i < count
            invariant
                at4 <= q <= data@.len(),
                unmerged@.len() == i,
                i <= count,
                data@.subrange(at4 as int, q as int) == enc_leaf_list(unmerged@),
            decreases count - i,
        {
            let (l, q2) = match parse_u32(data, q) { Some(v) => v, None => { return None; } };
            proof { lemma_join(data@, at4 as int, q as int, q2 as int); }
            let ghost before = unmerged@;
            unmerged.push(LeafIndex(l));
            assert(unmerged@.drop_last() =~= before);
            q = q2;
            i = i + 1;
        }
        proof {
            lemma_join(data@, at1 as int, at2 as int, at3 as int);
            lemma_join(data@, at1 as int, at3 as int, at4 as int);
            lemma_join(data@, at1 as int, at4 as int, q as int);
            lemma_join(data@, pos as int, at1 as int, q as int);
        }
        let p = Parent { public_key: pk, parent_hash: ParentHash(ph), unmerged_leaves: unmerged };
        assert(data@.subrange(pos as int, q as int) =~= enc_slot(Some(Node::Parent(p))));
        Some((Some(Node::Parent(p)), q))
    } else {
        None
    }
}

} // verus!
