//! Handshake and application messages and their wire encoding.
use vstd::prelude::*;
use crate::cipher_suite::CipherSuite;
use crate::codec::{
    enc_bytes, enc_opt_bytes, enc_u16, enc_u32, enc_u64, write_bytes, write_opt_bytes, write_u16,
    write_u32, write_u64, write_u8,
};
use crate::tree_kem::{
    enc_leaf_node, fits_u32, write_leaf_node, HpkeCiphertext, LeafNode, UpdatePathNode,
    ValidatedUpdatePath,
};

verus! {

/// A member's offer to join: its leaf and the key that welcome secrets are
/// sealed to.
#[derive(Clone, Debug)]
pub struct KeyPackage {
    pub cipher_suite: CipherSuite,
    pub hpke_init_key: Vec<u8>,
    pub leaf_node: LeafNode,
}

#[derive(Clone, Copy, Debug, PartialEq, Eq, Structural)]
pub enum ProposalType {
    Reserved,
    Add,
    Update,
    Remove,
}

#[derive(Clone, Debug)]
pub struct AddProposal {
    pub key_package: KeyPackage,
}

#[derive(Clone, Debug)]
pub struct UpdateProposal {
    pub key_package: KeyPackage,
}

#[derive(Clone, Copy, Debug, PartialEq, Eq, Structural)]
pub struct RemoveProposal {
    pub to_remove: u32,
}

#[derive(Clone, Debug)]
pub enum Proposal {
    Add(AddProposal),
    Update(UpdateProposal),
    Remove(RemoveProposal),
}

#[derive(Clone, Copy, Debug, PartialEq, Eq, Structural)]
pub enum ProposalOrRefType {
    Reserved,
    Proposal,
    Reference,
}

#[derive(Clone, Debug)]
pub enum ProposalOrRef {
    Proposal(Proposal),
    Reference(Vec<u8>),
}

#[derive(Clone, Debug)]
pub struct Commit {
    pub proposals: Vec<ProposalOrRef>,
    pub path: Option<ValidatedUpdatePath>,
}

#[derive(Clone, Debug)]
pub enum Content {
    Application(Vec<u8>),
    Proposal(Proposal),
    Commit(Commit),
}

/// A framed message in the clear, signed by its sender.
#[derive(Clone, Debug)]
pub struct MLSPlaintext {
    pub group_id: Vec<u8>,
    pub epoch: u64,
    pub sender: u32,
    pub authenticated_data: Vec<u8>,
    pub content: Content,
    pub signature: Vec<u8>,
    pub confirmation_tag: Option<Vec<u8>>,
    pub membership_tag: Option<Vec<u8>>,
}

/// A framed message whose content and sender are encrypted.
#[derive(Clone, Debug)]
pub struct MLSCiphertext {
    pub group_id: Vec<u8>,
    pub epoch: u64,
    pub content_type: u8,
    pub authenticated_data: Vec<u8>,
    pub encrypted_sender_data: Vec<u8>,
    pub ciphertext: Vec<u8>,
}

impl ProposalType {
    pub open spec fn spec_raw(self) -> u8 {
        match self {
            ProposalType::Reserved => 0,
            ProposalType::Add => 1,
            ProposalType::Update => 2,
            ProposalType::Remove => 3,
        }
    }

    pub fn raw(&self) -> (r: u8)
        ensures
            r == self.spec_raw(),
    {
        match self {
            ProposalType::Reserved => 0,
            ProposalType::Add => 1,
            ProposalType::Update => 2,
            ProposalType::Remove => 3,
        }
    }
}

impl ProposalOrRefType {
    pub open spec fn spec_raw(self) -> u8 {
        match self {
            ProposalOrRefType::Reserved => 0,
            ProposalOrRefType::Proposal => 1,
            ProposalOrRefType::Reference => 2,
        }
    }

    pub fn raw(&self) -> (r: u8)
        ensures
            r == self.spec_raw(),
    {
        match self {
            ProposalOrRefType::Reserved => 0,
            ProposalOrRefType::Proposal => 1,
            ProposalOrRefType::Reference => 2,
        }
    }
}

impl Proposal {
    pub fn is_add(&self) -> (r: bool)
        ensures
            r == self is Add,
    {
        matches!(self, Proposal::Add(_))
    }

    pub fn as_add(&self) -> (r: Option<&AddProposal>)
        ensures
            match self {
                Proposal::Add(a) => r == Some(a),
                _ => r is None,
            },
    {
        match self {
            Proposal::Add(add) => Some(add),
            _ => None,
        }
    }

    pub fn is_update(&self) -> (r: bool)
        ensures
            r == self is Update,
    {
        matches!(self, Proposal::Update(_))
    }

    pub fn as_update(&self) -> (r: Option<&UpdateProposal>)
        ensures
            match self {
                Proposal::Update(u) => r == Some(u),
                _ => r is None,
            },
    {
        match self {
            Proposal::Update(update) => Some(update),
            _ => None,
        }
    }

    pub fn is_remove(&self) -> (r: bool)
        ensures
            r == self is Remove,
    {
        matches!(self, Proposal::Remove(_))
    }

    /// The type of this proposal.
    pub fn proposal_type(&self) -> (r: ProposalType)
        ensures
            r == match self {
                Proposal::Add(_) => ProposalType::Add,
                Proposal::Update(_) => ProposalType::Update,
                Proposal::Remove(_) => ProposalType::Remove,
            },
    {
        match self {
            Proposal::Add(_) => ProposalType::Add,
            Proposal::Update(_) => ProposalType::Update,
            Proposal::Remove(_) => ProposalType::Remove,
        }
    }
}

// ---- well-formedness: every length fits its prefix ----

impl KeyPackage {
    pub open spec fn wf(&self) -> bool {
        fits_u32(self.hpke_init_key@) && self.leaf_node.wf()
    }
}

impl Proposal {
    pub open spec fn wf(&self) -> bool {
        match self {
            Proposal::Add(a) => a.key_package.wf(),
            Proposal::Update(u) => u.key_package.wf(),
            Proposal::Remove(_) => true,
        }
    }
}

impl ProposalOrRef {
    pub open spec fn wf(&self) -> bool {
        match self {
            ProposalOrRef::Proposal(p) => p.wf(),
            ProposalOrRef::Reference(r) => fits_u32(r@),
        }
    }
}

pub open spec fn ct_wf(c: HpkeCiphertext) -> bool {
    fits_u32(c.kem_output@) && fits_u32(c.ciphertext@)
}

pub open spec fn path_node_wf(n: UpdatePathNode) -> bool {
    &&& fits_u32(n.public_key@)
    &&& n.encrypted_path_secret@.len() <= u32::MAX
    &&& forall|i: int| 0 <= i < n.encrypted_path_secret@.len() ==> ct_wf(#[trigger] n.encrypted_path_secret@[i])
}

pub open spec fn path_wf(p: ValidatedUpdatePath) -> bool {
    &&& p.leaf_node.wf()
    &&& p.nodes@.len() <= u32::MAX
    &&& forall|i: int| 0 <= i < p.nodes@.len() ==> path_node_wf(#[trigger] p.nodes@[i])
}

impl Commit {
    pub open spec fn wf(&self) -> bool {
        &&& self.proposals@.len() <= u32::MAX
        &&& forall|i: int| 0 <= i < self.proposals@.len() ==> (#[trigger] self.proposals@[i]).wf()
        &&& (self.path matches Some(p) ==> path_wf(p))
    }
}

impl Content {
    pub open spec fn wf(&self) -> bool {
        match self {
            Content::Application(a) => fits_u32(a@),
            Content::Proposal(p) => p.wf(),
            Content::Commit(c) => c.wf(),
        }
    }
}

impl MLSPlaintext {
    pub open spec fn wf(&self) -> bool {
        &&& fits_u32(self.group_id@)
        &&& fits_u32(self.authenticated_data@)
        &&& self.content.wf()
        &&& fits_u32(self.signature@)
        &&& (self.confirmation_tag matches Some(t) ==> fits_u32(t@))
        &&& (self.membership_tag matches Some(t) ==> fits_u32(t@))
    }
}

// ---- encodings ----

pub open spec fn enc_key_package(kp: KeyPackage) -> Seq<u8> {
    enc_u16(kp.cipher_suite.spec_raw()) + enc_bytes(kp.hpke_init_key@) + enc_leaf_node(kp.leaf_node)
}

pub open spec fn enc_proposal(p: Proposal) -> Seq<u8> {
    match p {
        Proposal::Add(a) => seq![1u8] + enc_key_package(a.key_package),
        Proposal::Update(u) => seq![2u8] + enc_key_package(u.key_package),
        Proposal::Remove(r) => seq![3u8] + enc_u32(r.to_remove),
    }
}

pub open spec fn enc_proposal_or_ref(x: ProposalOrRef) -> Seq<u8> {
    match x {
        ProposalOrRef::Proposal(p) => seq![1u8] + enc_proposal(p),
        ProposalOrRef::Reference(r) => seq![2u8] + enc_bytes(r@),
    }
}

pub open spec fn enc_por_items(s: Seq<ProposalOrRef>) -> Seq<u8>
    decreases s.len(),
{
    if s.len() == 0 {
        Seq::empty()
    } else {
        enc_por_items(s.drop_last()) + enc_proposal_or_ref(s.last())
    }
}

pub open spec fn enc_ct(c: HpkeCiphertext) -> Seq<u8> {
    enc_bytes(c.kem_output@) + enc_bytes(c.ciphertext@)
}

pub open spec fn enc_ct_items(s: Seq<HpkeCiphertext>) -> Seq<u8>
    decreases s.len(),
{
    if s.len() == 0 {
        Seq::empty()
    } else {
        enc_ct_items(s.drop_last()) + enc_ct(s.last())
    }
}

pub open spec fn enc_path_node(n: UpdatePathNode) -> Seq<u8> {
    enc_bytes(n.public_key@) + enc_u32(n.encrypted_path_secret@.len() as u32) + enc_ct_items(
        n.encrypted_path_secret@,
    )
}

pub open spec fn enc_path_node_items(s: Seq<UpdatePathNode>) -> Seq<u8>
    decreases s.len(),
{
    if s.len() == 0 {
        Seq::empty()
    } else {
        enc_path_node_items(s.drop_last()) + enc_path_node(s.last())
    }
}

pub open spec fn enc_update_path(p: ValidatedUpdatePath) -> Seq<u8> {
    enc_leaf_node(p.leaf_node) + enc_u32(p.nodes@.len() as u32) + enc_path_node_items(p.nodes@)
}

pub open spec fn enc_commit(c: Commit) -> Seq<u8> {
    enc_u32(c.proposals@.len() as u32) + enc_por_items(c.proposals@) + match c.path {
        Some(p) => seq![1u8] + enc_update_path(p),
        None => seq![0u8],
    }
}

pub open spec fn enc_content(c: Content) -> Seq<u8> {
    match c {
        Content::Application(a) => seq![1u8] + enc_bytes(a@),
        Content::Proposal(p) => seq![2u8] + enc_proposal(p),
        Content::Commit(c) => seq![3u8] + enc_commit(c),
    }
}

pub open spec fn opt_view(o: Option<Vec<u8>>) -> Option<Seq<u8>> {
    match o {
        Some(v) => Some(v@),
        None => None,
    }
}

/// The part of a plaintext that its signature covers, before the group
/// context.
pub open spec fn enc_tbs(m: MLSPlaintext) -> Seq<u8> {
    enc_bytes(m.group_id@) + enc_u64(m.epoch) + enc_u32(m.sender) + enc_bytes(
        m.authenticated_data@,
    ) + enc_content(m.content)
}

pub open spec fn enc_plaintext(m: MLSPlaintext) -> Seq<u8> {
    enc_tbs(m) + enc_bytes(m.signature@) + enc_opt_bytes(opt_view(m.confirmation_tag))
        + enc_opt_bytes(opt_view(m.membership_tag))
}

// ---- writers ----

pub fn write_key_package(out: &mut Vec<u8>, kp: &KeyPackage)
    requires
        kp.wf(),
    ensures
        final(out)@ == old(out)@ + enc_key_package(*kp),
{
    write_u16(out, kp.cipher_suite.raw());
    write_bytes(out, kp.hpke_init_key.as_slice());
    write_leaf_node(out, &kp.leaf_node);
    assert(final(out)@ =~= old(out)@ + enc_key_package(*kp));
}

pub fn write_proposal(out: &mut Vec<u8>, p: &Proposal)
    requires
        p.wf(),
    ensures
        final(out)@ == old(out)@ + enc_proposal(*p),
{
    match p {
        Proposal::Add(a) => {
            write_u8(out, 1);
            write_key_package(out, &a.key_package);
        },
        Proposal::Update(u) => {
            write_u8(out, 2);
            write_key_package(out, &u.key_package);
        },
        Proposal::Remove(r) => {
            write_u8(out, 3);
            write_u32(out, r.to_remove);
        },
    }
    assert(final(out)@ =~= old(out)@ + enc_proposal(*p));
}

pub fn write_proposal_or_ref(out: &mut Vec<u8>, x: &ProposalOrRef)
    requires
        x.wf(),
    ensures
        final(out)@ == old(out)@ + enc_proposal_or_ref(*x),
{
    match x {
        ProposalOrRef::Proposal(p) => {
            write_u8(out, 1);
            write_proposal(out, p);
        },
        ProposalOrRef::Reference(r) => {
            write_u8(out, 2);
            write_bytes(out, r.as_slice());
        },
    }
    assert(final(out)@ =~= old(out)@ + enc_proposal_or_ref(*x));
}

pub fn write_ct(out: &mut Vec<u8>, c: &HpkeCiphertext)
    requires
        ct_wf(*c),
    ensures
        final(out)@ == old(out)@ + enc_ct(*c),
{
    write_bytes(out, c.kem_output.as_slice());
    write_bytes(out, c.ciphertext.as_slice());
    assert(final(out)@ =~= old(out)@ + enc_ct(*c));
}

pub fn write_path_node(out: &mut Vec<u8>, n: &UpdatePathNode)
    requires
        path_node_wf(*n),
    ensures
        final(out)@ == old(out)@ + enc_path_node(*n),
{
    write_bytes(out, n.public_key.as_slice());
    write_u32(out, n.encrypted_path_secret.len() as u32);
    let ghost start = out@;
    let mut i: usize = 0;
    while i < n.encrypted_path_secret.len()
        invariant
            path_node_wf(*n),
            i <= n.encrypted_path_secret@.len(),
            out@ == start + enc_ct_items(n.encrypted_path_secret@.take(i as int)),
        decreases n.encrypted_path_secret@.len() - i,
    {
        write_ct(out, &n.encrypted_path_secret[i]);
        assert(n.encrypted_path_secret@.take(i + 1).drop_last() =~= n.encrypted_path_secret@.take(i as int));
        i = i + 1;
        assert(out@ =~= start + enc_ct_items(n.encrypted_path_secret@.take(i as int)));
    }
    assert(n.encrypted_path_secret@.take(i as int) =~= n.encrypted_path_secret@);
    assert(final(out)@ =~= old(out)@ + enc_path_node(*n));
}

pub fn write_update_path(out: &mut Vec<u8>, p: &ValidatedUpdatePath)
    requires
        path_wf(*p),
    ensures
        final(out)@ == old(out)@ + enc_update_path(*p),
{
    write_leaf_node(out, &p.leaf_node);
    write_u32(out, p.nodes.len() as u32);
    let ghost start = out@;
    let mut i: usize = 0;
    while i < p.nodes.len()
        invariant
            path_wf(*p),
            i <= p.nodes@.len(),
            out@ == start + enc_path_node_items(p.nodes@.take(i as int)),
        decreases p.nodes@.len() - i,
    {
        write_path_node(out, &p.nodes[i]);
        assert(p.nodes@.take(i + 1).drop_last() =~= p.nodes@.take(i as int));
        i = i + 1;
        assert(out@ =~= start + enc_path_node_items(p.nodes@.take(i as int)));
    }
    assert(p.nodes@.take(i as int) =~= p.nodes@);
    assert(final(out)@ =~= old(out)@ + enc_update_path(*p));
}

pub fn write_commit(out: &mut Vec<u8>, c: &Commit)
    requires
        c.wf(),
    ensures
        final(out)@ == old(out)@ + enc_commit(*c),
{
    write_u32(out, c.proposals.len() as u32);
    let ghost start = out@;
    let mut i: usize = 0;
    while i < c.proposals.len()
        invariant
            c.wf(),
            i <= c.proposals@.len(),
            out@ == start + enc_por_items(c.proposals@.take(i as int)),
        decreases c.proposals@.len() - i,
    {
        write_proposal_or_ref(out, &c.proposals[i]);
        assert(c.proposals@.take(i + 1).drop_last() =~= c.proposals@.take(i as int));
        i = i + 1;
        assert(out@ =~= start + enc_por_items(c.proposals@.take(i as int)));
    }
    assert(c.proposals@.take(i as int) =~= c.proposals@);
    match &c.path {
        Some(p) => {
            write_u8(out, 1);
            write_update_path(out, p);
        },
        None => {
            write_u8(out, 0);
        },
    }
    assert(final(out)@ =~= old(out)@ + enc_commit(*c));
}

pub fn write_content(out: &mut Vec<u8>, c: &Content)
    requires
        c.wf(),
    ensures
        final(out)@ == old(out)@ + enc_content(*c),
{
    match c {
        Content::Application(a) => {
            write_u8(out, 1);
            write_bytes(out, a.as_slice());
        },
        Content::Proposal(p) => {
            write_u8(out, 2);
            write_proposal(out, p);
        },
        Content::Commit(cm) => {
            write_u8(out, 3);
            write_commit(out, cm);
        },
    }
    assert(final(out)@ =~= old(out)@ + enc_content(*c));
}

pub fn write_tbs(out: &mut Vec<u8>, m: &MLSPlaintext)
    requires
        m.wf(),
    ensures
        final(out)@ == old(out)@ + enc_tbs(*m),
{
    write_bytes(out, m.group_id.as_slice());
    write_u64(out, m.epoch);
    write_u32(out, m.sender);
    write_bytes(out, m.authenticated_data.as_slice());
    write_content(out, &m.content);
    assert(final(out)@ =~= old(out)@ + enc_tbs(*m));
}

fn opt_slice(o: &Option<Vec<u8>>) -> (r: Option<&[u8]>)
    ensures
        match r {
            Some(s) => o matches Some(v) && s@ == v@,
            None => o is None,
        },
{
    match o {
        Some(v) => Some(v.as_slice()),
        None => None,
    }
}

/// The wire form of a plaintext message.
pub fn serialize_plaintext(m: &MLSPlaintext) -> (r: Vec<u8>)
    requires
        m.wf(),
    ensures
        r@ == enc_plaintext(*m),
{
    let mut out: Vec<u8> = Vec::new();
    write_tbs(&mut out, m);
    write_bytes(&mut out, m.signature.as_slice());
    write_opt_bytes(&mut out, opt_slice(&m.confirmation_tag));
    write_opt_bytes(&mut out, opt_slice(&m.membership_tag));
    assert(out@ =~= enc_plaintext(*m));
    out
}

} // verus!

verus! {

use crate::codec::{
    holds_at, lemma_holds_split, lemma_join, parse_bytes, parse_opt_bytes, parse_u16, parse_u32, parse_u64,
    parse_u8,
};
use crate::tree_kem::{enc_source, LeafNodeSource, ParentHash, SigningIdentity};

pub fn parse_source(data: &[u8], pos: usize) -> (r: Option<(LeafNodeSource, usize)>)
    ensures
        r matches Some((s, p)) ==> pos <= p <= data@.len() && (s matches LeafNodeSource::Commit(ph) ==> fits_u32(ph.0@))
            && data@.subrange(pos as int, p as int) == enc_source(s),
        forall|s: LeafNodeSource| (s matches LeafNodeSource::Commit(ph) ==> fits_u32(ph.0@))
            && #[trigger] holds_at(data@, pos as int, enc_source(s)) ==> (r matches Some((s2, p))
            && p == pos + enc_source(s).len() && crate::group::source_same(s, s2)),
{
    proof {
        assert forall|s: LeafNodeSource| (s matches LeafNodeSource::Commit(ph) ==> fits_u32(ph.0@))
            && #[trigger] holds_at(data@, pos as int, enc_source(s)) implies holds_at(data@, pos as int, crate::codec::enc_u8(
                match s { LeafNodeSource::KeyPackage => 1u8, LeafNodeSource::Update => 2u8, LeafNodeSource::Commit(_) => 3u8 },
            )) && (s matches LeafNodeSource::Commit(ph) ==> holds_at(data@, pos + 1, enc_bytes(ph.0@))) by {
            match s {
                LeafNodeSource::Commit(ph) => {
                    assert(enc_source(s) =~= crate::codec::enc_u8(3u8) + enc_bytes(ph.0@));
                    lemma_holds_split(data@, pos as int, crate::codec::enc_u8(3u8), enc_bytes(ph.0@));
                },
                LeafNodeSource::KeyPackage => {
                    assert(enc_source(s) =~= crate::codec::enc_u8(1u8));
                },
                LeafNodeSource::Update => {
                    assert(enc_source(s) =~= crate::codec::enc_u8(2u8));
                },
            }
        }
    }
    match parse_u8(data, pos) {
        Some((1, p)) => Some((LeafNodeSource::KeyPackage, p)),
        Some((2, p)) => Some((LeafNodeSource::Update, p)),
        Some((3, p)) => match parse_bytes(data, p) {
            Some((ph, q)) => {
                proof { lemma_join(data@, pos as int, p as int, q as int); }
                Some((LeafNodeSource::Commit(ParentHash(ph)), q))
            },
            None => None,
        },
        _ => None,
    }
}

pub fn parse_leaf_node(data: &[u8], pos: usize) -> (r: Option<(LeafNode, usize)>)
    ensures
        r matches Some((l, p)) ==> pos <= p <= data@.len() && l.wf() && data@.subrange(pos as int, p as int) == enc_leaf_node(l),
        forall|v: LeafNode| v.wf() && #[trigger] holds_at(data@, pos as int, enc_leaf_node(v)) ==> (r matches Some((l, p))
            && p == pos + enc_leaf_node(v).len() && crate::group::leaf_same(v, l)),
{
    proof {
        assert forall|v: LeafNode| v.wf() && #[trigger] holds_at(data@, pos as int, enc_leaf_node(v)) implies {
            let a = enc_bytes(v.public_key@);
            let b = enc_bytes(v.signing_identity.signature_key@);
            let c = enc_bytes(v.signing_identity.credential@);
            &&& holds_at(data@, pos as int, a)
            &&& holds_at(data@, pos + a.len(), b)
            &&& holds_at(data@, pos + a.len() + b.len(), c)
            &&& holds_at(data@, pos + a.len() + b.len() + c.len(), enc_source(v.leaf_node_source))
        } by {
            let a = enc_bytes(v.public_key@);
            let b = enc_bytes(v.signing_identity.signature_key@);
            let c = enc_bytes(v.signing_identity.credential@);
            let e = enc_source(v.leaf_node_source);
            lemma_holds_split(data@, pos as int, a + b + c, e);
            lemma_holds_split(data@, pos as int, a + b, c);
            lemma_holds_split(data@, pos as int, a, b);
        }
    }
    let (pk, at1) = match parse_bytes(data, pos) { Some(v) => v, None => { return None; } };
    let (sk, at2) = match parse_bytes(data, at1) { Some(v) => v, None => { return None; } };
    let (cred, at3) = match parse_bytes(data, at2) { Some(v) => v, None => { return None; } };
    let (src, at4) = match parse_source(data, at3) { Some(v) => v, None => { return None; } };
    proof {
        lemma_join(data@, pos as int, at1 as int, at2 as int);
        lemma_join(data@, pos as int, at2 as int, at3 as int);
        lemma_join(data@, pos as int, at3 as int, at4 as int);
    }
    let l = LeafNode {
        public_key: pk,
        signing_identity: SigningIdentity { signature_key: sk, credential: cred },
        leaf_node_source: src,
    };
    assert(data@.subrange(pos as int, at4 as int) =~= enc_leaf_node(l));
    Some((l, at4))
}

pub fn parse_key_package(data: &[u8], pos: usize) -> (r: Option<(KeyPackage, usize)>)
    ensures
        r matches Some((kp, p)) ==> pos <= p <= data@.len() && kp.wf() && data@.subrange(pos as int, p as int) == enc_key_package(kp),
        forall|v: KeyPackage| v.wf() && #[trigger] holds_at(data@, pos as int, enc_key_package(v)) ==> (r matches Some((kp, p))
            && p == pos + enc_key_package(v).len() && kp_same(v, kp)),
{
    proof {
        assert forall|v: KeyPackage| v.wf() && #[trigger] holds_at(data@, pos as int, enc_key_package(v)) implies {
            let a = enc_u16(v.cipher_suite.spec_raw());
            let b = enc_bytes(v.hpke_init_key@);
            &&& holds_at(data@, pos as int, a)
            &&& holds_at(data@, pos + a.len(), b)
            &&& holds_at(data@, pos + a.len() + b.len(), enc_leaf_node(v.leaf_node))
        } by {
            let a = enc_u16(v.cipher_suite.spec_raw());
            let b = enc_bytes(v.hpke_init_key@);
            lemma_holds_split(data@, pos as int, a + b, enc_leaf_node(v.leaf_node));
            lemma_holds_split(data@, pos as int, a, b);
        }
    }
    let (raw, at1) = match parse_u16(data, pos) { Some(v) => v, None => { return None; } };
    let cs = match CipherSuite::from_raw(raw) { Some(c) => c, None => { return None; } };
    let (init_key, at2) = match parse_bytes(data, at1) { Some(v) => v, None => { return None; } };
    let (leaf, at3) = match parse_leaf_node(data, at2) { Some(v) => v, None => { return None; } };
    proof {
        lemma_join(data@, pos as int, at1 as int, at2 as int);
        lemma_join(data@, pos as int, at2 as int, at3 as int);
    }
    let kp = KeyPackage { cipher_suite: cs, hpke_init_key: init_key, leaf_node: leaf };
    assert(data@.subrange(pos as int, at3 as int) =~= enc_key_package(kp));
    Some((kp, at3))
}

pub fn parse_proposal(data: &[u8], pos: usize) -> (r: Option<(Proposal, usize)>)
    ensures
        r matches Some((x, p)) ==> pos <= p <= data@.len() && x.wf() && data@.subrange(pos as int, p as int) == enc_proposal(x),
        forall|v: Proposal| v.wf() && #[trigger] holds_at(data@, pos as int, enc_proposal(v)) ==> (r matches Some((x, p))
            && p == pos + enc_proposal(v).len() && proposal_same(v, x)),
{
    proof {
        assert forall|v: Proposal| v.wf() && #[trigger] holds_at(data@, pos as int, enc_proposal(v)) implies {
            &&& holds_at(data@, pos as int, crate::codec::enc_u8(v.proposal_kind() as u8))
            &&& match v {
                Proposal::Add(a) => holds_at(data@, pos + 1, enc_key_package(a.key_package)),
                Proposal::Update(u) => holds_at(data@, pos + 1, enc_key_package(u.key_package)),
                Proposal::Remove(rm) => holds_at(data@, pos + 1, enc_u32(rm.to_remove)),
            }
        } by {
            match v {
                Proposal::Add(a) => {
                    assert(enc_proposal(v) =~= crate::codec::enc_u8(1u8) + enc_key_package(a.key_package));
                    lemma_holds_split(data@, pos as int, crate::codec::enc_u8(1u8), enc_key_package(a.key_package));
                },
                Proposal::Update(u) => {
                    assert(enc_proposal(v) =~= crate::codec::enc_u8(2u8) + enc_key_package(u.key_package));
                    lemma_holds_split(data@, pos as int, crate::codec::enc_u8(2u8), enc_key_package(u.key_package));
                },
                Proposal::Remove(rm) => {
                    assert(enc_proposal(v) =~= crate::codec::enc_u8(3u8) + enc_u32(rm.to_remove));
                    lemma_holds_split(data@, pos as int, crate::codec::enc_u8(3u8), enc_u32(rm.to_remove));
                },
            }
        }
    }
    let (tag, at1) = match parse_u8(data, pos) { Some(v) => v, None => { return None; } };
    if tag == 1 || tag == 2 {
        let (kp, at2) = match parse_key_package(data, at1) { Some(v) => v, None => { return None; } };
        proof { lemma_join(data@, pos as int, at1 as int, at2 as int); }
        let x = if tag == 1 { Proposal::Add(AddProposal { key_package: kp }) } else { Proposal::Update(UpdateProposal { key_package: kp }) };
        Some((x, at2))
    } else if tag == 3 {
        let (to_remove, at2) = match parse_u32(data, at1) { Some(v) => v, None => { return None; } };
        proof { lemma_join(data@, pos as int, at1 as int, at2 as int); }
        Some((Proposal::Remove(RemoveProposal { to_remove }), at2))
    } else {
        None
    }
}

pub fn parse_proposal_or_ref(data: &[u8], pos: usize) -> (r: Option<(ProposalOrRef, usize)>)
    ensures
        r matches Some((x, p)) ==> pos <= p <= data@.len() && x.wf() && data@.subrange(pos as int, p as int) == enc_proposal_or_ref(x),
        forall|v: ProposalOrRef| v.wf() && #[trigger] holds_at(data@, pos as int, enc_proposal_or_ref(v)) ==> (r matches Some((x, p))
            && p == pos + enc_proposal_or_ref(v).len() && por_same(v, x)),
{
    proof {
        assert forall|v: ProposalOrRef| v.wf() && #[trigger] holds_at(data@, pos as int, enc_proposal_or_ref(v)) implies {
            &&& holds_at(data@, pos as int, crate::codec::enc_u8(if v is Proposal { 1u8 } else { 2u8 }))
            &&& match v {
                ProposalOrRef::Proposal(x) => holds_at(data@, pos + 1, enc_proposal(x)),
                ProposalOrRef::Reference(b) => holds_at(data@, pos + 1, enc_bytes(b@)),
            }
        } by {
            match v {
                ProposalOrRef::Proposal(x) => {
                    assert(enc_proposal_or_ref(v) =~= crate::codec::enc_u8(1u8) + enc_proposal(x));
                    lemma_holds_split(data@, pos as int, crate::codec::enc_u8(1u8), enc_proposal(x));
                },
                ProposalOrRef::Reference(b) => {
                    assert(enc_proposal_or_ref(v) =~= crate::codec::enc_u8(2u8) + enc_bytes(b@));
                    lemma_holds_split(data@, pos as int, crate::codec::enc_u8(2u8), enc_bytes(b@));
                },
            }
        }
    }
    let (tag, at1) = match parse_u8(data, pos) { Some(v) => v, None => { return None; } };
    if tag == 1 {
        let (x, at2) = match parse_proposal(data, at1) { Some(v) => v, None => { return None; } };
        proof { lemma_join(data@, pos as int, at1 as int, at2 as int); }
        Some((ProposalOrRef::Proposal(x), at2))
    } else if tag == 2 {
        let (b, at2) = match parse_bytes(data, at1) { Some(v) => v, None => { return None; } };
        proof { lemma_join(data@, pos as int, at1 as int, at2 as int); }
        Some((ProposalOrRef::Reference(b), at2))
    } else {
        None
    }
}

pub fn parse_ct(data: &[u8], pos: usize) -> (r: Option<(HpkeCiphertext, usize)>)
    ensures
        r matches Some((c, p)) ==> pos <= p <= data@.len() && ct_wf(c) && data@.subrange(pos as int, p as int) == enc_ct(c),
        forall|v: HpkeCiphertext| ct_wf(v) && #[trigger] holds_at(data@, pos as int, enc_ct(v)) ==> (r matches Some((c, p))
            && p == pos + enc_ct(v).len() && ct_same(v, c)),
{
    proof {
        assert forall|v: HpkeCiphertext| ct_wf(v) && #[trigger] holds_at(data@, pos as int, enc_ct(v)) implies
            holds_at(data@, pos as int, enc_bytes(v.kem_output@)) && holds_at(data@, pos + enc_bytes(v.kem_output@).len(), enc_bytes(v.ciphertext@)) by {
            lemma_holds_split(data@, pos as int, enc_bytes(v.kem_output@), enc_bytes(v.ciphertext@));
        }
    }
    let (kem_output, at1) = match parse_bytes(data, pos) { Some(v) => v, None => { return None; } };
    let (ciphertext, at2) = match parse_bytes(data, at1) { Some(v) => v, None => { return None; } };
    proof { lemma_join(data@, pos as int, at1 as int, at2 as int); }
    Some((HpkeCiphertext { kem_output, ciphertext }, at2))
}

pub fn parse_path_node(data: &[u8], pos: usize) -> (r: Option<(UpdatePathNode, usize)>)
    ensures
        r matches Some((n, p)) ==> pos <= p <= data@.len() && path_node_wf(n) && data@.subrange(pos as int, p as int) == enc_path_node(n),
        forall|v: UpdatePathNode| path_node_wf(v) && #[trigger] holds_at(data@, pos as int, enc_path_node(v)) ==> (r matches Some((n, p))
            && p == pos + enc_path_node(v).len() && path_node_same(v, n)),
{
    proof {
        assert forall|v: UpdatePathNode| path_node_wf(v) && #[trigger] holds_at(data@, pos as int, enc_path_node(v)) implies {
            let a = enc_bytes(v.public_key@);
            &&& holds_at(data@, pos as int, a)
            &&& holds_at(data@, pos + a.len(), enc_u32(v.encrypted_path_secret@.len() as u32))
            &&& holds_at(data@, pos + a.len() + 4, enc_ct_items(v.encrypted_path_secret@))
        } by {
            let a = enc_bytes(v.public_key@);
            let c = enc_u32(v.encrypted_path_secret@.len() as u32);
            lemma_holds_split(data@, pos as int, a + c, enc_ct_items(v.encrypted_path_secret@));
            lemma_holds_split(data@, pos as int, a, c);
        }
    }
    let (pk, at1) = match parse_bytes(data, pos) { Some(v) => v, None => { return None; } };
    let (count, at2) = match parse_u32(data, at1) { Some(v) => v, None => { return None; } };
    let mut cts: Vec<HpkeCiphertext> = Vec::new();
    let mut q = at2;
    let mut i: u32 = 0;
    assert(data@.subrange(at2 as int, q as int) =~= enc_ct_items(cts@));
    proof {
        assert forall|v: UpdatePathNode| path_node_wf(v) && #[trigger] holds_at(data@, pos as int, enc_path_node(v)) implies
            q == at2 + enc_ct_items(v.encrypted_path_secret@.take(0)).len() by {
            assert(v.encrypted_path_secret@.take(0) =~= Seq::<HpkeCiphertext>::empty());
        }
    }
    while i < count
        invariant
            at2 <= q <= data@.len(),
            cts@.len() == i,
            i <= count,
            forall|k: int| 0 <= k < cts@.len() ==> ct_wf(#[trigger] cts@[k]),
            data@.subrange(at2 as int, q as int) == enc_ct_items(cts@),
            forall|v: UpdatePathNode| path_node_wf(v) && #[trigger] holds_at(data@, pos as int, enc_path_node(v)) ==> {
                &&& count == v.encrypted_path_secret@.len()
                &&& at2 == pos + enc_bytes(v.public_key@).len() + 4
                &&& holds_at(data@, at2 as int, enc_ct_items(v.encrypted_path_secret@))
                &&& q == at2 + enc_ct_items(v.encrypted_path_secret@.take(i as int)).len()
                &&& pk@ == v.public_key@
                &&& forall|k: int| 0 <= k < i ==> ct_same(#[trigger] v.encrypted_path_secret@[k], cts@[k])
            },
        decreases count - i,
    {
        proof {
            assert forall|v: UpdatePathNode| path_node_wf(v) && #[trigger] holds_at(data@, pos as int, enc_path_node(v)) implies
                holds_at(data@, q as int, enc_ct(v.encrypted_path_secret@[i as int]))
                && enc_ct_items(v.encrypted_path_secret@.take(i + 1)).len() == enc_ct_items(v.encrypted_path_secret@.take(i as int)).len()
                    + enc_ct(v.encrypted_path_secret@[i as int]).len() by {
                let s = v.encrypted_path_secret@;
                lemma_ct_items_prefix(data@, at2 as int, s, i + 1);
                assert(s.take(i + 1).drop_last() =~= s.take(i as int));
                lemma_holds_split(data@, at2 as int, enc_ct_items(s.take(i as int)), enc_ct(s[i as int]));
            }
        }
        let (c, q2) = match parse_ct(data, q) { Some(v) => v, None => { return None; } };
        proof { lemma_join(data@, at2 as int, q as int, q2 as int); }
        let ghost before = cts@;
        cts.push(c);
        assert(cts@.drop_last() =~= before);
        q = q2;
        i = i + 1;
    }
    proof {
        lemma_join(data@, pos as int, at1 as int, at2 as int);
        lemma_join(data@, pos as int, at2 as int, q as int);
        assert forall|v: UpdatePathNode| path_node_wf(v) && #[trigger] holds_at(data@, pos as int, enc_path_node(v)) implies
            v.encrypted_path_secret@.take(i as int) == v.encrypted_path_secret@ by {
            assert(v.encrypted_path_secret@.take(i as int) =~= v.encrypted_path_secret@);
        }
    }
    let n = UpdatePathNode { public_key: pk, encrypted_path_secret: cts };
    assert(data@.subrange(pos as int, q as int) =~= enc_path_node(n));
    Some((n, q))
}

pub fn parse_update_path(data: &[u8], pos: usize) -> (r: Option<(ValidatedUpdatePath, usize)>)
    ensures
        r matches Some((u, p)) ==> pos <= p <= data@.len() && path_wf(u) && data@.subrange(pos as int, p as int) == enc_update_path(u),
        forall|v: ValidatedUpdatePath| path_wf(v) && #[trigger] holds_at(data@, pos as int, enc_update_path(v)) ==> (r matches Some((u, p))
            && p == pos + enc_update_path(v).len() && path_same(v, u)),
{
    proof {
        assert forall|v: ValidatedUpdatePath| path_wf(v) && #[trigger] holds_at(data@, pos as int, enc_update_path(v)) implies {
            let a = enc_leaf_node(v.leaf_node);
            &&& holds_at(data@, pos as int, a)
            &&& holds_at(data@, pos + a.len(), enc_u32(v.nodes@.len() as u32))
            &&& holds_at(data@, pos + a.len() + 4, enc_path_node_items(v.nodes@))
        } by {
            let a = enc_leaf_node(v.leaf_node);
            let c = enc_u32(v.nodes@.len() as u32);
            lemma_holds_split(data@, pos as int, a + c, enc_path_node_items(v.nodes@));
            lemma_holds_split(data@, pos as int, a, c);
        }
    }
    let (leaf, at1) = match parse_leaf_node(data, pos) { Some(v) => v, None => { return None; } };
    let (count, at2) = match parse_u32(data, at1) { Some(v) => v, None => { return None; } };
    let mut nodes: Vec<UpdatePathNode> = Vec::new();
    let mut q = at2;
    let mut i: u32 = 0;
    assert(data@.subrange(at2 as int, q as int) =~= enc_path_node_items(nodes@));
    proof {
        assert forall|v: ValidatedUpdatePath| path_wf(v) && #[trigger] holds_at(data@, pos as int, enc_update_path(v)) implies
            q == at2 + enc_path_node_items(v.nodes@.take(0)).len() by {
            assert(v.nodes@.take(0) =~= Seq::<UpdatePathNode>::empty());
        }
    }
    while i < count
        invariant
            at2 <= q <= data@.len(),
            nodes@.len() == i,
            i <= count,
            forall|k: int| 0 <= k < nodes@.len() ==> path_node_wf(#[trigger] nodes@[k]),
            data@.subrange(at2 as int, q as int) == enc_path_node_items(nodes@),
            forall|v: ValidatedUpdatePath| path_wf(v) && #[trigger] holds_at(data@, pos as int, enc_update_path(v)) ==> {
                &&& count == v.nodes@.len()
                &&& at2 == pos + enc_leaf_node(v.leaf_node).len() + 4
                &&& holds_at(data@, at2 as int, enc_path_node_items(v.nodes@))
                &&& q == at2 + enc_path_node_items(v.nodes@.take(i as int)).len()
                &&& crate::group::leaf_same(v.leaf_node, leaf)
                &&& forall|k: int| 0 <= k < i ==> path_node_same(#[trigger] v.nodes@[k], nodes@[k])
            },
        decreases count - i,
    {
        proof {
            assert forall|v: ValidatedUpdatePath| path_wf(v) && #[trigger] holds_at(data@, pos as int, enc_update_path(v)) implies
                holds_at(data@, q as int, enc_path_node(v.nodes@[i as int]))
                && enc_path_node_items(v.nodes@.take(i + 1)).len() == enc_path_node_items(v.nodes@.take(i as int)).len()
                    + enc_path_node(v.nodes@[i as int]).len() by {
                let s = v.nodes@;
                lemma_path_node_items_prefix(data@, at2 as int, s, i + 1);
                assert(s.take(i + 1).drop_last() =~= s.take(i as int));
                lemma_holds_split(data@, at2 as int, enc_path_node_items(s.take(i as int)), enc_path_node(s[i as int]));
            }
        }
        let (n, q2) = match parse_path_node(data, q) { Some(v) => v, None => { return None; } };
        proof { lemma_join(data@, at2 as int, q as int, q2 as int); }
        let ghost before = nodes@;
        nodes.push(n);
        assert(nodes@.drop_last() =~= before);
        q = q2;
        i = i + 1;
    }
    proof {
        lemma_join(data@, pos as int, at1 as int, at2 as int);
        lemma_join(data@, pos as int, at2 as int, q as int);
        assert forall|v: ValidatedUpdatePath| path_wf(v) && #[trigger] holds_at(data@, pos as int, enc_update_path(v)) implies
            v.nodes@.take(i as int) == v.nodes@ by {
            assert(v.nodes@.take(i as int) =~= v.nodes@);
        }
    }
    let u = ValidatedUpdatePath { leaf_node: leaf, nodes };
    assert(data@.subrange(pos as int, q as int) =~= enc_update_path(u));
    Some((u, q))
}

pub fn parse_commit(data: &[u8], pos: usize) -> (r: Option<(Commit, usize)>)
    ensures
        r matches Some((c, p)) ==> pos <= p <= data@.len() && c.wf() && data@.subrange(pos as int, p as int) == enc_commit(c),
        forall|v: Commit| v.wf() && #[trigger] holds_at(data@, pos as int, enc_commit(v)) ==> (r matches Some((c, p))
            && p == pos + enc_commit(v).len() && commit_same(v, c)),
{
    proof {
        assert forall|v: Commit| v.wf() && #[trigger] holds_at(data@, pos as int, enc_commit(v)) implies {
            let c = enc_u32(v.proposals@.len() as u32);
            let b = enc_por_items(v.proposals@);
            &&& holds_at(data@, pos as int, c)
            &&& holds_at(data@, pos + 4, b)
            &&& holds_at(data@, pos + 4 + b.len(), crate::codec::enc_u8(if v.path is Some { 1u8 } else { 0u8 }))
            &&& (v.path matches Some(u) ==> holds_at(data@, pos + 4 + b.len() + 1, enc_update_path(u)))
        } by {
            let c = enc_u32(v.proposals@.len() as u32);
            let b = enc_por_items(v.proposals@);
            let t = match v.path {
                Some(u) => seq![1u8] + enc_update_path(u),
                None => seq![0u8],
            };
            assert(enc_commit(v) == c + b + t);
            lemma_holds_split(data@, pos as int, c + b, t);
            lemma_holds_split(data@, pos as int, c, b);
            match v.path {
                Some(u) => {
                    assert(t =~= crate::codec::enc_u8(1u8) + enc_update_path(u));
                    lemma_holds_split(data@, pos + 4 + b.len(), crate::codec::enc_u8(1u8), enc_update_path(u));
                },
                None => {
                    assert(t =~= crate::codec::enc_u8(0u8));
                },
            }
        }
    }
    let (count, at1) = match parse_u32(data, pos) { Some(v) => v, None => { return None; } };
    assert(data@.subrange(pos as int, at1 as int).len() == enc_u32(count).len());
    let mut proposals: Vec<ProposalOrRef> = Vec::new();
    let mut q = at1;
    let mut i: u32 = 0;
    assert(data@.subrange(at1 as int, q as int) =~= enc_por_items(proposals@));
    proof {
        assert forall|v: Commit| v.wf() && #[trigger] holds_at(data@, pos as int, enc_commit(v)) implies
            q == at1 + enc_por_items(v.proposals@.take(0)).len() by {
            assert(v.proposals@.take(0) =~= Seq::<ProposalOrRef>::empty());
        }
    }
    while i < count
        invariant
            at1 <= q <= data@.len(),
            at1 == pos + 4,
            proposals@.len() == i,
            i <= count,
            forall|k: int| 0 <= k < proposals@.len() ==> (#[trigger] proposals@[k]).wf(),
            data@.subrange(at1 as int, q as int) == enc_por_items(proposals@),
            forall|v: Commit| v.wf() && #[trigger] holds_at(data@, pos as int, enc_commit(v)) ==> {
                &&& count == v.proposals@.len()
                &&& holds_at(data@, at1 as int, enc_por_items(v.proposals@))
                &&& q == at1 + enc_por_items(v.proposals@.take(i as int)).len()
                &&& forall|k: int| 0 <= k < i ==> por_same(#[trigger] v.proposals@[k], proposals@[k])
            },
        decreases count - i,
    {
        proof {
            assert forall|v: Commit| v.wf() && #[trigger] holds_at(data@, pos as int, enc_commit(v)) implies
                holds_at(data@, q as int, enc_proposal_or_ref(v.proposals@[i as int]))
                && enc_por_items(v.proposals@.take(i + 1)).len() == enc_por_items(v.proposals@.take(i as int)).len()
                    + enc_proposal_or_ref(v.proposals@[i as int]).len() by {
                let s = v.proposals@;
                lemma_por_items_prefix(data@, at1 as int, s, i + 1);
                assert(s.take(i + 1).drop_last() =~= s.take(i as int));
                lemma_holds_split(data@, at1 as int, enc_por_items(s.take(i as int)), enc_proposal_or_ref(s[i as int]));
            }
        }
        let (x, q2) = match parse_proposal_or_ref(data, q) { Some(v) => v, None => { return None; } };
        proof { lemma_join(data@, at1 as int, q as int, q2 as int); }
        let ghost before = proposals@;
        proposals.push(x);
        assert(proposals@.drop_last() =~= before);
        q = q2;
        i = i + 1;
    }
    proof {
        assert forall|v: Commit| v.wf() && #[trigger] holds_at(data@, pos as int, enc_commit(v)) implies
            v.proposals@.take(i as int) == v.proposals@ by {
            assert(v.proposals@.take(i as int) =~= v.proposals@);
        }
    }
    let (tag, q3) = match parse_u8(data, q) { Some(v) => v, None => { return None; } };
    proof {
        lemma_join(data@, pos as int, at1 as int, q as int);
        lemma_join(data@, pos as int, q as int, q3 as int);
    }
    if tag == 0 {
        let c = Commit { proposals, path: None };
        assert(data@.subrange(pos as int, q3 as int) =~= enc_commit(c));
        Some((c, q3))
    } else if tag == 1 {
        let (u, q4) = match parse_update_path(data, q3) { Some(v) => v, None => { return None; } };
        proof {
            lemma_join(data@, pos as int, q3 as int, q4 as int);
            lemma_join(data@, q as int, q3 as int, q4 as int);
        }
        let c = Commit { proposals, path: Some(u) };
        assert(data@.subrange(pos as int, q4 as int) =~= enc_commit(c));
        Some((c, q4))
    } else {
        None
    }
}

pub fn parse_content(data: &[u8], pos: usize) -> (r: Option<(Content, usize)>)
    ensures
        r matches Some((c, p)) ==> pos <= p <= data@.len() && c.wf() && data@.subrange(pos as int, p as int) == enc_content(c),
        forall|v: Content| v.wf() && #[trigger] holds_at(data@, pos as int, enc_content(v)) ==> (r matches Some((c, p))
            && p == pos + enc_content(v).len() && content_same(v, c)),
{
    proof {
        assert forall|v: Content| v.wf() && #[trigger] holds_at(data@, pos as int, enc_content(v)) implies {
            &&& holds_at(data@, pos as int, crate::codec::enc_u8(match v {
                Content::Application(_) => 1u8,
                Content::Proposal(_) => 2u8,
                Content::Commit(_) => 3u8,
            }))
            &&& match v {
                Content::Application(x) => holds_at(data@, pos + 1, enc_bytes(x@)),
                Content::Proposal(x) => holds_at(data@, pos + 1, enc_proposal(x)),
                Content::Commit(x) => holds_at(data@, pos + 1, enc_commit(x)),
            }
        } by {
            match v {
                Content::Application(x) => {
                    assert(enc_content(v) =~= crate::codec::enc_u8(1u8) + enc_bytes(x@));
                    lemma_holds_split(data@, pos as int, crate::codec::enc_u8(1u8), enc_bytes(x@));
                },
                Content::Proposal(x) => {
                    assert(enc_content(v) =~= crate::codec::enc_u8(2u8) + enc_proposal(x));
                    lemma_holds_split(data@, pos as int, crate::codec::enc_u8(2u8), enc_proposal(x));
                },
                Content::Commit(x) => {
                    assert(enc_content(v) =~= crate::codec::enc_u8(3u8) + enc_commit(x));
                    lemma_holds_split(data@, pos as int, crate::codec::enc_u8(3u8), enc_commit(x));
                },
            }
        }
    }
    let (tag, at1) = match parse_u8(data, pos) { Some(v) => v, None => { return None; } };
    if tag == 1 {
        let (a, at2) = match parse_bytes(data, at1) { Some(v) => v, None => { return None; } };
        proof { lemma_join(data@, pos as int, at1 as int, at2 as int); }
        Some((Content::Application(a), at2))
    } else if tag == 2 {
        let (x, at2) = match parse_proposal(data, at1) { Some(v) => v, None => { return None; } };
        proof { lemma_join(data@, pos as int, at1 as int, at2 as int); }
        Some((Content::Proposal(x), at2))
    } else if tag == 3 {
        let (x, at2) = match parse_commit(data, at1) { Some(v) => v, None => { return None; } };
        proof { lemma_join(data@, pos as int, at1 as int, at2 as int); }
        Some((Content::Commit(x), at2))
    } else {
        None
    }
}

/// Reads a plaintext message that fills `data` exactly. What it gives back
/// serializes to `data` again; and the serialization of any well-formed
/// message is read back as a message with the same fields.
pub fn parse_plaintext(data: &[u8]) -> (r: Option<MLSPlaintext>)
    ensures
        r matches Some(m) ==> m.wf() && enc_plaintext(m) == data@,
        forall|m: MLSPlaintext| m.wf() && #[trigger] enc_plaintext(m) == data@ ==> (r matches Some(m2) && plaintext_same(m, m2)),
{
    proof {
        assert forall|m: MLSPlaintext| m.wf() && #[trigger] enc_plaintext(m) == data@ implies {
            let a = enc_bytes(m.group_id@);
            let b = enc_u64(m.epoch);
            let c = enc_u32(m.sender);
            let d = enc_bytes(m.authenticated_data@);
            let e = enc_content(m.content);
            let f = enc_bytes(m.signature@);
            let g = enc_opt_bytes(opt_view(m.confirmation_tag));
            let k = enc_opt_bytes(opt_view(m.membership_tag));
            &&& holds_at(data@, 0, a)
            &&& holds_at(data@, a.len() as int, b)
            &&& holds_at(data@, (a.len() + b.len()) as int, c)
            &&& holds_at(data@, (a.len() + b.len() + c.len()) as int, d)
            &&& holds_at(data@, (a.len() + b.len() + c.len() + d.len()) as int, e)
            &&& holds_at(data@, (a.len() + b.len() + c.len() + d.len() + e.len()) as int, f)
            &&& holds_at(data@, (a.len() + b.len() + c.len() + d.len() + e.len() + f.len()) as int, g)
            &&& holds_at(data@, (a.len() + b.len() + c.len() + d.len() + e.len() + f.len() + g.len()) as int, k)
            &&& data@.len() == a.len() + b.len() + c.len() + d.len() + e.len() + f.len() + g.len() + k.len()
        } by {
            let a = enc_bytes(m.group_id@);
            let b = enc_u64(m.epoch);
            let c = enc_u32(m.sender);
            let d = enc_bytes(m.authenticated_data@);
            let e = enc_content(m.content);
            let f = enc_bytes(m.signature@);
            let g = enc_opt_bytes(opt_view(m.confirmation_tag));
            let k = enc_opt_bytes(opt_view(m.membership_tag));
            assert(data@.subrange(0, data@.len() as int) =~= data@);
            assert(holds_at(data@, 0, a + b + c + d + e + f + g + k));
            lemma_holds_split(data@, 0, a + b + c + d + e + f + g, k);
            lemma_holds_split(data@, 0, a + b + c + d + e + f, g);
            lemma_holds_split(data@, 0, a + b + c + d + e, f);
            lemma_holds_split(data@, 0, a + b + c + d, e);
            lemma_holds_split(data@, 0, a + b + c, d);
            lemma_holds_split(data@, 0, a + b, c);
            lemma_holds_split(data@, 0, a, b);
        }
    }
    let (group_id, at1) = match parse_bytes(data, 0) { Some(v) => v, None => { return None; } };
    let (epoch, at2) = match parse_u64(data, at1) { Some(v) => v, None => { return None; } };
    let (sender, at3) = match parse_u32(data, at2) { Some(v) => v, None => { return None; } };
    let (authenticated_data, at4) = match parse_bytes(data, at3) { Some(v) => v, None => { return None; } };
    let (content, at5) = match parse_content(data, at4) { Some(v) => v, None => { return None; } };
    let (signature, at6) = match parse_bytes(data, at5) { Some(v) => v, None => { return None; } };
    let (confirmation_tag, at7) = match parse_opt_bytes(data, at6) { Some(v) => v, None => { return None; } };
    let (membership_tag, at8) = match parse_opt_bytes(data, at7) { Some(v) => v, None => { return None; } };
    if at8 != data.len() {
        return None;
    }
    proof {
        lemma_join(data@, 0, at1 as int, at2 as int);
        lemma_join(data@, 0, at2 as int, at3 as int);
        lemma_join(data@, 0, at3 as int, at4 as int);
        lemma_join(data@, 0, at4 as int, at5 as int);
        lemma_join(data@, 0, at5 as int, at6 as int);
        lemma_join(data@, 0, at6 as int, at7 as int);
        lemma_join(data@, 0, at7 as int, at8 as int);
        assert(data@.subrange(0, at8 as int) =~= data@);
    }
    let m = MLSPlaintext {
        group_id,
        epoch,
        sender,
        authenticated_data,
        content,
        signature,
        confirmation_tag,
        membership_tag,
    };
    assert(opt_view(m.confirmation_tag) == match m.confirmation_tag { Some(b) => Some(b@), None => None::<Seq<u8>> });
    assert(enc_plaintext(m) =~= data@);
    Some(m)
}


// ---- the other direction: every valid encoding is read back ----

pub open spec fn kp_same(a: KeyPackage, b: KeyPackage) -> bool {
    a.cipher_suite == b.cipher_suite && a.hpke_init_key@ == b.hpke_init_key@ && crate::group::leaf_same(a.leaf_node, b.leaf_node)
}

pub open spec fn proposal_same(a: Proposal, b: Proposal) -> bool {
    match a {
        Proposal::Add(x) => b matches Proposal::Add(y) && kp_same(x.key_package, y.key_package),
        Proposal::Update(x) => b matches Proposal::Update(y) && kp_same(x.key_package, y.key_package),
        Proposal::Remove(x) => b == Proposal::Remove(x),
    }
}

pub open spec fn por_same(a: ProposalOrRef, b: ProposalOrRef) -> bool {
    match a {
        ProposalOrRef::Proposal(p) => b matches ProposalOrRef::Proposal(q) && proposal_same(p, q),
        ProposalOrRef::Reference(r) => b matches ProposalOrRef::Reference(t) && r@ == t@,
    }
}

pub open spec fn ct_same(a: HpkeCiphertext, b: HpkeCiphertext) -> bool {
    a.kem_output@ == b.kem_output@ && a.ciphertext@ == b.ciphertext@
}

pub open spec fn path_node_same(a: UpdatePathNode, b: UpdatePathNode) -> bool {
    &&& a.public_key@ == b.public_key@
    &&& a.encrypted_path_secret@.len() == b.encrypted_path_secret@.len()
    &&& forall|i: int| 0 <= i < a.encrypted_path_secret@.len() ==> ct_same(#[trigger] a.encrypted_path_secret@[i], b.encrypted_path_secret@[i])
}

pub open spec fn path_same(a: ValidatedUpdatePath, b: ValidatedUpdatePath) -> bool {
    &&& crate::group::leaf_same(a.leaf_node, b.leaf_node)
    &&& a.nodes@.len() == b.nodes@.len()
    &&& forall|i: int| 0 <= i < a.nodes@.len() ==> path_node_same(#[trigger] a.nodes@[i], b.nodes@[i])
}

pub open spec fn commit_same(a: Commit, b: Commit) -> bool {
    &&& a.proposals@.len() == b.proposals@.len()
    &&& forall|i: int| 0 <= i < a.proposals@.len() ==> por_same(#[trigger] a.proposals@[i], b.proposals@[i])
    &&& match a.path {
        None => b.path is None,
        Some(p) => b.path matches Some(q) && path_same(p, q),
    }
}

pub open spec fn content_same(a: Content, b: Content) -> bool {
    match a {
        Content::Application(x) => b matches Content::Application(y) && x@ == y@,
        Content::Proposal(x) => b matches Content::Proposal(y) && proposal_same(x, y),
        Content::Commit(x) => b matches Content::Commit(y) && commit_same(x, y),
    }
}

/// Two plaintexts hold the same fields.
pub open spec fn plaintext_same(a: MLSPlaintext, b: MLSPlaintext) -> bool {
    &&& a.group_id@ == b.group_id@
    &&& a.epoch == b.epoch
    &&& a.sender == b.sender
    &&& a.authenticated_data@ == b.authenticated_data@
    &&& content_same(a.content, b.content)
    &&& a.signature@ == b.signature@
    &&& opt_view(a.confirmation_tag) == opt_view(b.confirmation_tag)
    &&& opt_view(a.membership_tag) == opt_view(b.membership_tag)
}

pub proof fn lemma_ct_items_prefix(d: Seq<u8>, p: int, s: Seq<HpkeCiphertext>, j: int)
    requires
        0 <= j <= s.len(),
        holds_at(d, p, enc_ct_items(s)),
    ensures
        holds_at(d, p, enc_ct_items(s.take(j))),
    decreases s.len() - j,
{
    if j < s.len() {
        let t = s.drop_last();
        lemma_holds_split(d, p, enc_ct_items(t), enc_ct(s.last()));
        assert(t.take(j) =~= s.take(j));
        lemma_ct_items_prefix(d, p, t, j);
    } else {
        assert(s.take(j) =~= s);
    }
}

pub proof fn lemma_path_node_items_prefix(d: Seq<u8>, p: int, s: Seq<UpdatePathNode>, j: int)
    requires
        0 <= j <= s.len(),
        holds_at(d, p, enc_path_node_items(s)),
    ensures
        holds_at(d, p, enc_path_node_items(s.take(j))),
    decreases s.len() - j,
{
    if j < s.len() {
        let t = s.drop_last();
        lemma_holds_split(d, p, enc_path_node_items(t), enc_path_node(s.last()));
        assert(t.take(j) =~= s.take(j));
        lemma_path_node_items_prefix(d, p, t, j);
    } else {
        assert(s.take(j) =~= s);
    }
}

pub proof fn lemma_por_items_prefix(d: Seq<u8>, p: int, s: Seq<ProposalOrRef>, j: int)
    requires
        0 <= j <= s.len(),
        holds_at(d, p, enc_por_items(s)),
    ensures
        holds_at(d, p, enc_por_items(s.take(j))),
    decreases s.len() - j,
{
    if j < s.len() {
        let t = s.drop_last();
        lemma_holds_split(d, p, enc_por_items(t), enc_proposal_or_ref(s.last()));
        assert(t.take(j) =~= s.take(j));
        lemma_por_items_prefix(d, p, t, j);
    } else {
        assert(s.take(j) =~= s);
    }
}

} // verus!
