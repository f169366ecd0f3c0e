//! The group state machine: the current epoch's context, tree, secrets and
//! pending proposals, and the operations that move a member from one epoch
//! to the next.
use vstd::prelude::*;
use crate::cipher_suite::CipherSuite;
use crate::codec::{
    bytes_eq, copy_bytes, enc_bytes, enc_opt_bytes, enc_u64, write_bytes, write_opt_bytes,
    write_raw, write_u64, write_u8,
};
use crate::framing::{
    enc_content, enc_tbs, opt_view, write_content, write_tbs, AddProposal, Commit, Content,
    KeyPackage, MLSCiphertext, MLSPlaintext, Proposal, ProposalOrRef, UpdateProposal,
};
use crate::key_schedule::{spec_epoch_secret, spec_joiner_secret, EpochKeySchedule};
use crate::kdf::Label;
use crate::tree_kem::{fits_u32, node_at, HpkeCiphertext, LeafIndex, LeafNode, Node, TreeKemPublic};

verus! {

/// The cryptographic primitives of a cipher suite beyond its hash and HMAC,
/// supplied by the application.
pub trait CipherSuiteProvider {
    fn sign(&self, secret_key: &[u8], data: &[u8]) -> Vec<u8>;

    fn verify(&self, public_key: &[u8], signature: &[u8], data: &[u8]) -> bool;

    fn hpke_seal(&self, public_key: &[u8], aad: &[u8], plaintext: &[u8]) -> HpkeCiphertext;

    fn hpke_open(&self, secret_key: &[u8], ciphertext: &HpkeCiphertext, aad: &[u8]) -> Option<Vec<u8>>;

    fn aead_seal(&self, key: &[u8], nonce: &[u8], aad: &[u8], plaintext: &[u8]) -> Vec<u8>;

    fn aead_open(&self, key: &[u8], nonce: &[u8], aad: &[u8], ciphertext: &[u8]) -> Option<Vec<u8>>;

    /// The key pair (secret, public) derived from `ikm`.
    fn kem_derive(&self, ikm: &[u8]) -> (Vec<u8>, Vec<u8>);
}

/// A key package with its hash and the secret keys of its leaf.
#[derive(Clone, Debug)]
pub struct KeyPackageGeneration {
    pub key_package: KeyPackage,
    pub key_package_hash: Vec<u8>,
    pub secret_key: Vec<u8>,
    pub signing_key: Vec<u8>,
}

/// A proposal waiting in the cache, with who sent it.
#[derive(Clone, Debug)]
pub struct PendingProposal {
    pub proposal: Proposal,
    pub sender: LeafIndex,
}

#[derive(Clone, Debug)]
pub struct GroupContext {
    pub group_id: Vec<u8>,
    pub epoch: u64,
    pub tree_hash: Vec<u8>,
    pub confirmed_transcript_hash: Vec<u8>,
    pub extensions: Vec<u8>,
}

#[derive(Clone, Debug)]
pub struct GroupInfo {
    pub group_id: Vec<u8>,
    pub epoch: u64,
    pub tree_hash: Vec<u8>,
    pub confirmed_transcript_hash: Vec<u8>,
    pub extensions: Vec<u8>,
    pub confirmation_tag: Vec<u8>,
    pub signer_index: u32,
    pub signature: Vec<u8>,
}

#[derive(Clone, Debug)]
pub struct PathSecret {
    pub path_secret: Vec<u8>,
}

#[derive(Clone, Debug)]
pub struct GroupSecrets {
    pub joiner_secret: Vec<u8>,
    pub path_secret: Option<PathSecret>,
}

#[derive(Clone, Debug)]
pub struct EncryptedGroupSecrets {
    pub key_package_hash: Vec<u8>,
    pub encrypted_group_secrets: HpkeCiphertext,
}

#[derive(Clone, Debug)]
pub struct Welcome {
    pub protocol_version: u16,
    pub cipher_suite: CipherSuite,
    pub secrets: Vec<EncryptedGroupSecrets>,
    pub encrypted_group_info: Vec<u8>,
}

/// The secrets a member holds for nodes of the tree: its leaf's, and those
/// of the ancestors that the last update path gave it.
#[derive(Clone, Debug)]
pub struct TreeKemPrivate {
    pub self_index: LeafIndex,
    pub secret_keys: Vec<(u32, Vec<u8>)>,
}

/// A reference to a proposal: the first bytes of a hash over its framed
/// content.
#[derive(Clone, Debug)]
pub struct ProposalRef(pub Vec<u8>);

/// Failures of group operations.
#[derive(Debug)]
pub enum GroupError {
    CipherSuiteMismatch,
    MissingProposal(Vec<u8>),
    InvalidCommit,
    InvalidPlaintextEpoch,
    InvalidSignature,
    InvalidConfirmationTag,
    InvalidTreeKemPrivateKey,
    WelcomeKeyPackageNotFound,
    InvalidRatchetTree,
    AeadOpenFailure,
    HpkeOpenFailure,
    LeafNotFound,
    CodecError,
    EpochOverflow,
    DuplicateKeyPackage,
    InvalidMembershipTag,
}

/// A member's state in one epoch of a group.
#[derive(Clone, Debug)]
pub struct Group {
    pub cipher_suite: CipherSuite,
    pub context: GroupContext,
    pub public_tree: TreeKemPublic,
    pub private_tree: TreeKemPrivate,
    pub key_schedule: EpochKeySchedule,
    pub confirmation_tag: Vec<u8>,
    pub interim_transcript_hash: Vec<u8>,
    pub proposals: Vec<(Vec<u8>, PendingProposal)>,
    pub pending_updates: Vec<(Vec<u8>, Vec<u8>)>,
    /// The generation of the next message this member encrypts.
    pub next_generation: u32,
}

/// A commit made locally and not yet applied, with the secrets its path
/// used.
#[derive(Clone, Debug)]
pub struct PendingCommit {
    pub plaintext: MLSPlaintext,
    /// The tree the commit leads to.
    pub public_tree: TreeKemPublic,
    pub commit_secret: Vec<u8>,
    pub path_keys: Vec<(u32, Vec<u8>)>,
    pub welcome: Option<Welcome>,
}

pub open spec fn enc_context(c: GroupContext) -> Seq<u8> {
    enc_bytes(c.group_id@) + enc_u64(c.epoch) + enc_bytes(c.tree_hash@) + enc_bytes(
        c.confirmed_transcript_hash@,
    ) + enc_bytes(c.extensions@)
}

impl GroupContext {
    pub open spec fn wf(&self) -> bool {
        &&& self.group_id@.len() <= 0x1000_0000
        &&& self.tree_hash@.len() <= 64
        &&& self.confirmed_transcript_hash@.len() <= 64
        &&& self.extensions@.len() <= 0x1000_0000
    }

    /// The context of a new group: epoch 0 and an empty transcript.
    pub fn new_group(group_id: Vec<u8>, tree_hash: Vec<u8>, extensions: Vec<u8>) -> (r: GroupContext)
        ensures
            r.group_id == group_id,
            r.epoch == 0,
            r.tree_hash == tree_hash,
            r.confirmed_transcript_hash@.len() == 0,
            r.extensions == extensions,
    {
        GroupContext {
            group_id,
            epoch: 0,
            tree_hash,
            confirmed_transcript_hash: Vec::new(),
            extensions,
        }
    }

    /// The serialized context, which keys the epoch's secrets.
    pub fn to_bytes(&self) -> (r: Vec<u8>)
        requires
            self.wf(),
        ensures
            r@ == enc_context(*self),
            r@.len() <= u32::MAX,
    {
        let mut out: Vec<u8> = Vec::new();
        write_bytes(&mut out, self.group_id.as_slice());
        write_u64(&mut out, self.epoch);
        write_bytes(&mut out, self.tree_hash.as_slice());
        write_bytes(&mut out, self.confirmed_transcript_hash.as_slice());
        write_bytes(&mut out, self.extensions.as_slice());
        assert(out@ =~= enc_context(*self));
        out
    }
}

/// The confirmation tag of an epoch: the MAC of its confirmed transcript hash
/// under its confirmation key.
pub open spec fn spec_confirmation_tag(
    h: crate::crypto::Hash,
    key_schedule: EpochKeySchedule,
    context: GroupContext,
) -> Seq<u8> {
    h.spec_mac(key_schedule.confirmation_key@, context.confirmed_transcript_hash@)
}

pub fn confirmation_tag(h: &crate::crypto::Hash, confirmation_key: &[u8], confirmed_transcript_hash: &[u8]) -> (r: Vec<u8>)
    ensures
        r@ == h.spec_mac(confirmation_key@, confirmed_transcript_hash@),
        r@.len() == h.spec_size(),
{
    match h.mac(confirmation_key, confirmed_transcript_hash) {
        Ok(t) => t,
        Err(_) => Vec::new(),
    }
}

impl Group {
    pub open spec fn hash(&self) -> crate::crypto::Hash {
        crate::crypto::Hash::spec_new(self.cipher_suite)
    }

    /// The group's state hangs together: its tree is well formed, the member
    /// is in it, the secrets have their lengths, and the confirmation tag is
    /// the MAC of the confirmed transcript hash under the confirmation key.
    pub open spec fn wf(&self) -> bool {
        &&& self.public_tree.wf()
        &&& self.context.wf()
        &&& self.private_tree.self_index.0 < self.public_tree.spec_leaf_count()
        &&& self.key_schedule.wf(self.hash())
        &&& self.confirmation_tag@ == spec_confirmation_tag(self.hash(), self.key_schedule, self.context)
        &&& self.interim_transcript_hash@.len() <= 64
        &&& forall|i: int| 0 <= i < self.proposals@.len() ==> (#[trigger] self.proposals@[i]).1.proposal.wf()
            && self.proposals@[i].0@.len() <= u32::MAX
        &&& forall|i: int, j: int| 0 <= i < self.proposals@.len() && 0 <= j < self.proposals@.len() && i != j
            ==> (#[trigger] self.proposals@[i]).0@ != (#[trigger] self.proposals@[j]).0@
    }

    /// `x` is an Add, inline or through the cache.
    pub open spec fn resolves_to_add(&self, x: ProposalOrRef) -> bool {
        match x {
            ProposalOrRef::Proposal(p) => p is Add,
            ProposalOrRef::Reference(id) => exists|j: int| 0 <= j < self.proposals@.len() && (#[trigger] self.proposals@[j]).0@ == id@
                && self.proposals@[j].1.proposal is Add,
        }
    }

    /// A group of one member, the creator, at epoch 0, keyed from
    /// `init_secret`.
    pub fn new(group_id: Vec<u8>, creator_key_package: KeyPackageGeneration, init_secret: Vec<u8>) -> (r: Result<Group, GroupError>)
        ensures
            match r {
                Ok(g) => {
                    &&& g.wf()
                    &&& g.context.epoch == 0
                    &&& g.context.group_id == group_id
                    &&& g.cipher_suite == creator_key_package.key_package.cipher_suite
                    &&& g.public_tree.nodes@ == seq![Some(Node::Leaf(creator_key_package.key_package.leaf_node))]
                    &&& g.private_tree.self_index == LeafIndex(0)
                    &&& g.proposals@.len() == 0
                    &&& g.pending_updates@.len() == 0
                    &&& g.context.confirmed_transcript_hash@.len() == 0
                    &&& g.context.tree_hash@ == crate::tree_kem::tree_hash_excl(g.hash(), g.public_tree.nodes@, 0, 1, Seq::empty())
                    &&& g.key_schedule.derived_from(g.hash(), spec_epoch_secret(
                        g.hash(),
                        spec_joiner_secret(g.hash(), init_secret@, Seq::new(g.hash().spec_size(), |i: int| 0u8)),
                        Seq::new(g.hash().spec_size(), |i: int| 0u8),
                        enc_context(g.context),
                    ))
                },
                Err(e) => e is CodecError && !(group_id@.len() <= 0x1000_0000 && creator_key_package.key_package.leaf_node.wf()),
            },
    {
        if group_id.len() > 0x1000_0000 || !leaf_node_fits(&creator_key_package.key_package.leaf_node) {
            return Err(GroupError::CodecError);
        }
        let cipher_suite = creator_key_package.key_package.cipher_suite;
        let h = crate::crypto::Hash::new(cipher_suite);
        let mut public_tree = TreeKemPublic::new();
        let KeyPackageGeneration { key_package, key_package_hash, secret_key, signing_key } = creator_key_package;
        let ghost leaf = key_package.leaf_node;
        public_tree.nodes.set(0, Some(Node::Leaf(key_package.leaf_node)));
        assert(public_tree.nodes@ =~= seq![Some(Node::Leaf(leaf))]);
        assert(crate::tree_kem::node_ok(public_tree.nodes@[0], 0, 1));
        let tree_hash = public_tree.tree_hash(&h);
        let context = GroupContext::new_group(group_id, tree_hash, Vec::new());
        let context_bytes = context.to_bytes();
        let zeros = zero_bytes(h.size());
        let derivation = crate::key_schedule::derive(&h, init_secret.as_slice(), zeros.as_slice(), zeros.as_slice(), context_bytes.as_slice());
        let key_schedule = derivation.key_schedule;
        let tag = confirmation_tag(&h, key_schedule.confirmation_key.as_slice(), context.confirmed_transcript_hash.as_slice());
        let mut secret_keys: Vec<(u32, Vec<u8>)> = Vec::new();
        secret_keys.push((0, secret_key));
        Ok(Group {
            cipher_suite,
            context,
            public_tree,
            private_tree: TreeKemPrivate { self_index: LeafIndex(0), secret_keys },
            key_schedule,
            confirmation_tag: tag,
            interim_transcript_hash: Vec::new(),
            proposals: Vec::new(),
            pending_updates: Vec::new(),
            next_generation: 0,
        })
    }

    /// Add proposals for `key_packages`, which must all be of the group's
    /// cipher suite.
    pub fn add_member_proposals(&self, key_packages: Vec<KeyPackage>) -> (r: Result<Vec<Proposal>, GroupError>)
        ensures
            match r {
                Ok(ps) => (forall|k: int| 0 <= k < key_packages@.len() ==> (#[trigger] key_packages@[k]).cipher_suite == self.cipher_suite)
                    && ps@ == key_packages@.map_values(|kp: KeyPackage| Proposal::Add(AddProposal { key_package: kp })),
                Err(e) => e is CipherSuiteMismatch && exists|k: int| 0 <= k < key_packages@.len() && (#[trigger] key_packages@[k]).cipher_suite != self.cipher_suite,
            },
    {
        let ghost all = key_packages@;
        let mut rest = key_packages;
        let mut out: Vec<Proposal> = Vec::new();
        while rest.len() > 0
            invariant
                all == key_packages@,
                out@.len() + rest@.len() == all.len(),
                rest@ == all.skip(out@.len() as int),
                out@ == all.take(out@.len() as int).map_values(|kp: KeyPackage| Proposal::Add(AddProposal { key_package: kp })),
                forall|k: int| 0 <= k < out@.len() ==> (#[trigger] all[k]).cipher_suite == self.cipher_suite,
            decreases rest@.len(),
        {
            let ghost k = out@.len() as int;
            let kp = rest.remove(0);
            assert(kp == all[k]);
            if kp.cipher_suite != self.cipher_suite {
                assert(key_packages@[k].cipher_suite != self.cipher_suite);
                return Err(GroupError::CipherSuiteMismatch);
            }
            assert(rest@ =~= all.skip(k + 1));
            out.push(Proposal::Add(AddProposal { key_package: kp }));
            assert(out@ =~= all.take(k + 1).map_values(|kp: KeyPackage| Proposal::Add(AddProposal { key_package: kp })));
        }
        assert(all.take(all.len() as int) =~= all);
        Ok(out)
    }

    /// An Update proposal for the member's own leaf with the new key package
    /// of `generation`, whose secret key is kept until a commit uses it.
    pub fn update_proposal(&mut self, generation: KeyPackageGeneration) -> (r: Proposal)
        ensures
            r == Proposal::Update(UpdateProposal { key_package: generation.key_package }),
            final(self).pending_updates@.len() == old(self).pending_updates@.len() + 1,
            final(self).pending_updates@.last().0 == generation.key_package_hash,
            final(self).pending_updates@.last().1 == generation.secret_key,
            final(self).pending_updates@.drop_last() == old(self).pending_updates@,
            *final(self) == (Group { pending_updates: final(self).pending_updates, ..*old(self) }),
    {
        let KeyPackageGeneration { key_package, key_package_hash, secret_key, signing_key } = generation;
        self.pending_updates.push((key_package_hash, secret_key));
        Proposal::Update(UpdateProposal { key_package })
    }
}

pub fn leaf_node_fits(l: &LeafNode) -> (r: bool)
    ensures
        r == l.wf(),
{
    let src_ok = match &l.leaf_node_source {
        crate::tree_kem::LeafNodeSource::Commit(ph) => ph.0.len() <= u32::MAX as usize,
        _ => true,
    };
    l.public_key.len() <= u32::MAX as usize && l.signing_identity.signature_key.len() <= u32::MAX as usize
        && l.signing_identity.credential.len() <= u32::MAX as usize && src_ok
}

pub fn zero_bytes(n: usize) -> (r: Vec<u8>)
    ensures
        r@ == Seq::new(n as nat, |i: int| 0u8),
{
    let mut r: Vec<u8> = Vec::new();
    let mut i: usize = 0;
    while i < n
        invariant
            i <= n,
            r@ == Seq::new(i as nat, |j: int| 0u8),
        decreases n - i,
    {
        r.push(0);
        i = i + 1;
        assert(r@ =~= Seq::new(i as nat, |j: int| 0u8));
    }
    r
}

} // verus!

verus! {

pub fn copy_key_package(kp: &KeyPackage) -> (r: KeyPackage)
    ensures
        r.cipher_suite == kp.cipher_suite,
        r.hpke_init_key@ == kp.hpke_init_key@,
        r.leaf_node.public_key@ == kp.leaf_node.public_key@,
        kp.wf() ==> r.wf(),
        crate::framing::kp_same(*kp, r),
{
    KeyPackage {
        cipher_suite: kp.cipher_suite,
        hpke_init_key: copy_bytes(kp.hpke_init_key.as_slice()),
        leaf_node: copy_leaf_node(&kp.leaf_node),
    }
}

pub fn copy_proposal(p: &Proposal) -> (r: Proposal)
    ensures
        r.proposal_kind() == p.proposal_kind(),
        p is Remove ==> r == *p,
        p.wf() ==> r.wf(),
        crate::framing::proposal_same(*p, r),
{
    match p {
        Proposal::Add(a) => Proposal::Add(AddProposal { key_package: copy_key_package(&a.key_package) }),
        Proposal::Update(u) => Proposal::Update(UpdateProposal { key_package: copy_key_package(&u.key_package) }),
        Proposal::Remove(r) => Proposal::Remove(*r),
    }
}

impl Proposal {
    /// 1 for Add, 2 for Update, 3 for Remove.
    pub open spec fn proposal_kind(&self) -> int {
        match self {
            Proposal::Add(_) => 1,
            Proposal::Update(_) => 2,
            Proposal::Remove(_) => 3,
        }
    }
}

/// The input of a proposal reference: the wire format, the content and its
/// authentication, then the reference label.
pub open spec fn proposal_ref_input(m: MLSPlaintext, encrypted: bool) -> Seq<u8> {
    crate::codec::enc_u16(if encrypted { 2u16 } else { 1u16 }) + enc_tbs(m) + enc_bytes(m.signature@)
        + enc_opt_bytes(opt_view(m.confirmation_tag)) + Label::ProposalRef.spec_bytes()
}

impl ProposalRef {
    /// The reference of the proposal framed in `plaintext`: its hash,
    /// truncated to 16 bytes.
    pub fn from_plaintext(cipher_suite: CipherSuite, plaintext: &MLSPlaintext, encrypted: bool) -> (r: ProposalRef)
        requires
            plaintext.wf(),
        ensures
            r.0@ == crate::crypto::Hash::spec_new(cipher_suite).spec_hash(proposal_ref_input(*plaintext, encrypted)).take(16),
            r.0@.len() == 16,
    {
        let h = crate::crypto::Hash::new(cipher_suite);
        let mut input: Vec<u8> = Vec::new();
        crate::codec::write_u16(&mut input, if encrypted { 2 } else { 1 });
        write_tbs(&mut input, plaintext);
        write_bytes(&mut input, plaintext.signature.as_slice());
        let conf: Option<&[u8]> = match &plaintext.confirmation_tag {
            Some(t) => Some(t.as_slice()),
            None => None,
        };
        write_opt_bytes(&mut input, conf);
        let label = Label::ProposalRef.bytes();
        write_raw(&mut input, label.as_slice());
        assert(input@ =~= proposal_ref_input(*plaintext, encrypted));
        let digest = h.hash(input.as_slice());
        let mut r: Vec<u8> = Vec::new();
        let mut i: usize = 0;
        while i < 16
            invariant
                i <= 16,
                digest@.len() >= 32,
                r@ == digest@.take(i as int),
            decreases 16 - i,
        {
            r.push(digest[i]);
            i = i + 1;
            assert(r@ =~= digest@.take(i as int));
        }
        ProposalRef(r)
    }
}

/// What a membership tag covers: the signed content and its signature.
pub open spec fn membership_input(m: MLSPlaintext) -> Seq<u8> {
    enc_tbs(m) + enc_bytes(m.signature@)
}

/// `m` carries the membership tag of `g`'s epoch.
pub open spec fn membership_ok(g: Group, m: MLSPlaintext) -> bool {
    m.membership_tag matches Some(t) && t@ == g.hash().spec_mac(g.key_schedule.membership_key@, membership_input(m))
}

/// The bytes a plaintext's signature covers: its framed content and the
/// group context.
pub open spec fn signable(m: MLSPlaintext, context: GroupContext) -> Seq<u8> {
    enc_tbs(m) + enc_context(context)
}

/// A path is required when there are no proposals or any update or remove.
pub open spec fn path_required(ps: Seq<PendingProposal>) -> bool {
    ps.len() == 0 || exists|i: int| 0 <= i < ps.len() && (#[trigger] ps[i]).proposal.proposal_kind() != 1
}

/// The provisional state a commit's proposals lead to.
pub struct ProvisionalState {
    pub public_tree: TreeKemPublic,
    pub added_leaves: Vec<LeafIndex>,
    pub path_update_required: bool,
}

impl Group {
    /// A plaintext for `content` from this member in the current epoch,
    /// signed over its content and the group context.
    pub fn construct_mls_plaintext<P: CipherSuiteProvider>(
        &self,
        provider: &P,
        signing_key: &[u8],
        content: Content,
    ) -> (r: Result<MLSPlaintext, GroupError>)
        requires
            self.wf(),
            content.wf(),
        ensures
            match r {
                Ok(m) => m.wf() && m.group_id@ == self.context.group_id@ && m.epoch == self.context.epoch
                    && m.sender == self.private_tree.self_index.0 && m.authenticated_data@.len() == 0
                    && m.content == content && m.confirmation_tag is None && membership_ok(*self, m),
                Err(e) => e is CodecError,
            },
    {
        let mut plaintext = MLSPlaintext {
            group_id: copy_bytes(self.context.group_id.as_slice()),
            epoch: self.context.epoch,
            sender: self.private_tree.self_index.0,
            authenticated_data: Vec::new(),
            content,
            signature: Vec::new(),
            confirmation_tag: None,
            membership_tag: None,
        };
        let tbs = self.signable_bytes(&plaintext);
        let signature = provider.sign(signing_key, tbs.as_slice());
        if signature.len() > u32::MAX as usize {
            return Err(GroupError::CodecError);
        }
        plaintext.signature = signature;
        let tag = self.membership_tag(&plaintext);
        plaintext.membership_tag = Some(tag);
        Ok(plaintext)
    }

    /// The membership tag of `m` in this epoch.
    pub fn membership_tag(&self, m: &MLSPlaintext) -> (r: Vec<u8>)
        requires
            self.wf(),
            m.wf(),
        ensures
            r@ == self.hash().spec_mac(self.key_schedule.membership_key@, membership_input(*m)),
            r@.len() == self.hash().spec_size(),
    {
        let h = crate::crypto::Hash::new(self.cipher_suite);
        let mut input: Vec<u8> = Vec::new();
        write_tbs(&mut input, m);
        write_bytes(&mut input, m.signature.as_slice());
        match h.mac(self.key_schedule.membership_key.as_slice(), input.as_slice()) {
            Ok(t) => t,
            Err(_) => Vec::new(),
        }
    }

    /// What a plaintext's signature covers in this epoch.
    pub fn signable_bytes(&self, m: &MLSPlaintext) -> (r: Vec<u8>)
        requires
            self.wf(),
            m.wf(),
        ensures
            r@ == signable(*m, self.context),
    {
        let mut out: Vec<u8> = Vec::new();
        write_tbs(&mut out, m);
        let ctx = self.context.to_bytes();
        write_raw(&mut out, ctx.as_slice());
        out
    }

    /// Frames, signs and caches `proposal`, and gives the framed message.
    pub fn send_proposal<P: CipherSuiteProvider>(
        &mut self,
        provider: &P,
        signing_key: &[u8],
        proposal: Proposal,
    ) -> (r: Result<MLSPlaintext, GroupError>)
        requires
            old(self).wf(),
            proposal.wf(),
        ensures
            final(self).wf(),
            final(self).context == old(self).context,
            final(self).key_schedule == old(self).key_schedule,
            match r {
                Ok(m) => m.content == Content::Proposal(proposal) && filed(
                    *old(self),
                    *final(self),
                    ProposalRef::spec_of(old(self).cipher_suite, m, false),
                    proposal,
                    old(self).private_tree.self_index,
                ),
                Err(_) => final(self).proposals == old(self).proposals,
            },
    {
        let copy = copy_proposal(&proposal);
        let ghost orig = proposal;
        let plaintext = match self.construct_mls_plaintext(provider, signing_key, Content::Proposal(proposal)) {
            Ok(m) => m,
            Err(e) => {
                return Err(e);
            },
        };
        let reference = ProposalRef::from_plaintext(self.cipher_suite, &plaintext, false);
        self.file_proposal(reference.0, PendingProposal { proposal: copy, sender: self.private_tree.self_index }, Ghost(orig));
        Ok(plaintext)
    }

    /// Looks `id` up in the proposal cache.
    pub fn find_proposal(&self, id: &[u8]) -> (r: Option<usize>)
        ensures
            match r {
                Some(i) => i < self.proposals@.len() && self.proposals@[i as int].0@ == id@
                    && i as int == first_in(self.proposals@, id@, self.proposals@.len() as int),
                None => (forall|i: int| 0 <= i < self.proposals@.len() ==> (#[trigger] self.proposals@[i]).0@ != id@)
                    && first_in(self.proposals@, id@, self.proposals@.len() as int) == -1,
            },
    {
        let mut i: usize = 0;
        while i < self.proposals.len()
            invariant
                i <= self.proposals@.len(),
                forall|j: int| 0 <= j < i ==> (#[trigger] self.proposals@[j]).0@ != id@,
                first_in(self.proposals@, id@, i as int) == -1,
            decreases self.proposals@.len() - i,
        {
            if bytes_eq(self.proposals[i].0.as_slice(), id) {
                proof {
                    lemma_first_in_stays(self.proposals@, id@, i + 1, self.proposals@.len() as int);
                }
                return Some(i);
            }
            i = i + 1;
        }
        None
    }

    /// The proposals of a commit from `sender`: inline ones as sent by it,
    /// referenced ones from the cache.
    pub fn fetch_proposals(&self, proposals: &[ProposalOrRef], sender: LeafIndex) -> (r: Result<Vec<PendingProposal>, GroupError>)
        requires
            forall|i: int| 0 <= i < self.proposals@.len() ==> (#[trigger] self.proposals@[i]).1.proposal.wf(),
            forall|i: int| 0 <= i < proposals@.len() ==> (#[trigger] proposals@[i]).wf(),
        ensures
            match r {
                Ok(ps) => ps@.len() == proposals@.len()
                    && (forall|i: int| 0 <= i < ps@.len() ==> pp_same(resolved_pp(*self, proposals@[i], sender), #[trigger] ps@[i]))
                    && (forall|i: int| 0 <= i < ps@.len() ==> (resolve(*self, proposals@[i]) matches Some(p)
                        && crate::framing::proposal_same(p, (#[trigger] ps@[i]).proposal)))
                    && forall|i: int| 0 <= i < ps@.len() ==> {
                    &&& (#[trigger] ps@[i]).proposal.wf()
                    &&& match proposals@[i] {
                        ProposalOrRef::Proposal(p) => ps@[i].sender == sender && ps@[i].proposal.proposal_kind() == p.proposal_kind()
                            && (p is Remove ==> ps@[i].proposal == p),
                        ProposalOrRef::Reference(id) => exists|j: int| 0 <= j < self.proposals@.len() && (#[trigger] self.proposals@[j]).0@ == id@
                            && ps@[i].sender == self.proposals@[j].1.sender
                            && ps@[i].proposal.proposal_kind() == self.proposals@[j].1.proposal.proposal_kind(),
                    }
                },
                Err(e) => e matches GroupError::MissingProposal(id) && (exists|i: int| 0 <= i < proposals@.len()
                    && ((#[trigger] proposals@[i]) matches ProposalOrRef::Reference(rid) && rid@ == id@))
                    && (forall|j: int| 0 <= j < self.proposals@.len() ==> (#[trigger] self.proposals@[j]).0@ != id@),
            },
    {
        let mut out: Vec<PendingProposal> = Vec::new();
        let mut i: usize = 0;
        while i < proposals.len()
            invariant
                i <= proposals@.len(),
                out@.len() == i,
                forall|j: int| 0 <= j < self.proposals@.len() ==> (#[trigger] self.proposals@[j]).1.proposal.wf(),
                forall|j: int| 0 <= j < proposals@.len() ==> (#[trigger] proposals@[j]).wf(),
                forall|k: int| 0 <= k < i ==> pp_same(resolved_pp(*self, proposals@[k], sender), #[trigger] out@[k]),
                forall|k: int| 0 <= k < i ==> (resolve(*self, proposals@[k]) matches Some(p)
                    && crate::framing::proposal_same(p, (#[trigger] out@[k]).proposal)),
                forall|k: int| 0 <= k < i ==> {
                    &&& (#[trigger] out@[k]).proposal.wf()
                    &&& match proposals@[k] {
                        ProposalOrRef::Proposal(p) => out@[k].sender == sender && out@[k].proposal.proposal_kind() == p.proposal_kind()
                            && (p is Remove ==> out@[k].proposal == p),
                        ProposalOrRef::Reference(id) => exists|j: int| 0 <= j < self.proposals@.len() && (#[trigger] self.proposals@[j]).0@ == id@
                            && out@[k].sender == self.proposals@[j].1.sender
                            && out@[k].proposal.proposal_kind() == self.proposals@[j].1.proposal.proposal_kind(),
                    }
                },
            decreases proposals@.len() - i,
        {
            match &proposals[i] {
                ProposalOrRef::Proposal(p) => {
                    out.push(PendingProposal { proposal: copy_proposal(p), sender });
                },
                ProposalOrRef::Reference(id) => {
                    match self.find_proposal(id.as_slice()) {
                        Some(j) => {
                            let pp = &self.proposals[j].1;
                            out.push(PendingProposal { proposal: copy_proposal(&pp.proposal), sender: pp.sender });
                        },
                        None => {
                            return Err(GroupError::MissingProposal(copy_bytes(id.as_slice())));
                        },
                    }
                },
            }
            i = i + 1;
        }
        Ok(out)
    }
}

impl ProposalRef {
    pub open spec fn spec_of(cipher_suite: CipherSuite, m: MLSPlaintext, encrypted: bool) -> Seq<u8> {
        crate::crypto::Hash::spec_new(cipher_suite).spec_hash(proposal_ref_input(m, encrypted)).take(16)
    }
}

} // verus!

verus! {

pub open spec fn source_same(a: crate::tree_kem::LeafNodeSource, b: crate::tree_kem::LeafNodeSource) -> bool {
    match a {
        crate::tree_kem::LeafNodeSource::KeyPackage => b is KeyPackage,
        crate::tree_kem::LeafNodeSource::Update => b is Update,
        crate::tree_kem::LeafNodeSource::Commit(x) => b matches crate::tree_kem::LeafNodeSource::Commit(y) && x.0@ == y.0@,
    }
}

pub open spec fn leaf_same(a: LeafNode, b: LeafNode) -> bool {
    &&& a.public_key@ == b.public_key@
    &&& a.signing_identity.signature_key@ == b.signing_identity.signature_key@
    &&& a.signing_identity.credential@ == b.signing_identity.credential@
    &&& source_same(a.leaf_node_source, b.leaf_node_source)
}

/// Two slots hold the same contents.
pub open spec fn node_same(a: Option<Node>, b: Option<Node>) -> bool {
    match a {
        None => b is None,
        Some(Node::Leaf(x)) => b matches Some(Node::Leaf(y)) && leaf_same(x, y),
        Some(Node::Parent(p)) => b matches Some(Node::Parent(q)) && p.public_key@ == q.public_key@
            && p.parent_hash.0@ == q.parent_hash.0@ && p.unmerged_leaves@ == q.unmerged_leaves@,
    }
}

/// A copy of a leaf node.
pub fn copy_leaf_node(l: &LeafNode) -> (r: LeafNode)
    ensures
        leaf_same(*l, r),
        l.wf() ==> r.wf(),
{
    let source = match &l.leaf_node_source {
        crate::tree_kem::LeafNodeSource::KeyPackage => crate::tree_kem::LeafNodeSource::KeyPackage,
        crate::tree_kem::LeafNodeSource::Update => crate::tree_kem::LeafNodeSource::Update,
        crate::tree_kem::LeafNodeSource::Commit(ph) => crate::tree_kem::LeafNodeSource::Commit(
            crate::tree_kem::ParentHash(copy_bytes(ph.0.as_slice())),
        ),
    };
    LeafNode {
        public_key: copy_bytes(l.public_key.as_slice()),
        signing_identity: crate::tree_kem::SigningIdentity {
            signature_key: copy_bytes(l.signing_identity.signature_key.as_slice()),
            credential: copy_bytes(l.signing_identity.credential.as_slice()),
        },
        leaf_node_source: source,
    }
}

fn copy_leaf_indices(s: &[LeafIndex]) -> (r: Vec<LeafIndex>)
    ensures
        r@ == s@,
{
    let mut r: Vec<LeafIndex> = Vec::new();
    let mut i: usize = 0;
    while i < s.len()
        invariant
            i <= s@.len(),
            r@ == s@.take(i as int),
        decreases s@.len() - i,
    {
        r.push(s[i]);
        i = i + 1;
        assert(r@ =~= s@.take(i as int));
    }
    assert(s@.take(i as int) =~= s@);
    r
}

pub fn copy_node(n: &Option<Node>) -> (r: Option<Node>)
    ensures
        node_same(*n, r),
{
    match n {
        None => None,
        Some(Node::Leaf(l)) => Some(Node::Leaf(copy_leaf_node(l))),
        Some(Node::Parent(p)) => Some(Node::Parent(crate::tree_kem::Parent {
            public_key: copy_bytes(p.public_key.as_slice()),
            parent_hash: crate::tree_kem::ParentHash(copy_bytes(p.parent_hash.0.as_slice())),
            unmerged_leaves: copy_leaf_indices(p.unmerged_leaves.as_slice()),
        })),
    }
}

impl TreeKemPublic {
    /// A copy of the tree, slot by slot.
    pub fn copy_tree(&self) -> (r: TreeKemPublic)
        requires
            self.wf(),
        ensures
            r.wf(),
            r.nodes@.len() == self.nodes@.len(),
            forall|i: int| 0 <= i < self.nodes@.len() ==> node_same(self.nodes@[i], #[trigger] r.nodes@[i]),
    {
        let mut nodes: Vec<Option<Node>> = Vec::new();
        let ghost n = self.spec_leaf_count();
        let mut i: usize = 0;
        while i < self.nodes.len()
            invariant
                self.wf(),
                n == self.spec_leaf_count(),
                i <= self.nodes@.len(),
                nodes@.len() == i,
                forall|j: int| 0 <= j < i ==> node_same(self.nodes@[j], #[trigger] nodes@[j]),
                forall|j: int| 0 <= j < i ==> #[trigger] crate::tree_kem::node_ok(nodes@[j], j, n),
            decreases self.nodes@.len() - i,
        {
            let c = copy_node(&self.nodes[i]);
            assert(crate::tree_kem::node_ok(self.nodes@[i as int], i as int, n));
            nodes.push(c);
            i = i + 1;
        }
        TreeKemPublic { nodes }
    }
}

impl Group {
    /// Applies the proposals of a commit from `sender` to a copy of the tree:
    /// updates first, then removes, then adds, each kind in the order listed.
    pub fn apply_proposals(&self, sender: LeafIndex, proposals: &[ProposalOrRef]) -> (r: Result<(ProvisionalState, Vec<PendingProposal>), GroupError>)
        requires
            self.wf(),
            forall|i: int| 0 <= i < self.proposals@.len() ==> (#[trigger] self.proposals@[i]).1.proposal.wf(),
            forall|i: int| 0 <= i < proposals@.len() ==> (#[trigger] proposals@[i]).wf(),
        ensures
            match r {
                Ok((st, ps)) => {
                    &&& st.public_tree.wf()
                    &&& st.public_tree.spec_leaf_count() >= self.public_tree.spec_leaf_count()
                    &&& ps@.len() == proposals@.len()
                    &&& st.path_update_required == path_required(ps@)
                    &&& proposals_valid(ps@, self.cipher_suite)
                    &&& forall|i: int| 0 <= i < ps@.len() ==> (#[trigger] ps@[i]).proposal.wf()
                    &&& forall|i: int| 0 <= i < ps@.len() ==> match proposals@[i] {
                        ProposalOrRef::Proposal(p) => (#[trigger] ps@[i]).proposal.proposal_kind() == p.proposal_kind(),
                        ProposalOrRef::Reference(id) => exists|j: int| 0 <= j < self.proposals@.len() && (#[trigger] self.proposals@[j]).0@ == id@
                            && ps@[i].proposal.proposal_kind() == self.proposals@[j].1.proposal.proposal_kind(),
                    }
                },
                Err(e) => e is MissingProposal || e is CipherSuiteMismatch || e is DuplicateKeyPackage
                    || e is InvalidCommit || e is InvalidRatchetTree,
            },
            proposals@.len() == 0 ==> r is Ok,
            r matches Ok((st, ps)) ==> st.path_update_required == requires_path(*self, proposals@),
            (exists|i: int| 0 <= i < proposals@.len() && resolve(*self, #[trigger] proposals@[i]) is None)
                ==> r matches Err(GroupError::MissingProposal(_)),
            r matches Ok((st, ps)) ==> forall|i: int| 0 <= i < ps@.len() ==> (resolve(*self, proposals@[i]) matches Some(p)
                && crate::framing::proposal_same(p, (#[trigger] ps@[i]).proposal)),
            r matches Err(GroupError::MissingProposal(_)) ==> exists|i: int| 0 <= i < proposals@.len()
                && ((#[trigger] proposals@[i]) matches ProposalOrRef::Reference(id)
                && forall|j: int| 0 <= j < self.proposals@.len() ==> (#[trigger] self.proposals@[j]).0@ != id@),
            r matches Err(e) && (e is CipherSuiteMismatch || e is DuplicateKeyPackage || e is InvalidRatchetTree)
                ==> exists|i: int| 0 <= i < proposals@.len() && self.resolves_to_add(#[trigger] proposals@[i]),
            apply_owed(*self, proposals@, sender) ==> r is Ok,
    {
        let fetched = match self.fetch_proposals(proposals, sender) {
            Ok(f) => f,
            Err(e) => {
                proof {
                    if apply_owed(*self, proposals@, sender) {
                        let i = choose|i: int| 0 <= i < proposals@.len() && ((#[trigger] proposals@[i]) matches ProposalOrRef::Reference(rid)
                            && rid@ == e->MissingProposal_0@);
                        let id = proposals@[i]->Reference_0;
                        lemma_first_in_bounds(self.proposals@, id@, self.proposals@.len() as int);
                        assert(!(resolve(*self, proposals@[i]) is None));
                    }
                }
                return Err(e);
            },
        };
        assert(fetched@.len() == proposals@.len());
        assert forall|i: int| 0 <= i < proposals@.len() implies !(resolve(*self, #[trigger] proposals@[i]) is None) by {
            assert(i < fetched@.len());
            let q = fetched@[i];
            assert(resolve(*self, proposals@[i]) matches Some(p) && crate::framing::proposal_same(p, q.proposal));
        }
        assert forall|i: int| 0 <= i < fetched@.len() && (#[trigger] fetched@[i]).proposal is Add implies self.resolves_to_add(proposals@[i]) by {
            match proposals@[i] {
                ProposalOrRef::Proposal(p) => {},
                ProposalOrRef::Reference(id) => {
                    let j = choose|j: int| 0 <= j < self.proposals@.len() && (#[trigger] self.proposals@[j]).0@ == id@
                        && fetched@[i].proposal.proposal_kind() == self.proposals@[j].1.proposal.proposal_kind();
                },
            }
        }
        let ghost good = apply_owed(*self, proposals@, sender);
        let ghost rp = resolved_pps(*self, proposals@, sender);
        proof {
            assert forall|i: int| 0 <= i < rp.len() implies pp_same(#[trigger] rp[i], fetched@[i]) by {}
            lemma_valid_same(rp, fetched@, self.cipher_suite);
        }
        if !adds_match_suite(&fetched, self.cipher_suite) {
            return Err(GroupError::CipherSuiteMismatch);
        }
        if !no_duplicate_adds(&fetched) {
            return Err(GroupError::DuplicateKeyPackage);
        }
        if !no_conflicts(&fetched) {
            return Err(GroupError::InvalidCommit);
        }
        let ghost old_nodes = self.public_tree.nodes@;
        proof {
            if good {
                assert forall|i: int| 0 <= i < fetched@.len() implies fetched_target_ok(self.public_tree, #[trigger] fetched@[i]) by {
                    assert(pp_same(rp[i], fetched@[i]));
                    assert(targets_ok(self.public_tree, rp));
                    let x = rp[i];
                    match x.proposal {
                        Proposal::Update(_) => {},
                        Proposal::Remove(r) => {},
                        Proposal::Add(_) => {},
                    }
                }
            }
        }
        let mut tree = self.public_tree.copy_tree();
        let h = crate::crypto::Hash::new(self.cipher_suite);
        let ghost n0 = self.public_tree.spec_leaf_count();
        assert forall|l: u32| l < n0 implies (node_at(tree.nodes@, 2 * l) is Some) == (#[trigger] node_at(old_nodes, 2 * l) is Some) by {
            assert(crate::group::node_same(old_nodes[2 * l as int], tree.nodes@[2 * l as int]));
        }
        // Updates replace their sender's leaf.
        let mut i: usize = 0;
        while i < fetched.len()
            invariant
                tree.wf(),
                tree.spec_leaf_count() == n0,
                i <= fetched@.len(),
                forall|k: int| 0 <= k < fetched@.len() ==> (#[trigger] fetched@[k]).proposal.wf(),
                fetched@.len() == proposals@.len(),
                forall|j: int| 0 <= j < proposals@.len() ==> !(resolve(*self, #[trigger] proposals@[j]) is None),
                good == apply_owed(*self, proposals@, sender),
                n0 == self.public_tree.spec_leaf_count(),
                old_nodes == self.public_tree.nodes@,
                good ==> forall|k: int| 0 <= k < fetched@.len() ==> fetched_target_ok(self.public_tree, #[trigger] fetched@[k]),
                good ==> forall|l: u32| l < n0 ==> (#[trigger] node_at(tree.nodes@, 2 * l) is Some) == (node_at(old_nodes, 2 * l) is Some),
                n0 == leaf_count_of_tree(self.public_tree),
            decreases fetched@.len() - i,
        {
            let ghost before = tree;
            match &fetched[i].proposal {
                Proposal::Update(u) => {
                    let who = fetched[i].sender;
                    if who.0 >= tree.total_leaf_count() {
                        return Err(GroupError::InvalidCommit);
                    }
                    let leaf = copy_leaf_node(&u.key_package.leaf_node);
                    proof {
                        if good {
                            assert(fetched_target_ok(self.public_tree, fetched@[i as int]));
                            assert(node_at(tree.nodes@, 2 * who.0) is Some);
                        }
                        crate::parent_hash::lemma_path_odd(&tree, who);
                    }
                    match tree.update_leaf(who, leaf) {
                        Ok(()) => {},
                        Err(_) => {
                            return Err(GroupError::InvalidCommit);
                        },
                    }
                    proof {
                        if good {
                            assert forall|l: u32| l < n0 implies (#[trigger] node_at(tree.nodes@, 2 * l) is Some) == (node_at(old_nodes, 2 * l) is Some) by {
                                assert((node_at(before.nodes@, 2 * l) is Some) == (node_at(old_nodes, 2 * l) is Some));
                                assert(2 * l < tree.nodes@.len());
                                if l == who.0 {
                                    assert(fetched_target_ok(self.public_tree, fetched@[i as int]));
                                } else {
                                    if crate::tree_ops::on_path(crate::parent_hash::descent(before.root().0, before.root().1, 2 * who.0), 2 * l as int) {
                                        let k = choose|k: int| 0 <= k < crate::parent_hash::descent(before.root().0, before.root().1, 2 * who.0).len()
                                            && (#[trigger] crate::parent_hash::descent(before.root().0, before.root().1, 2 * who.0)[k]).0 == 2 * l as int;
                                    }
                                    assert(tree.nodes@[2 * l as int] == before.nodes@[2 * l as int]);
                                }
                            }
                        }
                    }
                },
                _ => {},
            }
            i = i + 1;
        }
        // Removes blank their target and its direct path.
        let mut i: usize = 0;
        while i < fetched.len()
            invariant
                tree.wf(),
                tree.spec_leaf_count() == n0,
                i <= fetched@.len(),
                forall|k: int| 0 <= k < fetched@.len() ==> (#[trigger] fetched@[k]).proposal.wf(),
                fetched@.len() == proposals@.len(),
                forall|j: int| 0 <= j < proposals@.len() ==> !(resolve(*self, #[trigger] proposals@[j]) is None),
                good == apply_owed(*self, proposals@, sender),
                n0 == self.public_tree.spec_leaf_count(),
                old_nodes == self.public_tree.nodes@,
                good ==> forall|k: int| 0 <= k < fetched@.len() ==> fetched_target_ok(self.public_tree, #[trigger] fetched@[k]),
                good ==> spec_no_conflicts(fetched@),
                good ==> forall|l: u32| l < n0 ==> (#[trigger] node_at(tree.nodes@, 2 * l) is Some) == (node_at(old_nodes, 2 * l) is Some
                    && !removed_before(fetched@, i as int, l)),
            decreases fetched@.len() - i,
        {
            let ghost before = tree;
            match &fetched[i].proposal {
                Proposal::Remove(rp) => {
                    if rp.to_remove >= tree.total_leaf_count() {
                        return Err(GroupError::InvalidCommit);
                    }
                    proof {
                        if good {
                            assert(fetched_target_ok(self.public_tree, fetched@[i as int]));
                            if removed_before(fetched@, i as int, rp.to_remove) {
                                let k = choose|k: int| 0 <= k < i && ((#[trigger] fetched@[k]).proposal matches Proposal::Remove(r)
                                    && r.to_remove == rp.to_remove);
                                assert(conflict(fetched@[k], fetched@[i as int]));
                            }
                            assert(node_at(tree.nodes@, 2 * rp.to_remove) is Some);
                        }
                        crate::parent_hash::lemma_path_odd(&tree, LeafIndex(rp.to_remove));
                    }
                    match tree.remove_leaf(LeafIndex(rp.to_remove)) {
                        Ok(()) => {},
                        Err(_) => {
                            return Err(GroupError::InvalidCommit);
                        },
                    }
                    proof {
                        if good {
                            let t = rp.to_remove;
                            assert forall|l: u32| l < n0 implies (#[trigger] node_at(tree.nodes@, 2 * l) is Some) == (node_at(old_nodes, 2 * l) is Some
                                && !removed_before(fetched@, i + 1, l)) by {
                                assert((node_at(before.nodes@, 2 * l) is Some) == (node_at(old_nodes, 2 * l) is Some
                                    && !removed_before(fetched@, i as int, l)));
                                assert(2 * l < tree.nodes@.len());
                                if l != t {
                                    if crate::tree_ops::on_path(crate::parent_hash::descent(before.root().0, before.root().1, 2 * t), 2 * l as int) {
                                        let k = choose|k: int| 0 <= k < crate::parent_hash::descent(before.root().0, before.root().1, 2 * t).len()
                                            && (#[trigger] crate::parent_hash::descent(before.root().0, before.root().1, 2 * t)[k]).0 == 2 * l as int;
                                    }
                                    assert(tree.nodes@[2 * l as int] == before.nodes@[2 * l as int]);
                                    assert(removed_before(fetched@, i + 1, l) == removed_before(fetched@, i as int, l)) by {
                                        if removed_before(fetched@, i + 1, l) {
                                            let k = choose|k: int| 0 <= k < i + 1 && ((#[trigger] fetched@[k]).proposal matches Proposal::Remove(r) && r.to_remove == l);
                                            assert(k < i);
                                        }
                                    }
                                } else {
                                    assert(fetched@[i as int].proposal matches Proposal::Remove(r) && r.to_remove == l);
                                }
                            }
                        }
                    }
                },
                _ => {
                    proof {
                        if good {
                            assert forall|l: u32| l < n0 implies removed_before(fetched@, i + 1, l) == removed_before(fetched@, i as int, l) by {
                                if removed_before(fetched@, i + 1, l) {
                                    let k = choose|k: int| 0 <= k < i + 1 && ((#[trigger] fetched@[k]).proposal matches Proposal::Remove(r) && r.to_remove == l);
                                    assert(k < i);
                                }
                            }
                        }
                    }
                },
            }
            i = i + 1;
        }
        // Adds fill the leftmost blank leaves.
        let mut added: Vec<LeafIndex> = Vec::new();
        let mut i: usize = 0;
        while i < fetched.len()
            invariant
                tree.wf(),
                tree.spec_leaf_count() >= n0,
                i <= fetched@.len(),
                forall|k: int| 0 <= k < fetched@.len() ==> (#[trigger] fetched@[k]).proposal.wf(),
                fetched@.len() == proposals@.len(),
                forall|k: int| 0 <= k < fetched@.len() && (#[trigger] fetched@[k]).proposal is Add ==> self.resolves_to_add(proposals@[k]),
                forall|j: int| 0 <= j < proposals@.len() ==> !(resolve(*self, #[trigger] proposals@[j]) is None),
                good ==> forall|k: int| 0 <= k < fetched@.len() ==> fetched_target_ok(self.public_tree, #[trigger] fetched@[k]),
                good == apply_owed(*self, proposals@, sender),
            decreases fetched@.len() - i,
        {
            match &fetched[i].proposal {
                Proposal::Add(a) => {
                    proof {
                        if good {
                            assert(fetched_target_ok(self.public_tree, fetched@[i as int]));
                        }
                    }
                    let leaf = copy_leaf_node(&a.key_package.leaf_node);
                    match tree.add_leaf(leaf) {
                        Ok(l) => {
                            added.push(l);
                        },
                        Err(_) => {
                            assert(self.resolves_to_add(proposals@[i as int]));
                            return Err(GroupError::InvalidRatchetTree);
                        },
                    }
                },
                _ => {},
            }
            i = i + 1;
        }
        let required = path_is_required(&fetched);
        proof {
            if fetched@.len() > 0 {
                if path_required(fetched@) {
                    let i = choose|i: int| 0 <= i < fetched@.len() && (#[trigger] fetched@[i]).proposal.proposal_kind() != 1;
                    assert(resolve(*self, proposals@[i]) matches Some(p) && !(p is Add));
                }
                if requires_path(*self, proposals@) {
                    let i = choose|i: int| 0 <= i < proposals@.len() && (resolve(*self, #[trigger] proposals@[i]) matches Some(p) && !(p is Add));
                    assert(fetched@[i].proposal.proposal_kind() != 1);
                }
            }
        }
        Ok((ProvisionalState { public_tree: tree, added_leaves: added, path_update_required: required }, fetched))
    }
}

/// Whether a commit of `ps` must carry a path.
pub fn path_is_required(ps: &Vec<PendingProposal>) -> (r: bool)
    ensures
        r == path_required(ps@),
{
    if ps.len() == 0 {
        return true;
    }
    let mut i: usize = 0;
    while i < ps.len()
        invariant
            i <= ps@.len(),
            forall|k: int| 0 <= k < i ==> (#[trigger] ps@[k]).proposal.proposal_kind() == 1,
        decreases ps@.len() - i,
    {
        if !ps[i].proposal.is_add() {
            return true;
        }
        i = i + 1;
    }
    false
}

} // verus!

verus! {

/// `ks` is the schedule that commit secret `cs` leads to from init secret
/// `init` under the group context `ctx`, with no PSK.
pub open spec fn evolved_with(h: crate::crypto::Hash, init: Seq<u8>, ks: EpochKeySchedule, ctx: GroupContext, cs: Seq<u8>) -> bool {
    ks.derived_from(h, spec_epoch_secret(h, spec_joiner_secret(h, init, cs), zeros_of(h.spec_size()), enc_context(ctx)))
}

/// The commit framed in `m`, made by `g` with commit secret `cs`, carries
/// the confirmation tag of the epoch it leads to: the MAC of that epoch's
/// confirmed transcript hash under its confirmation key.
pub open spec fn commit_confirmed(g: Group, m: MLSPlaintext, cs: Seq<u8>, t: TreeKemPublic) -> bool {
    exists|ks: EpochKeySchedule, ctx: GroupContext| {
        &&& ctx.epoch == g.context.epoch + 1
        &&& ctx.group_id@ == g.context.group_id@
        &&& ctx.extensions@ == g.context.extensions@
        &&& ctx.tree_hash@ == crate::tree_kem::tree_hash_excl(g.hash(), t.nodes@, t.root().0, t.root().1, Seq::empty())
        &&& ctx.confirmed_transcript_hash@ == spec_confirmed_transcript_hash(g.hash(), g.interim_transcript_hash@, m)
        &&& #[trigger] evolved_with(g.hash(), g.key_schedule.init_secret@, ks, ctx, cs)
        &&& (m.confirmation_tag matches Some(t) && t@ == g.hash().spec_mac(ks.confirmation_key@, ctx.confirmed_transcript_hash@))
    }
}

/// `n` zero bytes.
pub open spec fn zeros_of(n: nat) -> Seq<u8> {
    Seq::new(n, |i: int| 0u8)
}

/// `n` steps of the path-secret chain from `ps`.
pub open spec fn path_chain(h: crate::crypto::Hash, ps: Seq<u8>, n: nat) -> Seq<u8>
    decreases n,
{
    if n == 0 {
        ps
    } else {
        crate::kdf::spec_derive_secret(h, path_chain(h, ps, (n - 1) as nat), Label::Path)
    }
}

/// Walking the chain `a` steps after `b` steps is walking it `a + b` steps:
/// a member who receives the path secret of a node part of the way up the
/// committer's path reaches the committer's commit secret.
pub proof fn lemma_path_chain_add(h: crate::crypto::Hash, ps: Seq<u8>, a: nat, b: nat)
    ensures
        path_chain(h, path_chain(h, ps, b), a) == path_chain(h, ps, a + b),
    decreases a,
{
    if a > 0 {
        lemma_path_chain_add(h, ps, (a - 1) as nat, b);
        assert((a - 1) as nat + b == (a + b - 1) as nat);
    }
}

/// The secrets a received commit leads to: the commit secret and the secret
/// keys of the path nodes from the member's level up.
pub struct ReceivedPath {
    pub commit_secret: Vec<u8>,
    pub secret_keys: Vec<(u32, Vec<u8>)>,
}

impl TreeKemPrivate {
    /// The secret key this member holds for node `node`.
    pub fn secret_key_for(&self, node: u32) -> (r: Option<&Vec<u8>>)
        ensures
            match r {
                Some(k) => exists|i: int| 0 <= i < self.secret_keys@.len() && (#[trigger] self.secret_keys@[i]).0 == node && self.secret_keys@[i].1 == *k,
                None => forall|i: int| 0 <= i < self.secret_keys@.len() ==> (#[trigger] self.secret_keys@[i]).0 != node,
            },
    {
        let mut i: usize = 0;
        while i < self.secret_keys.len()
            invariant
                i <= self.secret_keys@.len(),
                forall|j: int| 0 <= j < i ==> (#[trigger] self.secret_keys@[j]).0 != node,
            decreases self.secret_keys@.len() - i,
        {
            if self.secret_keys[i].0 == node {
                return Some(&self.secret_keys[i].1);
            }
            i = i + 1;
        }
        None
    }
}

/// Whether node `x` is a leaf in `added`.
fn is_added(added: &[LeafIndex], x: u32) -> (r: bool)
    ensures
        r == exists|i: int| 0 <= i < added@.len() && 2 * (#[trigger] added@[i]).0 == x,
{
    let mut i: usize = 0;
    while i < added.len()
        invariant
            i <= added@.len(),
            forall|j: int| 0 <= j < i ==> 2 * (#[trigger] added@[j]).0 != x,
        decreases added@.len() - i,
    {
        if (added[i].0 as u64) * 2 == x as u64 {
            return true;
        }
        i = i + 1;
    }
    false
}

/// The subtree of the co-path child of path entry `e` holds node `me`.
fn covers(e: (u32, u32, u32), me: u64) -> (r: bool) {
    let half = (e.2 / 2) as u64;
    let lo: u64 = if half <= (e.1 as u64) + 1 { e.1 as u64 + 1 - half } else { 0 };
    lo <= me && me < (e.1 as u64) + half
}

/// `res` without the leaves in `added`.
pub fn without_added(res: &[u32], added: &[LeafIndex]) -> (r: Vec<u32>)
    ensures
        r@.len() <= res@.len(),
{
    let mut r: Vec<u32> = Vec::new();
    let mut i: usize = 0;
    while i < res.len()
        invariant
            i <= res@.len(),
            r@.len() <= i,
        decreases res@.len() - i,
    {
        if !is_added(added, res[i]) {
            r.push(res[i]);
        }
        i = i + 1;
    }
    r
}

impl Group {
    /// Recovers the commit secret from a received update path: finds the
    /// level whose co-path child holds this member, opens the ciphertext
    /// addressed to the node it holds a key for, and walks the chain up.
    pub fn decrypt_path<P: CipherSuiteProvider>(
        &self,
        provider: &P,
        tree: &TreeKemPublic,
        sender: LeafIndex,
        path: &crate::tree_kem::ValidatedUpdatePath,
        added: &[LeafIndex],
        own_leaf: &Option<Vec<u8>>,
        context_bytes: &[u8],
    ) -> (r: Result<ReceivedPath, GroupError>)
        requires
            self.wf(),
            tree.wf(),
            sender.0 < tree.spec_leaf_count(),
            self.private_tree.self_index.0 < tree.spec_leaf_count(),
        ensures
            r matches Ok(rp) ==> exists|ps: Seq<u8>, k: nat| rp.commit_secret@ == #[trigger] path_chain(self.hash(), ps, k + 1),
            r matches Err(e) ==> e is InvalidCommit || e is InvalidTreeKemPrivateKey || e is HpkeOpenFailure,
    {
        let h = crate::crypto::Hash::new(self.cipher_suite);
        let filtered = tree.filtered_direct_path_co_path(sender);
        if path.nodes.len() != filtered.len() {
            return Err(GroupError::InvalidCommit);
        }
        let me: u64 = 2 * (self.private_tree.self_index.0 as u64);
        // The level whose co-path child holds this member.
        let mut k: usize = 0;
        while k < filtered.len() && !covers(filtered[k], me)
            invariant
                k <= filtered@.len(),
            decreases filtered@.len() - k,
        {
            k = k + 1;
        }
        if k == filtered.len() {
            return Err(GroupError::InvalidTreeKemPrivateKey);
        }
        let e = filtered[k];
        let res = without_added(tree.resolution_of(e.1, e.2 / 2).as_slice(), added);
        let mut j: usize = 0;
        while j < res.len() && self.key_for(res[j], own_leaf).is_none()
            invariant
                j <= res@.len(),
            decreases res@.len() - j,
        {
            j = j + 1;
        }
        if j == res.len() {
            return Err(GroupError::InvalidTreeKemPrivateKey);
        }
        let sk = match self.key_for(res[j], own_leaf) {
            Some(sk) => sk,
            None => {
                return Err(GroupError::InvalidTreeKemPrivateKey);
            },
        };
        let node = &path.nodes[k];
        if j >= node.encrypted_path_secret.len() {
            return Err(GroupError::InvalidCommit);
        }
        let ps0 = match provider.hpke_open(sk.as_slice(), &node.encrypted_path_secret[j], context_bytes) {
            Some(ps) => ps,
            None => {
                return Err(GroupError::HpkeOpenFailure);
            },
        };
        let ghost start = ps0@;
        let mut ps = ps0;
        let mut keys: Vec<(u32, Vec<u8>)> = Vec::new();
        let mut t: usize = k + 1;
        while t > 0
            invariant
                t <= k + 1,
                k < filtered@.len(),
                ps@ == path_chain(h, start, (k + 1 - t) as nat),
            decreases t,
        {
            let node_secret = crate::kdf::derive_secret(&h, ps.as_slice(), Label::Node);
            let (node_sk, _node_pk) = provider.kem_derive(node_secret.as_slice());
            keys.push((filtered[t - 1].0, node_sk));
            ps = crate::kdf::derive_secret(&h, ps.as_slice(), Label::Path);
            t = t - 1;
        }
        assert(ps@ == path_chain(h, start, (k + 1) as nat));
        Ok(ReceivedPath { commit_secret: ps, secret_keys: keys })
    }
}

} // verus!

verus! {

/// The confirmed transcript hash after a commit framed in `m`.
pub open spec fn spec_confirmed_transcript_hash(h: crate::crypto::Hash, interim: Seq<u8>, m: MLSPlaintext) -> Seq<u8> {
    h.spec_hash(interim + enc_tbs(m) + enc_bytes(m.signature@))
}

/// The interim transcript hash that follows a confirmed one and its tag.
pub open spec fn spec_interim_transcript_hash(h: crate::crypto::Hash, confirmed: Seq<u8>, tag: Seq<u8>) -> Seq<u8> {
    h.spec_hash(confirmed + enc_bytes(tag))
}

/// The secrets that a commit made by this member used, kept until the
/// commit is applied.
pub struct LocalCommit {
    pub commit_secret: Vec<u8>,
    pub secret_keys: Vec<(u32, Vec<u8>)>,
}

/// Everything a commit changes, computed before any of it is installed.
pub struct GroupStateUpdate {
    pub public_tree: TreeKemPublic,
    pub secret_keys: Option<Vec<(u32, Vec<u8>)>>,
    /// The leaf secret of this member's own update, when the commit applies it.
    pub leaf_secret: Option<Vec<u8>>,
    pub key_schedule: EpochKeySchedule,
    pub confirmation_tag: Vec<u8>,
    pub interim_transcript_hash: Vec<u8>,
    pub group_context: GroupContext,
}

impl Group {
    pub fn confirmed_transcript_hash(&self, m: &MLSPlaintext) -> (r: Vec<u8>)
        requires
            self.wf(),
            m.wf(),
        ensures
            r@ == spec_confirmed_transcript_hash(self.hash(), self.interim_transcript_hash@, *m),
            r@.len() == self.hash().spec_size(),
    {
        let h = crate::crypto::Hash::new(self.cipher_suite);
        let mut input: Vec<u8> = Vec::new();
        write_raw(&mut input, self.interim_transcript_hash.as_slice());
        write_tbs(&mut input, m);
        write_bytes(&mut input, m.signature.as_slice());
        assert(input@ =~= self.interim_transcript_hash@ + enc_tbs(*m) + enc_bytes(m.signature@));
        h.hash(input.as_slice())
    }

    /// The commit secret of a commit, and the secret keys its path gives this
    /// member; a path is installed in `tree` and its parent hash checked.
    fn install_commit_path<P: CipherSuiteProvider>(
        &self,
        provider: &P,
        tree: &mut TreeKemPublic,
        sender: LeafIndex,
        commit: &Commit,
        added: &[LeafIndex],
        local: Option<LocalCommit>,
        own_leaf: &Option<Vec<u8>>,
        context_bytes: &[u8],
    ) -> (r: Result<(Vec<u8>, Option<Vec<(u32, Vec<u8>)>>), GroupError>)
        requires
            self.wf(),
            old(tree).wf(),
            sender.0 < old(tree).spec_leaf_count(),
            self.private_tree.self_index.0 < old(tree).spec_leaf_count(),
        ensures
            final(tree).wf(),
            final(tree).spec_leaf_count() == old(tree).spec_leaf_count(),
            commit.path is None ==> (r matches Ok((cs, None)) && cs@ == zeros_of(self.hash().spec_size())),
            commit.path is Some && local is Some ==> (r matches Ok((cs, _)) ==> cs@ == local->Some_0.commit_secret@),
            r matches Err(e) ==> e is InvalidCommit || e is InvalidTreeKemPrivateKey || e is HpkeOpenFailure
                || e is CodecError || e is InvalidRatchetTree,
    {
        let h = crate::crypto::Hash::new(self.cipher_suite);
        match &commit.path {
            None => Ok((zero_bytes(h.size()), None)),
            Some(path) => {
                let (cs, keys) = match local {
                    Some(l) => (l.commit_secret, l.secret_keys),
                    None => match self.decrypt_path(provider, tree, sender, path, added, own_leaf, context_bytes) {
                        Ok(rp) => (rp.commit_secret, rp.secret_keys),
                        Err(e) => {
                            return Err(e);
                        },
                    },
                };
                if !update_path_fits(path) {
                    return Err(GroupError::CodecError);
                }
                let leaf_copy = copy_leaf_node(&path.leaf_node);
                let nodes_copy = copy_path_nodes(&path.nodes);
                let installed = crate::tree_kem::ValidatedUpdatePath { leaf_node: leaf_copy, nodes: nodes_copy };
                match tree.apply_update_path(sender, installed) {
                    Ok(()) => {},
                    Err(_) => {
                        return Err(GroupError::InvalidCommit);
                    },
                }
                match tree.update_parent_hashes(&h, sender, Some(path)) {
                    Ok(_) => {},
                    Err(_) => {
                        return Err(GroupError::InvalidRatchetTree);
                    },
                }
                Ok((cs, Some(keys)))
            },
        }
    }

    /// Works out the state that the commit framed in `plaintext`, sent by
    /// `sender`, leads to, and checks its confirmation tag.
    pub fn process_commit<P: CipherSuiteProvider>(
        &self,
        provider: &P,
        plaintext: &MLSPlaintext,
        commit: &Commit,
        local: Option<LocalCommit>,
    ) -> (r: Result<GroupStateUpdate, GroupError>)
        requires
            self.wf(),
            plaintext.wf(),
            commit.wf(),
            plaintext.sender < self.public_tree.spec_leaf_count(),
        ensures
            r matches Err(e) ==> !(e is InvalidPlaintextEpoch) && !(e is LeafNotFound) && !(e is InvalidSignature) && !(e is InvalidMembershipTag),
            commit.path is None && requires_path(*self, commit.proposals@) ==> r matches Err(GroupError::InvalidCommit),
            commit.path is Some && local is Some ==> (r matches Ok(u) ==> evolved_with(
                self.hash(),
                self.key_schedule.init_secret@,
                u.key_schedule,
                u.group_context,
                local->Some_0.commit_secret@,
            )),
            commit.path is None && !requires_path(*self, commit.proposals@) && apply_owed(*self, commit.proposals@, LeafIndex(plaintext.sender))
                && self.context.epoch < u64::MAX ==> (r is Ok || r matches Err(GroupError::InvalidConfirmationTag)),
            r is Ok ==> (commit.path is None ==> !requires_path(*self, commit.proposals@)),
            !(commit.path is None && requires_path(*self, commit.proposals@)) && (exists|i: int| 0 <= i < commit.proposals@.len()
                && resolve(*self, #[trigger] commit.proposals@[i]) is None) ==> r matches Err(GroupError::MissingProposal(_)),
            match r {
                Ok(u) => {
                    &&& u.public_tree.wf()
                    &&& u.group_context.wf()
                    &&& self.private_tree.self_index.0 < u.public_tree.spec_leaf_count()
                    &&& u.key_schedule.wf(self.hash())
                    &&& u.interim_transcript_hash@.len() == self.hash().spec_size()
                    &&& u.group_context.epoch == self.context.epoch + 1
                    &&& u.group_context.group_id@ == self.context.group_id@
                    &&& u.group_context.confirmed_transcript_hash@ == spec_confirmed_transcript_hash(
                        self.hash(),
                        self.interim_transcript_hash@,
                        *plaintext,
                    )
                    &&& u.confirmation_tag@ == spec_confirmation_tag(self.hash(), u.key_schedule, u.group_context)
                    &&& (plaintext.confirmation_tag matches Some(t) && t@ == u.confirmation_tag@)
                    &&& u.interim_transcript_hash@ == spec_interim_transcript_hash(
                        self.hash(),
                        u.group_context.confirmed_transcript_hash@,
                        u.confirmation_tag@,
                    )
                    &&& (exists|cs: Seq<u8>| #[trigger] evolved_with(self.hash(), self.key_schedule.init_secret@, u.key_schedule, u.group_context, cs))
                    &&& (commit.path is None ==> evolved_with(self.hash(), self.key_schedule.init_secret@, u.key_schedule, u.group_context, zeros_of(self.hash().spec_size())))
                    &&& u.group_context.tree_hash@ == crate::tree_kem::tree_hash_excl(
                        self.hash(),
                        u.public_tree.nodes@,
                        u.public_tree.root().0,
                        u.public_tree.root().1,
                        Seq::empty(),
                    )
                },
                Err(_) => true,
            },
    {
        let h = crate::crypto::Hash::new(self.cipher_suite);
        let sender = LeafIndex(plaintext.sender);
        if commit.path.is_none() && self.por_requires_path(commit.proposals.as_slice()) {
            return Err(GroupError::InvalidCommit);
        }
        let (mut state, fetched) = match self.apply_proposals(sender, commit.proposals.as_slice()) {
            Ok(s) => s,
            Err(e) => {
                return Err(e);
            },
        };
        let own_leaf = self.own_update_secret(&fetched);
        if state.path_update_required && commit.path.is_none() {
            return Err(GroupError::InvalidCommit);
        }
        if sender.0 >= state.public_tree.total_leaf_count() {
            return Err(GroupError::LeafNotFound);
        }
        let context_bytes = self.context.to_bytes();
        let (commit_secret, secret_keys) = match self.install_commit_path(
            provider,
            &mut state.public_tree,
            sender,
            commit,
            state.added_leaves.as_slice(),
            local,
            &own_leaf,
            context_bytes.as_slice(),
        ) {
            Ok(v) => v,
            Err(e) => {
                return Err(e);
            },
        };
        if self.context.epoch == u64::MAX {
            return Err(GroupError::EpochOverflow);
        }
        let confirmed = self.confirmed_transcript_hash(plaintext);
        let tree_hash = state.public_tree.tree_hash(&h);
        let group_context = GroupContext {
            group_id: copy_bytes(self.context.group_id.as_slice()),
            epoch: self.context.epoch + 1,
            tree_hash,
            confirmed_transcript_hash: confirmed,
            extensions: copy_bytes(self.context.extensions.as_slice()),
        };
        let new_context_bytes = group_context.to_bytes();
        let psk_secret = zero_bytes(h.size());
        let derivation = self.key_schedule.evolved_from(
            &h,
            commit_secret.as_slice(),
            psk_secret.as_slice(),
            new_context_bytes.as_slice(),
        );
        let tag = confirmation_tag(
            &h,
            derivation.key_schedule.confirmation_key.as_slice(),
            group_context.confirmed_transcript_hash.as_slice(),
        );
        assert(psk_secret@ =~= zeros_of(self.hash().spec_size()));
        match &plaintext.confirmation_tag {
            Some(t) => {
                if !bytes_eq(t.as_slice(), tag.as_slice()) {
                    return Err(GroupError::InvalidConfirmationTag);
                }
            },
            None => {
                return Err(GroupError::InvalidConfirmationTag);
            },
        }
        let mut interim_input: Vec<u8> = Vec::new();
        write_raw(&mut interim_input, group_context.confirmed_transcript_hash.as_slice());
        write_bytes(&mut interim_input, tag.as_slice());
        assert(interim_input@ =~= group_context.confirmed_transcript_hash@ + enc_bytes(tag@));
        let interim = h.hash(interim_input.as_slice());
        let u = GroupStateUpdate {
            public_tree: state.public_tree,
            secret_keys,
            leaf_secret: own_leaf,
            key_schedule: derivation.key_schedule,
            confirmation_tag: tag,
            interim_transcript_hash: interim,
            group_context,
        };
        assert(evolved_with(self.hash(), self.key_schedule.init_secret@, u.key_schedule, u.group_context, commit_secret@));
        Ok(u)
    }

    /// Handles a plaintext of the current epoch: gives an application
    /// message's content, caches a proposal, or applies a commit. Any failure
    /// leaves the group as it was.
    pub fn process_plaintext<P: CipherSuiteProvider>(&mut self, provider: &P, plaintext: MLSPlaintext) -> (r: Result<Option<Vec<u8>>, GroupError>)
        requires
            old(self).wf(),
            plaintext.wf(),
        ensures
            final(self).wf(),
            plaintext.epoch != old(self).context.epoch <==> r matches Err(GroupError::InvalidPlaintextEpoch),
            plaintext.epoch == old(self).context.epoch ==> (r matches Err(GroupError::LeafNotFound) <==> node_at(
                old(self).public_tree.nodes@,
                2 * plaintext.sender,
            ) is None),
            r is Err ==> *final(self) == *old(self),
            r is Ok ==> plaintext.epoch == old(self).context.epoch,
            r is Ok ==> processed(*old(self), *final(self), plaintext, r->Ok_0),
            plaintext.epoch == old(self).context.epoch && (plaintext.content matches Content::Commit(c) && c.path is None
                && requires_path(*old(self), c.proposals@)) ==> r is Err && (r matches Err(GroupError::InvalidCommit)
                || r matches Err(GroupError::InvalidSignature) || r matches Err(GroupError::InvalidMembershipTag)
                || r matches Err(GroupError::LeafNotFound)),
            plaintext.epoch == old(self).context.epoch && (plaintext.content matches Content::Commit(c) && c.path is None
                && !requires_path(*old(self), c.proposals@) && apply_owed(*old(self), c.proposals@, LeafIndex(plaintext.sender)))
                && old(self).context.epoch < u64::MAX ==> r is Ok || r matches Err(GroupError::InvalidConfirmationTag)
                || r matches Err(GroupError::InvalidSignature) || r matches Err(GroupError::InvalidMembershipTag)
                || r matches Err(GroupError::LeafNotFound),
            plaintext.epoch == old(self).context.epoch && (plaintext.content matches Content::Commit(c)
                && !(c.path is None && requires_path(*old(self), c.proposals@))
                && exists|i: int| 0 <= i < c.proposals@.len() && resolve(*old(self), #[trigger] c.proposals@[i]) is None)
                ==> r is Err && (r matches Err(GroupError::MissingProposal(_)) || r matches Err(GroupError::InvalidSignature)
                || r matches Err(GroupError::InvalidMembershipTag) || r matches Err(GroupError::LeafNotFound)),
            r is Ok ==> membership_ok(*old(self), plaintext),
            r matches Err(GroupError::InvalidMembershipTag) ==> !membership_ok(*old(self), plaintext),
    {
        self.process_plaintext_internal(provider, plaintext, None, true)
    }

    /// Applies a commit that this member made.
    pub fn process_pending_commit<P: CipherSuiteProvider>(&mut self, provider: &P, pending: PendingCommit) -> (r: Result<(), GroupError>)
        requires
            old(self).wf(),
            pending.plaintext.wf(),
        ensures
            final(self).wf(),
            pending.plaintext.epoch != old(self).context.epoch <==> r matches Err(GroupError::InvalidPlaintextEpoch),
            r is Err ==> *final(self) == *old(self),
            r is Ok ==> exists|out: Option<Vec<u8>>| #[trigger] processed(*old(self), *final(self), pending.plaintext, out),
            r is Ok && (pending.plaintext.content matches Content::Commit(c) && c.path is Some) ==> evolved_with(
                old(self).hash(),
                old(self).key_schedule.init_secret@,
                final(self).key_schedule,
                final(self).context,
                pending.commit_secret@,
            ),
    {
        let local = LocalCommit { commit_secret: pending.commit_secret, secret_keys: pending.path_keys };
        let ghost m = pending.plaintext;
        match self.process_plaintext_internal(provider, pending.plaintext, Some(local), true) {
            Ok(out) => {
                assert(processed(*old(self), *self, m, out));
                Ok(())
            },
            Err(e) => Err(e),
        }
    }

    #[verifier::rlimit(60)]
    pub(crate) fn process_plaintext_internal<P: CipherSuiteProvider>(
        &mut self,
        provider: &P,
        plaintext: MLSPlaintext,
        local: Option<LocalCommit>,
        check_membership: bool,
    ) -> (r: Result<Option<Vec<u8>>, GroupError>)
        requires
            old(self).wf(),
            plaintext.wf(),
        ensures
            final(self).wf(),
            plaintext.epoch != old(self).context.epoch <==> r matches Err(GroupError::InvalidPlaintextEpoch),
            plaintext.epoch == old(self).context.epoch ==> (r matches Err(GroupError::LeafNotFound) <==> node_at(
                old(self).public_tree.nodes@,
                2 * plaintext.sender,
            ) is None),
            r is Err ==> *final(self) == *old(self),
            r is Ok ==> plaintext.epoch == old(self).context.epoch,
            r is Ok ==> processed(*old(self), *final(self), plaintext, r->Ok_0),
            plaintext.epoch == old(self).context.epoch && (plaintext.content matches Content::Commit(c) && c.path is None
                && requires_path(*old(self), c.proposals@)) ==> r is Err && (r matches Err(GroupError::InvalidCommit)
                || r matches Err(GroupError::InvalidSignature) || r matches Err(GroupError::InvalidMembershipTag)
                || r matches Err(GroupError::LeafNotFound)),
            plaintext.epoch == old(self).context.epoch && (plaintext.content matches Content::Commit(c) && c.path is None
                && !requires_path(*old(self), c.proposals@) && apply_owed(*old(self), c.proposals@, LeafIndex(plaintext.sender)))
                && old(self).context.epoch < u64::MAX ==> r is Ok || r matches Err(GroupError::InvalidConfirmationTag)
                || r matches Err(GroupError::InvalidSignature) || r matches Err(GroupError::InvalidMembershipTag)
                || r matches Err(GroupError::LeafNotFound),
            plaintext.epoch == old(self).context.epoch && (plaintext.content matches Content::Commit(c)
                && !(c.path is None && requires_path(*old(self), c.proposals@))
                && exists|i: int| 0 <= i < c.proposals@.len() && resolve(*old(self), #[trigger] c.proposals@[i]) is None)
                ==> r is Err && (r matches Err(GroupError::MissingProposal(_)) || r matches Err(GroupError::InvalidSignature)
                || r matches Err(GroupError::InvalidMembershipTag) || r matches Err(GroupError::LeafNotFound)),
            r is Ok && check_membership ==> membership_ok(*old(self), plaintext),
            r matches Err(GroupError::InvalidMembershipTag) ==> check_membership && !membership_ok(*old(self), plaintext),
            r is Ok && (local matches Some(l) && plaintext.content matches Content::Commit(c) && c.path is Some) ==> evolved_with(
                old(self).hash(),
                old(self).key_schedule.init_secret@,
                final(self).key_schedule,
                final(self).context,
                local->Some_0.commit_secret@,
            ),
    {
        if plaintext.epoch != self.context.epoch {
            return Err(GroupError::InvalidPlaintextEpoch);
        }
        let sender = LeafIndex(plaintext.sender);
        let sig_key = match self.public_tree.get_leaf_node(sender) {
            Some(leaf) => copy_bytes(leaf.signing_identity.signature_key.as_slice()),
            None => {
                return Err(GroupError::LeafNotFound);
            },
        };
        let tbs = self.signable_bytes(&plaintext);
        let signature_valid = provider.verify(sig_key.as_slice(), plaintext.signature.as_slice(), tbs.as_slice());
        self.process_verified_plaintext(provider, plaintext, local, check_membership, signature_valid)
    }

    /// Handles a plaintext of the current epoch from a member whose leaf is
    /// present, once its signature has been checked: `signature_valid` is
    /// what the provider answered. A rejected signature gives
    /// `InvalidSignature`, a missing or wrong membership tag (when it is
    /// checked) `InvalidMembershipTag`; then an application message gives its
    /// content, a proposal is filed in the cache, and a commit is applied.
    /// Any failure leaves the group as it was.
    #[verifier::rlimit(60)]
    pub fn process_verified_plaintext<P: CipherSuiteProvider>(
        &mut self,
        provider: &P,
        plaintext: MLSPlaintext,
        local: Option<LocalCommit>,
        check_membership: bool,
        signature_valid: bool,
    ) -> (r: Result<Option<Vec<u8>>, GroupError>)
        requires
            old(self).wf(),
            plaintext.wf(),
            plaintext.epoch == old(self).context.epoch,
            node_at(old(self).public_tree.nodes@, 2 * plaintext.sender) is Some,
        ensures
            final(self).wf(),
            r is Err ==> *final(self) == *old(self),
            !signature_valid <==> r matches Err(GroupError::InvalidSignature),
            signature_valid ==> (r matches Err(GroupError::InvalidMembershipTag) <==> check_membership && !membership_ok(*old(self), plaintext)),
            r is Ok ==> processed(*old(self), *final(self), plaintext, r->Ok_0),
            r matches Err(e) ==> !(e is InvalidPlaintextEpoch) && !(e is LeafNotFound),
            r is Ok && (local matches Some(l) && plaintext.content matches Content::Commit(c) && c.path is Some) ==> evolved_with(
                old(self).hash(),
                old(self).key_schedule.init_secret@,
                final(self).key_schedule,
                final(self).context,
                local->Some_0.commit_secret@,
            ),
            signature_valid && (!check_membership || membership_ok(*old(self), plaintext)) ==> match plaintext.content {
                Content::Application(a) => (r matches Ok(Some(o)) && o@ == a@) && *final(self) == *old(self),
                Content::Proposal(p) => r matches Ok(None),
                Content::Commit(c) => {
                    &&& (c.path is None && requires_path(*old(self), c.proposals@) ==> r matches Err(GroupError::InvalidCommit))
                    &&& (c.path is None && !requires_path(*old(self), c.proposals@)
                        && apply_owed(*old(self), c.proposals@, LeafIndex(plaintext.sender)) && old(self).context.epoch < u64::MAX
                        ==> r is Ok || r matches Err(GroupError::InvalidConfirmationTag))
                    &&& (!(c.path is None && requires_path(*old(self), c.proposals@)) && (exists|i: int| 0 <= i < c.proposals@.len()
                        && resolve(*old(self), #[trigger] c.proposals@[i]) is None) ==> r matches Err(GroupError::MissingProposal(_)))
                },
            },
    {
        if !signature_valid {
            return Err(GroupError::InvalidSignature);
        }
        let sender = LeafIndex(plaintext.sender);
        if check_membership {
            let expected = self.membership_tag(&plaintext);
            let ok = match &plaintext.membership_tag {
                Some(t) => bytes_eq(t.as_slice(), expected.as_slice()),
                None => false,
            };
            if !ok {
                return Err(GroupError::InvalidMembershipTag);
            }
        }
        match &plaintext.content {
            Content::Application(data) => Ok(Some(copy_bytes(data.as_slice()))),
            Content::Proposal(p) => {
                let reference = ProposalRef::from_plaintext(self.cipher_suite, &plaintext, false);
                let copy = copy_proposal(p);
                self.file_proposal(reference.0, PendingProposal { proposal: copy, sender }, Ghost(*p));
                Ok(None)
            },
            Content::Commit(commit) => {
                let update = match self.process_commit(provider, &plaintext, commit, local) {
                    Ok(u) => u,
                    Err(e) => {
                        return Err(e);
                    },
                };
                let ghost cs = choose|cs: Seq<u8>| evolved_with(self.hash(), self.key_schedule.init_secret@, update.key_schedule, update.group_context, cs);
                self.public_tree = update.public_tree;
                let mut fresh: Vec<(u32, Vec<u8>)> = match update.secret_keys {
                    Some(keys) => keys,
                    None => Vec::new(),
                };
                match update.leaf_secret {
                    Some(ls) => {
                        fresh.insert(0, (2 * self.private_tree.self_index.0, ls));
                    },
                    None => {},
                }
                self.private_tree.secret_keys = merge_keys(&self.private_tree.secret_keys, fresh);
                self.context = update.group_context;
                self.key_schedule = update.key_schedule;
                self.confirmation_tag = update.confirmation_tag;
                self.interim_transcript_hash = update.interim_transcript_hash;
                self.proposals = Vec::new();
                self.pending_updates = Vec::new();
                self.next_generation = 0;
                assert(evolved_with(old(self).hash(), old(self).key_schedule.init_secret@, self.key_schedule, self.context, cs));
                Ok(None)
            },
        }
    }
}

/// What handling `m` did to the group: an application message changes
/// nothing and gives its content; a proposal joins the cache; a commit moves
/// the group to the next epoch with an empty cache and the commit's
/// confirmation tag.
pub open spec fn processed(old: Group, new: Group, m: MLSPlaintext, out: Option<Vec<u8>>) -> bool {
    match m.content {
        Content::Application(a) => new == old && (out matches Some(o) && o@ == a@),
        Content::Proposal(p) => out is None && filed(old, new, ProposalRef::spec_of(old.cipher_suite, m, false), p, LeafIndex(m.sender)),
        Content::Commit(c) => {
            &&& out is None
            &&& (c.path is None ==> !requires_path(old, c.proposals@))
            &&& new.context.epoch == old.context.epoch + 1
            &&& new.context.group_id@ == old.context.group_id@
            &&& new.proposals@.len() == 0
            &&& new.pending_updates@.len() == 0
            &&& (m.confirmation_tag matches Some(t) && t@ == new.confirmation_tag@)
            &&& new.context.confirmed_transcript_hash@ == spec_confirmed_transcript_hash(
                old.hash(),
                old.interim_transcript_hash@,
                m,
            )
            &&& new.context.tree_hash@ == crate::tree_kem::tree_hash_excl(
                old.hash(),
                new.public_tree.nodes@,
                new.public_tree.root().0,
                new.public_tree.root().1,
                Seq::empty(),
            )
            &&& new.cipher_suite == old.cipher_suite
            &&& exists|cs: Seq<u8>| #[trigger] evolved_with(old.hash(), old.key_schedule.init_secret@, new.key_schedule, new.context, cs)
        },
    }
}

pub fn update_path_fits(p: &crate::tree_kem::ValidatedUpdatePath) -> (r: bool)
    ensures
        r ==> p.leaf_node.wf() && forall|k: int| 0 <= k < p.nodes@.len() ==> (#[trigger] p.nodes@[k]).public_key@.len() <= u32::MAX,
{
    if !leaf_node_fits(&p.leaf_node) {
        return false;
    }
    let mut i: usize = 0;
    while i < p.nodes.len()
        invariant
            i <= p.nodes@.len(),
            forall|k: int| 0 <= k < i ==> (#[trigger] p.nodes@[k]).public_key@.len() <= u32::MAX,
        decreases p.nodes@.len() - i,
    {
        if p.nodes[i].public_key.len() > u32::MAX as usize {
            return false;
        }
        i = i + 1;
    }
    true
}

pub fn copy_path_nodes(nodes: &Vec<crate::tree_kem::UpdatePathNode>) -> (r: Vec<crate::tree_kem::UpdatePathNode>)
    ensures
        r@.len() == nodes@.len(),
        forall|k: int| 0 <= k < nodes@.len() ==> (#[trigger] r@[k]).public_key@ == nodes@[k].public_key@,
{
    let mut r: Vec<crate::tree_kem::UpdatePathNode> = Vec::new();
    let mut i: usize = 0;
    while i < nodes.len()
        invariant
            i <= nodes@.len(),
            r@.len() == i,
            forall|k: int| 0 <= k < i ==> (#[trigger] r@[k]).public_key@ == nodes@[k].public_key@,
        decreases nodes@.len() - i,
    {
        r.push(crate::tree_kem::UpdatePathNode { public_key: copy_bytes(nodes[i].public_key.as_slice()), encrypted_path_secret: Vec::new() });
        i = i + 1;
    }
    r
}

} // verus!

verus! {

/// The public key held in a slot, if any.
fn public_key_of(tree: &TreeKemPublic, x: u32) -> (r: Option<&Vec<u8>>)
    requires
        tree.wf(),
{
    if x as usize >= tree.nodes.len() {
        return None;
    }
    match &tree.nodes[x as usize] {
        Some(Node::Leaf(l)) => Some(&l.public_key),
        Some(Node::Parent(p)) => Some(&p.public_key),
        None => None,
    }
}

/// The secrets that building an update path produced.
pub struct GeneratedPath {
    pub path: crate::tree_kem::ValidatedUpdatePath,
    pub commit_secret: Vec<u8>,
    pub secret_keys: Vec<(u32, Vec<u8>)>,
    pub path_secrets: Vec<(u32, Vec<u8>)>,
}

impl Group {
    /// Builds an update path for this member over `tree` from `leaf_secret`:
    /// the path secret of each node of the filtered direct path, bottom up, is
    /// one more step of the chain, and is sealed to the co-path child's
    /// resolution without the leaves just added. The commit secret is the step
    /// after the root's.
    pub fn generate_update_path<P: CipherSuiteProvider>(
        &self,
        provider: &P,
        tree: &TreeKemPublic,
        leaf_secret: &[u8],
        added: &[LeafIndex],
        context_bytes: &[u8],
    ) -> (r: Result<GeneratedPath, GroupError>)
        requires
            self.wf(),
            tree.wf(),
            self.private_tree.self_index.0 < tree.spec_leaf_count(),
        ensures
            r matches Ok(g) ==> {
                &&& g.commit_secret@ == path_chain(
                    self.hash(),
                    leaf_secret@,
                    (crate::parent_hash::filtered_path_of(tree, self.private_tree.self_index).len() + 1) as nat,
                )
                &&& g.path.nodes@.len() == crate::parent_hash::filtered_path_of(tree, self.private_tree.self_index).len()
                &&& crate::framing::path_wf(g.path)
            },
    {
        let h = crate::crypto::Hash::new(self.cipher_suite);
        let me = self.private_tree.self_index;
        let own = match tree.get_leaf_node(me) {
            Some(l) => l,
            None => {
                return Err(GroupError::LeafNotFound);
            },
        };
        let filtered = tree.filtered_direct_path_co_path(me);
        let m = filtered.len();
        let leaf_node_secret = crate::kdf::derive_secret(&h, leaf_secret, Label::Node);
        let (leaf_sk, leaf_pk) = provider.kem_derive(leaf_node_secret.as_slice());
        if leaf_pk.len() > u32::MAX as usize {
            return Err(GroupError::CodecError);
        }
        let mut leaf = copy_leaf_node(own);
        leaf.public_key = leaf_pk;
        leaf.leaf_node_source = crate::tree_kem::LeafNodeSource::KeyPackage;
        let mut secret_keys: Vec<(u32, Vec<u8>)> = Vec::new();
        secret_keys.push((2 * me.0, leaf_sk));
        let mut path_secrets: Vec<(u32, Vec<u8>)> = Vec::new();
        let mut nodes: Vec<crate::tree_kem::UpdatePathNode> = Vec::new();
        let mut ps = crate::kdf::derive_secret(&h, leaf_secret, Label::Path);
        assert(path_chain(h, leaf_secret@, 0) == leaf_secret@);
        assert(ps@ == path_chain(h, leaf_secret@, 1));
        assert(crate::tree_kem::node_ok(tree.nodes@[2 * me.0 as int], 2 * me.0 as int, tree.spec_leaf_count()));
        let mut t: usize = m;
        while t > 0
            invariant
                t <= m,
                m == filtered@.len(),
                tree.wf(),
                nodes@.len() == m - t,
                ps@ == path_chain(h, leaf_secret@, (m - t + 1) as nat),
                leaf.wf(),
                forall|k: int| 0 <= k < nodes@.len() ==> crate::framing::path_node_wf(#[trigger] nodes@[k]),
                forall|j: int|
                    0 <= j < filtered@.len() ==> {
                        let e = #[trigger] filtered@[j];
                        &&& e.2 >= 2
                        &&& crate::tree_kem::in_range(e.0 as int, e.2 as int, tree.nodes@.len() as int)
                        &&& crate::tree_kem::in_range(e.1 as int, (e.2 / 2) as int, tree.nodes@.len() as int)
                    },
            decreases t,
        {
            let e = filtered[t - 1];
            let node_secret = crate::kdf::derive_secret(&h, ps.as_slice(), Label::Node);
            let (sk, pk) = provider.kem_derive(node_secret.as_slice());
            if pk.len() > u32::MAX as usize {
                return Err(GroupError::CodecError);
            }
            let res = without_added(tree.resolution_of(e.1, e.2 / 2).as_slice(), added);
            let mut cts: Vec<HpkeCiphertext> = Vec::new();
            let mut j: usize = 0;
            while j < res.len()
                invariant
                    j <= res@.len(),
                    tree.wf(),
                    cts@.len() <= j,
                    forall|k: int| 0 <= k < cts@.len() ==> crate::framing::ct_wf(#[trigger] cts@[k]),
                decreases res@.len() - j,
            {
                match public_key_of(tree, res[j]) {
                    Some(key) => {
                        let ct = provider.hpke_seal(key.as_slice(), context_bytes, ps.as_slice());
                        if ct.kem_output.len() > u32::MAX as usize || ct.ciphertext.len() > u32::MAX as usize {
                            return Err(GroupError::CodecError);
                        }
                        cts.push(ct);
                    },
                    None => {},
                }
                j = j + 1;
            }
            if cts.len() > u32::MAX as usize {
                return Err(GroupError::CodecError);
            }
            let node = crate::tree_kem::UpdatePathNode { public_key: pk, encrypted_path_secret: cts };
            assert(crate::framing::path_node_wf(node));
            nodes.insert(0, node);
            secret_keys.push((e.0, sk));
            path_secrets.push((e.0, copy_bytes(ps.as_slice())));
            ps = crate::kdf::derive_secret(&h, ps.as_slice(), Label::Path);
            t = t - 1;
            assert forall|k: int| 0 <= k < nodes@.len() implies crate::framing::path_node_wf(#[trigger] nodes@[k]) by {}
        }
        if m > u32::MAX as usize {
            return Err(GroupError::CodecError);
        }
        let path = crate::tree_kem::ValidatedUpdatePath { leaf_node: leaf, nodes };
        Ok(GeneratedPath { path, commit_secret: ps, secret_keys, path_secrets })
    }
}

} // verus!

verus! {

pub open spec fn enc_group_info_tbs(g: GroupInfo) -> Seq<u8> {
    enc_bytes(g.group_id@) + enc_u64(g.epoch) + enc_bytes(g.tree_hash@) + enc_bytes(g.confirmed_transcript_hash@)
        + enc_bytes(g.extensions@) + enc_bytes(g.confirmation_tag@) + crate::codec::enc_u32(g.signer_index)
}

pub open spec fn enc_group_info(g: GroupInfo) -> Seq<u8> {
    enc_group_info_tbs(g) + enc_bytes(g.signature@)
}

pub open spec fn enc_group_secrets(s: GroupSecrets) -> Seq<u8> {
    enc_bytes(s.joiner_secret@) + enc_opt_bytes(match s.path_secret {
        Some(p) => Some(p.path_secret@),
        None => None,
    })
}

impl GroupInfo {
    pub open spec fn wf(&self) -> bool {
        &&& fits_u32(self.group_id@)
        &&& fits_u32(self.tree_hash@)
        &&& fits_u32(self.confirmed_transcript_hash@)
        &&& fits_u32(self.extensions@)
        &&& fits_u32(self.confirmation_tag@)
        &&& fits_u32(self.signature@)
    }

    /// What the signature of a group info covers: every field but the
    /// signature.
    pub fn to_signable_vec(&self) -> (r: Vec<u8>)
        requires
            self.wf(),
        ensures
            r@ == enc_group_info_tbs(*self),
    {
        let mut out: Vec<u8> = Vec::new();
        write_bytes(&mut out, self.group_id.as_slice());
        write_u64(&mut out, self.epoch);
        write_bytes(&mut out, self.tree_hash.as_slice());
        write_bytes(&mut out, self.confirmed_transcript_hash.as_slice());
        write_bytes(&mut out, self.extensions.as_slice());
        write_bytes(&mut out, self.confirmation_tag.as_slice());
        crate::codec::write_u32(&mut out, self.signer_index);
        assert(out@ =~= enc_group_info_tbs(*self));
        out
    }

    pub fn to_bytes(&self) -> (r: Vec<u8>)
        requires
            self.wf(),
        ensures
            r@ == enc_group_info(*self),
    {
        let mut out = self.to_signable_vec();
        write_bytes(&mut out, self.signature.as_slice());
        out
    }
}

impl GroupSecrets {
    pub open spec fn wf(&self) -> bool {
        &&& fits_u32(self.joiner_secret@)
        &&& (self.path_secret matches Some(p) ==> fits_u32(p.path_secret@))
    }

    pub fn to_bytes(&self) -> (r: Vec<u8>)
        requires
            self.wf(),
        ensures
            r@ == enc_group_secrets(*self),
    {
        let mut out: Vec<u8> = Vec::new();
        write_bytes(&mut out, self.joiner_secret.as_slice());
        let p: Option<&[u8]> = match &self.path_secret {
            Some(p) => Some(p.path_secret.as_slice()),
            None => None,
        };
        write_opt_bytes(&mut out, p);
        assert(out@ =~= enc_group_secrets(*self));
        out
    }
}

impl KeyPackage {
    /// The reference of a key package: the hash of its encoding.
    pub fn hash_ref(&self, cipher_suite: CipherSuite) -> (r: Vec<u8>)
        requires
            self.wf(),
        ensures
            r@ == crate::crypto::Hash::spec_new(cipher_suite).spec_hash(crate::framing::enc_key_package(*self)),
    {
        let h = crate::crypto::Hash::new(cipher_suite);
        let mut out: Vec<u8> = Vec::new();
        crate::framing::write_key_package(&mut out, self);
        h.hash(out.as_slice())
    }
}

/// The key and nonce that seal a group info under a welcome secret.
pub fn welcome_key_nonce(h: &crate::crypto::Hash, welcome_secret: &[u8]) -> (r: (Vec<u8>, Vec<u8>)) {
    let key = crate::kdf::derive_secret(h, welcome_secret, Label::Key);
    let empty: Vec<u8> = Vec::new();
    let nonce = crate::kdf::expand_with_label(h, welcome_secret, Label::Nonce, empty.as_slice(), 12);
    (key, nonce)
}

/// The path secret of the lowest node of `filtered` whose co-path child
/// covers leaf `leaf`.
fn path_secret_for(filtered: &Vec<(u32, u32, u32)>, secrets: &Vec<(u32, Vec<u8>)>, leaf: LeafIndex) -> (r: Option<Vec<u8>>)
    ensures
        r matches Some(v) ==> v@.len() <= u32::MAX,
{
    let me: u64 = 2 * (leaf.0 as u64);
    let mut k: usize = filtered.len();
    while k > 0
        invariant
            k <= filtered@.len(),
        decreases k,
    {
        let e = filtered[k - 1];
        if covers(e, me) {
            let mut i: usize = 0;
            while i < secrets.len()
                invariant
                    i <= secrets@.len(),
                decreases secrets@.len() - i,
            {
                if secrets[i].0 == e.0 && secrets[i].1.len() <= u32::MAX as usize {
                    return Some(copy_bytes(secrets[i].1.as_slice()));
                }
                i = i + 1;
            }
            return None;
        }
        k = k - 1;
    }
    None
}

impl Group {
    /// A commit of every cached proposal, by reference and in the order they
    /// arrived, followed by `proposals` inline. With `leaf_secret` it carries
    /// an update path built from it; a path is required when there are no
    /// proposals or any update or remove. New members get a Welcome.
    pub fn commit_proposals<P: CipherSuiteProvider>(
        &self,
        provider: &P,
        signing_key: &[u8],
        proposals: Vec<Proposal>,
        leaf_secret: Option<Vec<u8>>,
    ) -> (r: Result<PendingCommit, GroupError>)
        requires
            self.wf(),
            forall|k: int| 0 <= k < proposals@.len() ==> (#[trigger] proposals@[k]).wf(),
        ensures
            r matches Ok(pc) ==> {
                &&& pc.plaintext.wf()
                &&& pc.plaintext.epoch == self.context.epoch
                &&& pc.plaintext.sender == self.private_tree.self_index.0
                &&& (pc.plaintext.content matches Content::Commit(c) && c.proposals@.len() == self.proposals@.len() + proposals@.len()
                    && (c.path is Some <==> leaf_secret is Some))
                &&& pc.plaintext.confirmation_tag is Some
            },
            r is Ok && leaf_secret is None ==> self.proposals@.len() + proposals@.len() > 0
                && forall|k: int| 0 <= k < proposals@.len() ==> (#[trigger] proposals@[k]) is Add,
            r matches Ok(pc) ==> commit_confirmed(*self, pc.plaintext, pc.commit_secret@, pc.public_tree) && pc.public_tree.wf()
                && pc.plaintext.group_id@ == self.context.group_id@
                && (pc.plaintext.content matches Content::Commit(c)
                    && (forall|j: int| 0 <= j < self.proposals@.len() ==> ((#[trigger] c.proposals@[j]) matches ProposalOrRef::Reference(id)
                        && id@ == self.proposals@[j].0@))
                    && (forall|k: int| 0 <= k < proposals@.len() ==> c.proposals@[self.proposals@.len() + k] == ProposalOrRef::Proposal(#[trigger] proposals@[k]))),
            leaf_secret is None && self.proposals@.len() + proposals@.len() <= u32::MAX
                && commit_requires_path(*self, proposals@) ==> r matches Err(GroupError::InvalidCommit),
            r matches Ok(pc) ==> (pc.welcome is Some <==> adds_of(resolved_list(*self, proposals@)).len() > 0),
            r matches Ok(pc) ==> (pc.welcome matches Some(w) ==> welcome_for(w, self.cipher_suite, adds_of(resolved_list(*self, proposals@)))),
    {
        let h = crate::crypto::Hash::new(self.cipher_suite);
        let me = self.private_tree.self_index;
        let por = match self.proposal_list(proposals) {
            Ok(p) => p,
            Err(e) => {
                return Err(e);
            },
        };
        let ghost c: int = self.proposals@.len() as int;
        proof {
            assert(requires_path(*self, por@) == commit_requires_path(*self, proposals@)) by {
                if requires_path(*self, por@) && por@.len() > 0 {
                    let i = choose|i: int| 0 <= i < por@.len() && (resolve(*self, #[trigger] por@[i]) matches Some(p) && !(p is Add));
                    if i >= c {
                        assert(por@[c + (i - c)] == ProposalOrRef::Proposal(proposals@[i - c]));
                    } else {
                        assert(resolve_id(*self, self.proposals@[i].0@) == resolve(*self, por@[i]));
                    }
                }
                if commit_requires_path(*self, proposals@) && self.proposals@.len() + proposals@.len() > 0 {
                    if exists|j: int| 0 <= j < c && (resolve_id(*self, (#[trigger] self.proposals@[j]).0@) matches Some(p) && !(p is Add)) {
                        let j = choose|j: int| 0 <= j < c && (resolve_id(*self, (#[trigger] self.proposals@[j]).0@) matches Some(p) && !(p is Add));
                        assert(resolve(*self, por@[j]) == resolve_id(*self, self.proposals@[j].0@));
                    } else {
                        let k = choose|k: int| 0 <= k < proposals@.len() && !((#[trigger] proposals@[k]) is Add);
                        assert(por@[c + k] == ProposalOrRef::Proposal(proposals@[k]));
                    }
                }
            }
        }
        if leaf_secret.is_none() && self.por_requires_path(por.as_slice()) {
            return Err(GroupError::InvalidCommit);
        }
        let (mut state, fetched) = match self.apply_proposals(me, por.as_slice()) {
            Ok(s) => s,
            Err(e) => {
                return Err(e);
            },
        };
        if state.path_update_required && leaf_secret.is_none() {
            return Err(GroupError::InvalidCommit);
        }
        proof {
            if leaf_secret is None {
                assert(!path_required(fetched@));
                assert forall|k: int| 0 <= k < proposals@.len() implies (#[trigger] proposals@[k]) is Add by {
                    let i = self.proposals@.len() + k;
                    assert(por@[i] == ProposalOrRef::Proposal(proposals@[k]));
                    assert(fetched@[i].proposal.proposal_kind() == 1);
                }
            }
        }
        let ghost rl = resolved_list(*self, proposals@);
        proof {
            assert forall|i: int| 0 <= i < por@.len() implies crate::framing::proposal_same(#[trigger] rl[i], props_of(fetched@)[i]) by {
                if i < c {
                    lemma_first_in_found(self.proposals@, self.proposals@[i].0@, i, c);
                    assert(resolve(*self, por@[i]) == Some(rl[i]));
                } else {
                    assert(por@[c + (i - c)] == ProposalOrRef::Proposal(proposals@[i - c]));
                    assert(resolve(*self, por@[i]) == Some(rl[i]));
                }
            }
            lemma_adds_same(rl, props_of(fetched@));
        }
        let ghost fv = fetched@;
        let r = self.finish_commit(provider, signing_key, por, state, fetched, leaf_secret);
        proof {
            if r is Ok && r->Ok_0.welcome is Some {
                let w = r->Ok_0.welcome->Some_0;
                {
                    assert(welcome_for(w, self.cipher_suite, adds_of(props_of(fv))));
                    assert forall|i: int| 0 <= i < adds_of(rl).len() implies (#[trigger] w.secrets@[i]).key_package_hash@
                        == crate::crypto::Hash::spec_new(self.cipher_suite).spec_hash(crate::framing::enc_key_package(adds_of(rl)[i])) by {
                        assert(crate::framing::enc_key_package(adds_of(rl)[i]) == crate::framing::enc_key_package(adds_of(props_of(fv))[i]));
                    }
                }
            }
        }
        r
    }

    /// The rest of a commit once its proposals are applied: the path, the
    /// framed and signed commit, its confirmation tag and the Welcome.
    fn finish_commit<P: CipherSuiteProvider>(
        &self,
        provider: &P,
        signing_key: &[u8],
        por: Vec<ProposalOrRef>,
        state: ProvisionalState,
        fetched: Vec<PendingProposal>,
        leaf_secret: Option<Vec<u8>>,
    ) -> (r: Result<PendingCommit, GroupError>)
        requires
            self.wf(),
            state.public_tree.wf(),
            por@.len() <= u32::MAX,
            forall|k: int| 0 <= k < por@.len() ==> (#[trigger] por@[k]).wf(),
            forall|j: int| 0 <= j < fetched@.len() ==> (#[trigger] fetched@[j]).proposal.wf(),
        ensures
            r matches Ok(pc) ==> {
                &&& pc.plaintext.wf()
                &&& pc.plaintext.epoch == self.context.epoch
                &&& pc.plaintext.sender == self.private_tree.self_index.0
                &&& pc.plaintext.group_id@ == self.context.group_id@
                &&& (pc.plaintext.content matches Content::Commit(c) && c.proposals == por
                    && (c.path is Some <==> leaf_secret is Some))
                &&& commit_confirmed(*self, pc.plaintext, pc.commit_secret@, pc.public_tree) && pc.public_tree.wf()
                &&& (pc.welcome is Some <==> adds_of(props_of(fetched@)).len() > 0)
                &&& (pc.welcome matches Some(w) ==> welcome_for(w, self.cipher_suite, adds_of(props_of(fetched@))))
            },
    {
        let h = crate::crypto::Hash::new(self.cipher_suite);
        let me = self.private_tree.self_index;
        let mut state = state;
        if me.0 >= state.public_tree.total_leaf_count() {
            return Err(GroupError::LeafNotFound);
        }
        let context_bytes = self.context.to_bytes();
        let filtered = state.public_tree.filtered_direct_path_co_path(me);
        let (path, commit_secret, path_keys, path_secrets) = match self.commit_path(
            provider,
            &mut state.public_tree,
            &leaf_secret,
            state.added_leaves.as_slice(),
            context_bytes.as_slice(),
        ) {
            Ok(v) => v,
            Err(e) => {
                return Err(e);
            },
        };
        if self.context.epoch == u64::MAX {
            return Err(GroupError::EpochOverflow);
        }
        let commit = Commit { proposals: por, path };
        let mut plaintext = match self.construct_mls_plaintext(provider, signing_key, Content::Commit(commit)) {
            Ok(m) => m,
            Err(e) => {
                return Err(e);
            },
        };
        let confirmed = self.confirmed_transcript_hash(&plaintext);
        let tree_hash = state.public_tree.tree_hash(&h);
        let new_context = GroupContext {
            group_id: copy_bytes(self.context.group_id.as_slice()),
            epoch: self.context.epoch + 1,
            tree_hash,
            confirmed_transcript_hash: confirmed,
            extensions: copy_bytes(self.context.extensions.as_slice()),
        };
        let new_context_bytes = new_context.to_bytes();
        let psk_secret = zero_bytes(h.size());
        let derivation = self.key_schedule.evolved_from(
            &h,
            commit_secret.as_slice(),
            psk_secret.as_slice(),
            new_context_bytes.as_slice(),
        );
        let tag = confirmation_tag(
            &h,
            derivation.key_schedule.confirmation_key.as_slice(),
            new_context.confirmed_transcript_hash.as_slice(),
        );
        plaintext.confirmation_tag = Some(copy_bytes(tag.as_slice()));
        assert(evolved_with(self.hash(), self.key_schedule.init_secret@, derivation.key_schedule, new_context, commit_secret@));
        let welcome = if !any_add(&fetched) {
            None
        } else {
            match self.build_welcome(
                provider,
                signing_key,
                &state.public_tree,
                &fetched,
                &filtered,
                &path_secrets,
                &new_context,
                tag,
                &derivation,
            ) {
                Ok(w) => Some(w),
                Err(e) => {
                    return Err(e);
                },
            }
        };
        Ok(PendingCommit { plaintext, public_tree: state.public_tree, commit_secret, path_keys, welcome })
    }
}

/// Some leaf of `tree` has public key `key`.
pub open spec fn has_leaf_with_key(tree: &TreeKemPublic, key: Seq<u8>) -> bool {
    exists|k: u32| k < tree.spec_leaf_count() && (#[trigger] tree.nodes@[2 * k as int] matches Some(Node::Leaf(l)) && l.public_key@ == key)
}

/// The leaf whose public key is `key`, if any.
pub fn find_leaf_by_key(tree: &TreeKemPublic, key: &[u8]) -> (r: Option<LeafIndex>)
    requires
        tree.wf(),
    ensures
        r matches Some(l) ==> l.0 < tree.spec_leaf_count() && (tree.nodes@[2 * l.0 as int] matches Some(Node::Leaf(n)) && n.public_key@ == key@),
        r is None <==> !has_leaf_with_key(tree, key@),
{
    let n = tree.total_leaf_count();
    let mut m: u32 = 0;
    while m < n
        invariant
            tree.wf(),
            n == tree.spec_leaf_count(),
            m <= n,
            forall|k: u32| k < m ==> !(#[trigger] tree.nodes@[2 * k as int] matches Some(Node::Leaf(l)) && l.public_key@ == key@),
        decreases n - m,
    {
        match &tree.nodes[(2 * m) as usize] {
            Some(Node::Leaf(l)) => {
                if bytes_eq(l.public_key.as_slice(), key) {
                    return Some(LeafIndex(m));
                }
            },
            _ => {},
        }
        m = m + 1;
    }
    None
}


impl Group {
    /// The Welcome for the members that a commit adds: the signed group info
    /// sealed under the welcome secret, and for each new member its group
    /// secrets sealed to its key package's init key.
    fn build_welcome<P: CipherSuiteProvider>(
        &self,
        provider: &P,
        signing_key: &[u8],
        tree: &TreeKemPublic,
        fetched: &Vec<PendingProposal>,
        filtered: &Vec<(u32, u32, u32)>,
        path_secrets: &Vec<(u32, Vec<u8>)>,
        new_context: &GroupContext,
        tag: Vec<u8>,
        derivation: &crate::key_schedule::KeyScheduleDerivation,
    ) -> (r: Result<Welcome, GroupError>)
        requires
            self.wf(),
            tree.wf(),
            new_context.wf(),
            tag@.len() <= 64,
            derivation.joiner_secret@.len() == self.hash().spec_size(),
            forall|j: int| 0 <= j < fetched@.len() ==> (#[trigger] fetched@[j]).proposal.wf(),
        ensures
            r matches Ok(w) ==> welcome_for(w, self.cipher_suite, adds_of(props_of(fetched@))),
    {
        let h = crate::crypto::Hash::new(self.cipher_suite);
        let me = self.private_tree.self_index;
        let mut group_info = GroupInfo {
            group_id: copy_bytes(self.context.group_id.as_slice()),
            epoch: new_context.epoch,
            tree_hash: copy_bytes(new_context.tree_hash.as_slice()),
            confirmed_transcript_hash: copy_bytes(new_context.confirmed_transcript_hash.as_slice()),
            extensions: copy_bytes(self.context.extensions.as_slice()),
            confirmation_tag: tag,
            signer_index: me.0,
            signature: Vec::new(),
        };
        let tbs = group_info.to_signable_vec();
        let signature = provider.sign(signing_key, tbs.as_slice());
        if signature.len() > u32::MAX as usize {
            return Err(GroupError::CodecError);
        }
        group_info.signature = signature;
        let info_bytes = group_info.to_bytes();
        let (key, nonce) = welcome_key_nonce(&h, derivation.welcome_secret.as_slice());
        let empty: Vec<u8> = Vec::new();
        let encrypted_group_info = provider.aead_seal(key.as_slice(), nonce.as_slice(), empty.as_slice(), info_bytes.as_slice());
        let mut secrets: Vec<EncryptedGroupSecrets> = Vec::new();
        let mut k: usize = 0;
        while k < fetched.len()
            invariant
                k <= fetched@.len(),
                tree.wf(),
                derivation.joiner_secret@.len() == crate::crypto::Hash::spec_new(self.cipher_suite).spec_size(),
                forall|j: int| 0 <= j < fetched@.len() ==> (#[trigger] fetched@[j]).proposal.wf(),
                secrets@.len() == adds_of(props_of(fetched@.take(k as int))).len(),
                forall|i: int| 0 <= i < secrets@.len() ==> (#[trigger] secrets@[i]).key_package_hash@
                    == crate::crypto::Hash::spec_new(self.cipher_suite).spec_hash(
                        crate::framing::enc_key_package(adds_of(props_of(fetched@.take(k as int)))[i]),
                    ),
            decreases fetched@.len() - k,
        {
            assert(props_of(fetched@.take(k + 1)).drop_last() =~= props_of(fetched@.take(k as int)));
            assert(props_of(fetched@.take(k + 1)).last() == fetched@[k as int].proposal);
            match &fetched[k].proposal {
                Proposal::Add(a) => {
                    let kp = &a.key_package;
                    let leaf = find_leaf_by_key(tree, kp.leaf_node.public_key.as_slice());
                    let path_secret = match leaf {
                        Some(l) => match path_secret_for(filtered, path_secrets, l) {
                            Some(ps) => Some(PathSecret { path_secret: ps }),
                            None => None,
                        },
                        None => None,
                    };
                    let joiner = copy_bytes(derivation.joiner_secret.as_slice());
                    let gs = GroupSecrets { joiner_secret: joiner, path_secret };
                    let gs_bytes = gs.to_bytes();
                    let sealed = provider.hpke_seal(kp.hpke_init_key.as_slice(), empty.as_slice(), gs_bytes.as_slice());
                    secrets.push(EncryptedGroupSecrets {
                        key_package_hash: kp.hash_ref(self.cipher_suite),
                        encrypted_group_secrets: sealed,
                    });
                },
                _ => {},
            }
            k = k + 1;
        }
        assert(fetched@.take(k as int) =~= fetched@);
        Ok(Welcome {
            protocol_version: 1,
            cipher_suite: self.cipher_suite,
            secrets,
            encrypted_group_info,
        })
    }
}


impl Group {
    /// The proposals of a new commit: every cached one by reference, in the
    /// order they arrived, then `proposals` inline.
    fn proposal_list(&self, proposals: Vec<Proposal>) -> (r: Result<Vec<ProposalOrRef>, GroupError>)
        requires
            forall|k: int| 0 <= k < proposals@.len() ==> (#[trigger] proposals@[k]).wf(),
            self.wf(),
        ensures
            self.proposals@.len() + proposals@.len() <= u32::MAX ==> r is Ok,
            r matches Ok(por) ==> por@.len() == self.proposals@.len() + proposals@.len()
                && por@.len() <= u32::MAX
                && (forall|k: int| 0 <= k < por@.len() ==> (#[trigger] por@[k]).wf())
                && (forall|j: int| 0 <= j < self.proposals@.len() ==> ((#[trigger] por@[j]) matches ProposalOrRef::Reference(id)
                    && id@ == self.proposals@[j].0@))
                && (forall|k: int| 0 <= k < proposals@.len() ==> por@[self.proposals@.len() + k] == ProposalOrRef::Proposal(#[trigger] proposals@[k])),
    {
        let mut por: Vec<ProposalOrRef> = Vec::new();
        let mut i: usize = 0;
        while i < self.proposals.len()
            invariant
                self.wf(),
                i <= self.proposals@.len(),
                por@.len() == i,
                forall|k: int| 0 <= k < por@.len() ==> (#[trigger] por@[k]).wf(),
                forall|j: int| 0 <= j < i ==> ((#[trigger] por@[j]) matches ProposalOrRef::Reference(id)
                    && id@ == self.proposals@[j].0@),
            decreases self.proposals@.len() - i,
        {
            let id = copy_bytes(self.proposals[i].0.as_slice());
            if id.len() > u32::MAX as usize {
                return Err(GroupError::CodecError);
            }
            por.push(ProposalOrRef::Reference(id));
            i = i + 1;
        }
        let ghost all = proposals@;
        let mut rest = proposals;
        while rest.len() > 0
            invariant
                por@.len() + rest@.len() == self.proposals@.len() + all.len(),
                rest@ == all.skip((por@.len() - self.proposals@.len()) as int),
                por@.len() >= self.proposals@.len(),
                forall|k: int| 0 <= k < all.len() ==> (#[trigger] all[k]).wf(),
                forall|k: int| 0 <= k < por@.len() ==> (#[trigger] por@[k]).wf(),
                all == proposals@,
                forall|j: int| 0 <= j < self.proposals@.len() ==> ((#[trigger] por@[j]) matches ProposalOrRef::Reference(id)
                    && id@ == self.proposals@[j].0@),
                forall|k: int| 0 <= k < por@.len() - self.proposals@.len() ==> por@[self.proposals@.len() + k] == ProposalOrRef::Proposal(#[trigger] all[k]),
            decreases rest@.len(),
        {
            let ghost k = por@.len() - self.proposals@.len();
            let p = rest.remove(0);
            assert(p == all[k]);
            assert(rest@ =~= all.skip(k + 1));
            por.push(ProposalOrRef::Proposal(p));
        }
        if por.len() > u32::MAX as usize {
            return Err(GroupError::CodecError);
        }
        Ok(por)
    }
}


impl Group {
    /// The update path of a new commit, if `leaf_secret` is given, installed
    /// in `tree` with its parent hashes; and the commit secret.
    fn commit_path<P: CipherSuiteProvider>(
        &self,
        provider: &P,
        tree: &mut TreeKemPublic,
        leaf_secret: &Option<Vec<u8>>,
        added: &[LeafIndex],
        context_bytes: &[u8],
    ) -> (r: Result<(Option<crate::tree_kem::ValidatedUpdatePath>, Vec<u8>, Vec<(u32, Vec<u8>)>, Vec<(u32, Vec<u8>)>), GroupError>)
        requires
            self.wf(),
            old(tree).wf(),
            self.private_tree.self_index.0 < old(tree).spec_leaf_count(),
        ensures
            final(tree).wf(),
            final(tree).spec_leaf_count() == old(tree).spec_leaf_count(),
            r matches Ok(v) ==> (v.0 is Some <==> leaf_secret is Some) && (v.0 matches Some(p) ==> crate::framing::path_wf(p)),
    {
        let h = crate::crypto::Hash::new(self.cipher_suite);
        let me = self.private_tree.self_index;
        match leaf_secret {
            None => Ok((None, zero_bytes(h.size()), Vec::new(), Vec::new())),
            Some(ls) => {
                let g = match self.generate_update_path(
                    provider,
                    tree,
                    ls.as_slice(),
                    added,
                    context_bytes,
                ) {
                    Ok(g) => g,
                    Err(e) => {
                        return Err(e);
                    },
                };
                let GeneratedPath { mut path, commit_secret, secret_keys, path_secrets } = g;
                let installed = crate::tree_kem::ValidatedUpdatePath {
                    leaf_node: copy_leaf_node(&path.leaf_node),
                    nodes: copy_path_nodes(&path.nodes),
                };
                match tree.apply_update_path(me, installed) {
                    Ok(()) => {},
                    Err(_) => {
                        return Err(GroupError::InvalidCommit);
                    },
                }
                let leaf_ph = match tree.update_parent_hashes(&h, me, None) {
                    Ok(ph) => ph,
                    Err(_) => {
                        return Err(GroupError::InvalidRatchetTree);
                    },
                };
                if leaf_ph.0.len() > u32::MAX as usize {
                    return Err(GroupError::CodecError);
                }
                let ph_copy = crate::tree_kem::ParentHash(copy_bytes(leaf_ph.0.as_slice()));
                match tree.set_leaf_node_source(me, crate::tree_kem::LeafNodeSource::Commit(ph_copy)) {
                    Ok(()) => {},
                    Err(_) => {
                        return Err(GroupError::LeafNotFound);
                    },
                }
                path.leaf_node.leaf_node_source = crate::tree_kem::LeafNodeSource::Commit(leaf_ph);
                Ok((Some(path), commit_secret, secret_keys, path_secrets))
            },
        }
    }
}

} // verus!

verus! {

use crate::codec::{lemma_join, parse_bytes, parse_opt_bytes, parse_u32, parse_u64};

impl GroupSecrets {
    /// Reads group secrets that fill `data` exactly.
    pub fn from_bytes(data: &[u8]) -> (r: Option<GroupSecrets>)
        ensures
            r matches Some(s) ==> s.wf() && enc_group_secrets(s) == data@,
    {
        let (joiner_secret, at1) = match parse_bytes(data, 0) { Some(v) => v, None => { return None; } };
        let (ps, at2) = match parse_opt_bytes(data, at1) { Some(v) => v, None => { return None; } };
        if at2 != data.len() {
            return None;
        }
        proof {
            lemma_join(data@, 0, at1 as int, at2 as int);
            assert(data@.subrange(0, at2 as int) =~= data@);
        }
        let path_secret = match ps {
            Some(p) => Some(PathSecret { path_secret: p }),
            None => None,
        };
        let s = GroupSecrets { joiner_secret, path_secret };
        assert(enc_group_secrets(s) =~= data@);
        Some(s)
    }
}

impl GroupInfo {
    /// Reads a group info that fills `data` exactly.
    pub fn from_bytes(data: &[u8]) -> (r: Option<GroupInfo>)
        ensures
            r matches Some(g) ==> g.wf() && enc_group_info(g) == data@,
    {
        let (group_id, at1) = match parse_bytes(data, 0) { Some(v) => v, None => { return None; } };
        let (epoch, at2) = match parse_u64(data, at1) { Some(v) => v, None => { return None; } };
        let (tree_hash, at3) = match parse_bytes(data, at2) { Some(v) => v, None => { return None; } };
        let (confirmed_transcript_hash, at4) = match parse_bytes(data, at3) { Some(v) => v, None => { return None; } };
        let (extensions, at5) = match parse_bytes(data, at4) { Some(v) => v, None => { return None; } };
        let (confirmation_tag, at6) = match parse_bytes(data, at5) { Some(v) => v, None => { return None; } };
        let (signer_index, at7) = match parse_u32(data, at6) { Some(v) => v, None => { return None; } };
        let (signature, at8) = match parse_bytes(data, at7) { Some(v) => v, None => { return None; } };
        if at8 != data.len() {
            return None;
        }
        proof {
            lemma_join(data@, 0, at1 as int, at2 as int);
            lemma_join(data@, 0, at2 as int, at3 as int);
            lemma_join(data@, 0, at3 as int, at4 as int);
            lemma_join(data@, 0, at4 as int, at5 as int);
            lemma_join(data@, 0, at5 as int, at6 as int);
            lemma_join(data@, 0, at6 as int, at7 as int);
            lemma_join(data@, 0, at7 as int, at8 as int);
            assert(data@.subrange(0, at8 as int) =~= data@);
        }
        let g = GroupInfo {
            group_id,
            epoch,
            tree_hash,
            confirmed_transcript_hash,
            extensions,
            confirmation_tag,
            signer_index,
            signature,
        };
        assert(enc_group_info(g) =~= data@);
        Some(g)
    }
}

impl Group {
    /// Joins a group from a Welcome: finds the secrets sealed for
    /// `key_package`, opens them, decrypts the group info under the welcome
    /// secret, checks the signer's signature over it, and hands the rest to
    /// `join_from_group_info`.
    pub fn from_welcome_message<P: CipherSuiteProvider>(
        provider: &P,
        welcome: Welcome,
        public_tree: TreeKemPublic,
        key_package: KeyPackageGeneration,
    ) -> (r: Result<Group, GroupError>)
        ensures
            r matches Err(GroupError::WelcomeKeyPackageNotFound) <==> forall|k: int| 0 <= k < welcome.secrets@.len()
                ==> (#[trigger] welcome.secrets@[k]).key_package_hash@ != key_package.key_package_hash@,
            r matches Ok(g) ==> {
                &&& g.wf()
                &&& g.cipher_suite == welcome.cipher_suite
                &&& g.proposals@.len() == 0
                &&& g.public_tree == public_tree
                &&& crate::parent_hash::parent_hashes_valid(&public_tree, g.hash())
                &&& g.context.tree_hash@ == crate::tree_kem::tree_hash_excl(
                    g.hash(),
                    public_tree.nodes@,
                    public_tree.root().0,
                    public_tree.root().1,
                    Seq::empty(),
                )
                &&& (public_tree.nodes@[2 * g.private_tree.self_index.0 as int] matches Some(Node::Leaf(l))
                    && l.public_key@ == key_package.key_package.leaf_node.public_key@)
                &&& exists|joiner: Seq<u8>| #[trigger] g.key_schedule.derived_from(
                    g.hash(),
                    spec_epoch_secret(g.hash(), joiner, zeros_of(g.hash().spec_size()), enc_context(g.context)),
                )
            },
    {
        let cipher_suite = welcome.cipher_suite;
        let h = crate::crypto::Hash::new(cipher_suite);
        let k = match find_group_secrets(&welcome, key_package.key_package_hash.as_slice()) {
            Some(k) => k,
            None => {
                return Err(GroupError::WelcomeKeyPackageNotFound);
            },
        };
        let empty: Vec<u8> = Vec::new();
        let secrets_bytes = match provider.hpke_open(key_package.secret_key.as_slice(), &welcome.secrets[k].encrypted_group_secrets, empty.as_slice()) {
            Some(b) => b,
            None => {
                return Err(GroupError::HpkeOpenFailure);
            },
        };
        let group_secrets = match GroupSecrets::from_bytes(secrets_bytes.as_slice()) {
            Some(s) => s,
            None => {
                return Err(GroupError::CodecError);
            },
        };
        let zeros = zero_bytes(h.size());
        let welcome_secret = crate::kdf::expand_with_label(&h, group_secrets.joiner_secret.as_slice(), Label::Welcome, zeros.as_slice(), h.size() as u16);
        let (key, nonce) = welcome_key_nonce(&h, welcome_secret.as_slice());
        let info_bytes = match provider.aead_open(key.as_slice(), nonce.as_slice(), empty.as_slice(), welcome.encrypted_group_info.as_slice()) {
            Some(b) => b,
            None => {
                return Err(GroupError::AeadOpenFailure);
            },
        };
        let group_info = match GroupInfo::from_bytes(info_bytes.as_slice()) {
            Some(g) => g,
            None => {
                return Err(GroupError::CodecError);
            },
        };
        if !public_tree.is_well_formed() {
            return Err(GroupError::InvalidRatchetTree);
        }
        let signer_key = match public_tree.get_leaf_node(LeafIndex(group_info.signer_index)) {
            Some(l) => copy_bytes(l.signing_identity.signature_key.as_slice()),
            None => {
                return Err(GroupError::LeafNotFound);
            },
        };
        let tbs = group_info.to_signable_vec();
        if !provider.verify(signer_key.as_slice(), group_info.signature.as_slice(), tbs.as_slice()) {
            return Err(GroupError::InvalidSignature);
        }
        let r = Self::join_from_group_info(provider, cipher_suite, group_info, group_secrets, public_tree, key_package);
        proof {
            if r is Ok {
                let g = r->Ok_0;
                assert(g.key_schedule.derived_from(
                    g.hash(),
                    spec_epoch_secret(g.hash(), group_secrets.joiner_secret@, zeros_of(g.hash().spec_size()), enc_context(g.context)),
                ));
            }
        }
        r
    }

    /// The member's state in the epoch that `group_info` describes, joined
    /// with `group_secrets` over `public_tree`. The tree is rejected when its
    /// hash is not the group's, when its parent hashes do not validate, or
    /// when it holds no leaf with this member's key; the join is rejected when
    /// the group info's confirmation tag is not the one the joiner secret
    /// leads to.
    pub fn join_from_group_info<P: CipherSuiteProvider>(
        provider: &P,
        cipher_suite: CipherSuite,
        group_info: GroupInfo,
        group_secrets: GroupSecrets,
        public_tree: TreeKemPublic,
        key_package: KeyPackageGeneration,
    ) -> (r: Result<Group, GroupError>)
        requires
            public_tree.wf(),
            group_info.wf(),
            group_secrets.wf(),
        ensures
            ({
                let h = crate::crypto::Hash::spec_new(cipher_suite);
                let tree_ok = crate::tree_kem::tree_hash_excl(h, public_tree.nodes@, public_tree.root().0, public_tree.root().1, Seq::empty())
                    == group_info.tree_hash@ && crate::parent_hash::parent_hashes_valid(&public_tree, h)
                    && has_leaf_with_key(&public_tree, key_package.key_package.leaf_node.public_key@);
                let bounds_ok = group_info.group_id@.len() <= 0x1000_0000 && group_info.confirmed_transcript_hash@.len() <= 64
                    && group_info.extensions@.len() <= 0x1000_0000;
                let tag_ok = group_info.confirmation_tag@ == expected_join_tag(h, group_secrets.joiner_secret@, group_info);
                &&& (r matches Err(GroupError::InvalidRatchetTree) <==> !tree_ok)
                &&& (r matches Err(GroupError::CodecError) <==> tree_ok && !bounds_ok)
                &&& (r matches Err(GroupError::InvalidConfirmationTag) <==> tree_ok && bounds_ok && !tag_ok)
                &&& (r is Ok <==> tree_ok && bounds_ok && tag_ok)
            }),
            r matches Ok(g) ==> {
                &&& g.wf()
                &&& g.cipher_suite == cipher_suite
                &&& g.proposals@.len() == 0
                &&& g.public_tree == public_tree
                &&& g.context.epoch == group_info.epoch
                &&& g.context.group_id == group_info.group_id
                &&& g.context.confirmed_transcript_hash == group_info.confirmed_transcript_hash
                &&& g.confirmation_tag@ == group_info.confirmation_tag@
                &&& g.context.tree_hash@ == crate::tree_kem::tree_hash_excl(
                    g.hash(),
                    public_tree.nodes@,
                    public_tree.root().0,
                    public_tree.root().1,
                    Seq::empty(),
                )
                &&& (public_tree.nodes@[2 * g.private_tree.self_index.0 as int] matches Some(Node::Leaf(l))
                    && l.public_key@ == key_package.key_package.leaf_node.public_key@)
                &&& g.key_schedule.derived_from(
                    g.hash(),
                    spec_epoch_secret(g.hash(), group_secrets.joiner_secret@, zeros_of(g.hash().spec_size()), enc_context(g.context)),
                )
            },
    {
        let h = crate::crypto::Hash::new(cipher_suite);
        let tree_hash = public_tree.tree_hash(&h);
        if !bytes_eq(tree_hash.as_slice(), group_info.tree_hash.as_slice()) {
            return Err(GroupError::InvalidRatchetTree);
        }
        match public_tree.validate_parent_hashes(&h) {
            Ok(()) => {},
            Err(_) => {
                return Err(GroupError::InvalidRatchetTree);
            },
        }
        let self_index = match find_leaf_by_key(&public_tree, key_package.key_package.leaf_node.public_key.as_slice()) {
            Some(l) => l,
            None => {
                return Err(GroupError::InvalidRatchetTree);
            },
        };
        if group_info.group_id.len() > 0x1000_0000 || group_info.confirmed_transcript_hash.len() > 64
            || group_info.extensions.len() > 0x1000_0000 {
            return Err(GroupError::CodecError);
        }
        let context = GroupContext {
            group_id: group_info.group_id,
            epoch: group_info.epoch,
            tree_hash,
            confirmed_transcript_hash: group_info.confirmed_transcript_hash,
            extensions: group_info.extensions,
        };
        let context_bytes = context.to_bytes();
        let zeros = zero_bytes(h.size());
        let key_schedule = EpochKeySchedule::from_joiner(&h, group_secrets.joiner_secret.as_slice(), zeros.as_slice(), context_bytes.as_slice());
        let tag = confirmation_tag(&h, key_schedule.confirmation_key.as_slice(), context.confirmed_transcript_hash.as_slice());
        assert(context_bytes@ == join_context_bytes(group_info));
        if !bytes_eq(tag.as_slice(), group_info.confirmation_tag.as_slice()) {
            return Err(GroupError::InvalidConfirmationTag);
        }
        let mut interim_input: Vec<u8> = Vec::new();
        write_raw(&mut interim_input, context.confirmed_transcript_hash.as_slice());
        write_bytes(&mut interim_input, tag.as_slice());
        let interim = h.hash(interim_input.as_slice());
        let mut secret_keys: Vec<(u32, Vec<u8>)> = Vec::new();
        secret_keys.push((2 * self_index.0, key_package.secret_key));
        match group_secrets.path_secret {
            Some(ps) => {
                if group_info.signer_index < public_tree.total_leaf_count() {
                    let filtered = public_tree.filtered_direct_path_co_path(LeafIndex(group_info.signer_index));
                    let me: u64 = 2 * (self_index.0 as u64);
                    let mut k: usize = 0;
                    while k < filtered.len() && !covers(filtered[k], me)
                        invariant
                            k <= filtered@.len(),
                        decreases filtered@.len() - k,
                    {
                        k = k + 1;
                    }
                    if k < filtered.len() {
                        let keys = derive_path_keys(provider, &h, &filtered, k, ps.path_secret);
                        let mut i: usize = 0;
                        while i < keys.len()
                            invariant
                                i <= keys@.len(),
                            decreases keys@.len() - i,
                        {
                            secret_keys.push((keys[i].0, copy_bytes(keys[i].1.as_slice())));
                            i = i + 1;
                        }
                    }
                }
            },
            None => {},
        }
        Ok(Group {
            cipher_suite,
            context,
            public_tree,
            private_tree: TreeKemPrivate { self_index, secret_keys },
            key_schedule,
            confirmation_tag: tag,
            interim_transcript_hash: interim,
            proposals: Vec::new(),
            pending_updates: Vec::new(),
            next_generation: 0,
        })
    }
}


/// The secret keys of the path nodes from position `k` of `filtered` up to
/// the root, starting from the path secret `ps` of that node.
fn derive_path_keys<P: CipherSuiteProvider>(
    provider: &P,
    h: &crate::crypto::Hash,
    filtered: &Vec<(u32, u32, u32)>,
    k: usize,
    ps: Vec<u8>,
) -> (r: Vec<(u32, Vec<u8>)>)
    requires
        k < filtered@.len(),
    ensures
        r@.len() == k + 1,
{
    let mut ps = ps;
    let mut keys: Vec<(u32, Vec<u8>)> = Vec::new();
    let len = filtered.len();
    assert(k + 1 <= len);
    let mut t: usize = k + 1;
    while t > 0
        invariant
            t <= k + 1,
            k < filtered@.len(),
            keys@.len() == k + 1 - t,
        decreases t,
    {
        let node_secret = crate::kdf::derive_secret(h, ps.as_slice(), Label::Node);
        let (node_sk, _node_pk) = provider.kem_derive(node_secret.as_slice());
        keys.push((filtered[t - 1].0, node_sk));
        ps = crate::kdf::derive_secret(h, ps.as_slice(), Label::Path);
        t = t - 1;
    }
    keys
}

} // verus!

verus! {

/// In every epoch a group is in, its confirmation tag is the MAC of the
/// confirmed transcript hash under the epoch's confirmation key. Every
/// operation that yields a group (creation, joining, handling a message)
/// ensures `wf`, which holds this.
pub proof fn lemma_confirmation_tag_is_mac(g: Group)
    requires
        g.wf(),
    ensures
        g.confirmation_tag@ == g.hash().spec_mac(
            g.key_schedule.confirmation_key@,
            g.context.confirmed_transcript_hash@,
        ),
{
}

/// A receiver of a commit reaches the sender's epoch secrets. The sender's
/// commit secret is `m + 1` steps of the path-secret chain from its leaf
/// secret, where `m` is the length of its filtered direct path; a receiver
/// under the co-path child at position `k` from the root decrypts the path
/// secret of that node, `m - k` steps along, and walks `k + 1` more. With the
/// same previous init secret, PSK secret and new group context, both derive
/// the same secrets.
pub proof fn lemma_receiver_secrets_match_sender(
    h: crate::crypto::Hash,
    leaf_secret: Seq<u8>,
    m: nat,
    k: nat,
    init_prev: Seq<u8>,
    psk_secret: Seq<u8>,
    context: Seq<u8>,
    sender: EpochKeySchedule,
    receiver: EpochKeySchedule,
)
    requires
        k < m,
        sender.derived_from(
            h,
            spec_epoch_secret(h, spec_joiner_secret(h, init_prev, path_chain(h, leaf_secret, m + 1)), psk_secret, context),
        ),
        receiver.derived_from(
            h,
            spec_epoch_secret(
                h,
                spec_joiner_secret(h, init_prev, path_chain(h, path_chain(h, leaf_secret, (m - k) as nat), k + 1)),
                psk_secret,
                context,
            ),
        ),
    ensures
        sender.same_secrets(&receiver),
{
    lemma_path_chain_add(h, leaf_secret, k + 1, (m - k) as nat);
    assert((k + 1 + (m - k)) as nat == m + 1);
}

/// A commit moves the group past the epoch it was framed for, so handing the
/// same commit in again fails the epoch check, which leaves the group as it
/// is.
pub proof fn lemma_commit_applies_once(old: Group, new: Group, m: MLSPlaintext, out: Option<Vec<u8>>)
    requires
        m.content is Commit,
        m.epoch == old.context.epoch,
        processed(old, new, m, out),
    ensures
        m.epoch != new.context.epoch,
{
}


/// Every Add is for the group's cipher suite.
pub open spec fn spec_adds_match_suite(ps: Seq<PendingProposal>, cs: CipherSuite) -> bool {
    forall|i: int| 0 <= i < ps.len() ==> ((#[trigger] ps[i]).proposal matches Proposal::Add(a) ==> a.key_package.cipher_suite == cs)
}

/// No two Adds carry the same leaf key.
pub open spec fn spec_no_duplicate_adds(ps: Seq<PendingProposal>) -> bool {
    forall|i: int, j: int| 0 <= i < j < ps.len() ==> !same_add(#[trigger] ps[i], #[trigger] ps[j])
}

/// No leaf is updated twice, removed twice, or both updated and removed.
pub open spec fn spec_no_conflicts(ps: Seq<PendingProposal>) -> bool {
    forall|i: int, j: int| 0 <= i < ps.len() && 0 <= j < ps.len() && i != j ==> !conflict(#[trigger] ps[i], #[trigger] ps[j])
}

pub open spec fn proposals_valid(ps: Seq<PendingProposal>, cs: CipherSuite) -> bool {
    spec_adds_match_suite(ps, cs) && spec_no_duplicate_adds(ps) && spec_no_conflicts(ps)
}

fn adds_match_suite(ps: &Vec<PendingProposal>, cs: CipherSuite) -> (r: bool)
    ensures
        r == spec_adds_match_suite(ps@, cs),
{
    let mut i: usize = 0;
    while i < ps.len()
        invariant
            i <= ps@.len(),
            forall|k: int| 0 <= k < i ==> ((#[trigger] ps@[k]).proposal matches Proposal::Add(a) ==> a.key_package.cipher_suite == cs),
        decreases ps@.len() - i,
    {
        match &ps[i].proposal {
            Proposal::Add(a) => {
                if a.key_package.cipher_suite != cs {
                    return false;
                }
            },
            _ => {},
        }
        i = i + 1;
    }
    true
}

fn same_add_key(a: &PendingProposal, b: &PendingProposal) -> (r: bool)
    ensures
        r == (a.proposal matches Proposal::Add(x) && b.proposal matches Proposal::Add(y)
            && x.key_package.leaf_node.public_key@ == y.key_package.leaf_node.public_key@),
{
    match (&a.proposal, &b.proposal) {
        (Proposal::Add(x), Proposal::Add(y)) => bytes_eq(
            x.key_package.leaf_node.public_key.as_slice(),
            y.key_package.leaf_node.public_key.as_slice(),
        ),
        _ => false,
    }
}

fn conflicting(a: &PendingProposal, b: &PendingProposal) -> (r: bool)
    ensures
        r == conflict(*a, *b),
{
    match (&a.proposal, &b.proposal) {
        (Proposal::Update(_), Proposal::Update(_)) => a.sender.0 == b.sender.0,
        (Proposal::Update(_), Proposal::Remove(rm)) => rm.to_remove == a.sender.0,
        (Proposal::Remove(x), Proposal::Remove(y)) => x.to_remove == y.to_remove,
        _ => false,
    }
}

fn no_duplicate_adds(ps: &Vec<PendingProposal>) -> (r: bool)
    ensures
        r == spec_no_duplicate_adds(ps@),
{
    let mut j: usize = 0;
    while j < ps.len()
        invariant
            j <= ps@.len(),
            forall|a: int, b: int| 0 <= a < b < j ==> !same_add(#[trigger] ps@[a], #[trigger] ps@[b]),
        decreases ps@.len() - j,
    {
        let mut i: usize = 0;
        while i < j
            invariant
                i <= j < ps@.len(),
                forall|a: int, b: int| 0 <= a < b < j ==> !same_add(#[trigger] ps@[a], #[trigger] ps@[b]),
                forall|a: int| 0 <= a < i ==> !same_add(#[trigger] ps@[a], ps@[j as int]),
            decreases j - i,
        {
            if same_add_key(&ps[i], &ps[j]) {
                assert(same_add(ps@[i as int], ps@[j as int]));
                return false;
            }
            i = i + 1;
        }
        j = j + 1;
    }
    true
}

pub open spec fn same_add(a: PendingProposal, b: PendingProposal) -> bool {
    a.proposal matches Proposal::Add(x) && b.proposal matches Proposal::Add(y)
        && x.key_package.leaf_node.public_key@ == y.key_package.leaf_node.public_key@
}

pub open spec fn conflict(a: PendingProposal, b: PendingProposal) -> bool {
    ||| (a.proposal is Update && b.proposal is Update && a.sender == b.sender)
    ||| (a.proposal is Update && (b.proposal matches Proposal::Remove(rm) && rm.to_remove == a.sender.0))
    ||| (a.proposal matches Proposal::Remove(x) && b.proposal matches Proposal::Remove(y) && x.to_remove == y.to_remove)
}

fn no_conflicts(ps: &Vec<PendingProposal>) -> (r: bool)
    ensures
        r == spec_no_conflicts(ps@),
{
    let mut i: usize = 0;
    while i < ps.len()
        invariant
            i <= ps@.len(),
            forall|a: int, b: int| 0 <= a < i && 0 <= b < ps@.len() && a != b ==> !conflict(ps@[a], ps@[b]),
        decreases ps@.len() - i,
    {
        let mut j: usize = 0;
        while j < ps.len()
            invariant
                i < ps@.len(),
                j <= ps@.len(),
                forall|a: int, b: int| 0 <= a < i && 0 <= b < ps@.len() && a != b ==> !conflict(ps@[a], ps@[b]),
                forall|b: int| 0 <= b < j && b != i ==> !conflict(ps@[i as int], ps@[b]),
            decreases ps@.len() - j,
        {
            if i != j && conflicting(&ps[i], &ps[j]) {
                assert(conflict(ps@[i as int], ps@[j as int]));
                return false;
            }
            j = j + 1;
        }
        i = i + 1;
    }
    true
}


/// The node secrets after a commit: the new ones, and the held ones for
/// every node the commit gave no new secret.
pub fn merge_keys(held: &Vec<(u32, Vec<u8>)>, fresh: Vec<(u32, Vec<u8>)>) -> (r: Vec<(u32, Vec<u8>)>)
    ensures
        r@.len() >= fresh@.len(),
        forall|i: int| 0 <= i < fresh@.len() ==> r@[i] == #[trigger] fresh@[i],
{
    let ghost f = fresh@;
    let mut r = fresh;
    let mut i: usize = 0;
    while i < held.len()
        invariant
            i <= held@.len(),
            r@.len() >= f.len(),
            forall|k: int| 0 <= k < f.len() ==> r@[k] == #[trigger] f[k],
        decreases held@.len() - i,
    {
        let node = held[i].0;
        let mut j: usize = 0;
        let mut present = false;
        while j < r.len()
            invariant
                j <= r@.len(),
            decreases r@.len() - j,
        {
            if r[j].0 == node {
                present = true;
            }
            j = j + 1;
        }
        if !present {
            r.push((node, copy_bytes(held[i].1.as_slice())));
        }
        i = i + 1;
    }
    r
}


impl Group {
    /// The secret key for node `node`: the leaf secret of this member's own
    /// update when that is being applied, else the held one.
    fn key_for<'a>(&'a self, node: u32, own_leaf: &'a Option<Vec<u8>>) -> (r: Option<&'a Vec<u8>>) {
        if (node as u64) == 2 * (self.private_tree.self_index.0 as u64) {
            match own_leaf {
                Some(k) => {
                    return Some(k);
                },
                None => {},
            }
        }
        self.private_tree.secret_key_for(node)
    }

    /// The leaf secret kept for this member's own update among `fetched`.
    fn own_update_secret(&self, fetched: &Vec<PendingProposal>) -> (r: Option<Vec<u8>>)
        requires
            forall|j: int| 0 <= j < fetched@.len() ==> (#[trigger] fetched@[j]).proposal.wf(),
    {
        let mut i: usize = 0;
        while i < fetched.len()
            invariant
                i <= fetched@.len(),
                forall|j: int| 0 <= j < fetched@.len() ==> (#[trigger] fetched@[j]).proposal.wf(),
            decreases fetched@.len() - i,
        {
            match &fetched[i].proposal {
                Proposal::Update(u) => {
                    if fetched[i].sender.0 == self.private_tree.self_index.0 {
                        let hash = u.key_package.hash_ref(self.cipher_suite);
                        let mut k: usize = 0;
                        while k < self.pending_updates.len()
                            invariant
                                k <= self.pending_updates@.len(),
                            decreases self.pending_updates@.len() - k,
                        {
                            if bytes_eq(self.pending_updates[k].0.as_slice(), hash.as_slice()) {
                                return Some(copy_bytes(self.pending_updates[k].1.as_slice()));
                            }
                            k = k + 1;
                        }
                    }
                },
                _ => {},
            }
            i = i + 1;
        }
        None
    }
}


/// The serialized context a group info describes.
pub open spec fn join_context_bytes(g: GroupInfo) -> Seq<u8> {
    enc_bytes(g.group_id@) + enc_u64(g.epoch) + enc_bytes(g.tree_hash@) + enc_bytes(g.confirmed_transcript_hash@)
        + enc_bytes(g.extensions@)
}

/// The confirmation tag that joining with `joiner` leads to for `g`.
pub open spec fn expected_join_tag(h: crate::crypto::Hash, joiner: Seq<u8>, g: GroupInfo) -> Seq<u8> {
    h.spec_mac(
        crate::kdf::spec_derive_secret(h, spec_epoch_secret(h, joiner, zeros_of(h.spec_size()), join_context_bytes(g)), Label::Confirm),
        g.confirmed_transcript_hash@,
    )
}


/// The first entry below `n` of the cache `c` filed under `id`; -1 if none.
pub open spec fn first_in(c: Seq<(Vec<u8>, PendingProposal)>, id: Seq<u8>, n: int) -> int
    decreases n,
{
    if n <= 0 {
        -1
    } else if first_in(c, id, n - 1) >= 0 {
        first_in(c, id, n - 1)
    } else if c[n - 1].0@ == id {
        n - 1
    } else {
        -1
    }
}

pub proof fn lemma_first_in_stays(c: Seq<(Vec<u8>, PendingProposal)>, id: Seq<u8>, m: int, n: int)
    requires
        0 <= m <= n,
        first_in(c, id, m) >= 0,
    ensures
        first_in(c, id, n) == first_in(c, id, m),
        0 <= first_in(c, id, m) < m,
        c[first_in(c, id, m)].0@ == id,
    decreases n,
{
    if n > m {
        lemma_first_in_stays(c, id, m, n - 1);
    } else {
        lemma_first_in_bounds(c, id, m);
    }
}

pub proof fn lemma_first_in_bounds(c: Seq<(Vec<u8>, PendingProposal)>, id: Seq<u8>, n: int)
    ensures
        first_in(c, id, n) >= 0 ==> first_in(c, id, n) < n && c[first_in(c, id, n)].0@ == id,
        first_in(c, id, n) >= -1,
    decreases n,
{
    if n > 0 {
        lemma_first_in_bounds(c, id, n - 1);
    }
}

/// An entry filed under `id` exists below `n` exactly when `first_in` finds one.
pub proof fn lemma_first_in_found(c: Seq<(Vec<u8>, PendingProposal)>, id: Seq<u8>, j: int, n: int)
    requires
        0 <= j < n,
        c[j].0@ == id,
    ensures
        0 <= first_in(c, id, n) <= j,
    decreases n,
{
    lemma_first_in_bounds(c, id, n);
    if n - 1 > j {
        lemma_first_in_found(c, id, j, n - 1);
    } else {
        lemma_first_in_bounds(c, id, n - 1);
    }
}

/// The proposal that `id` refers to in `g`'s cache.
pub open spec fn resolve_id(g: Group, id: Seq<u8>) -> Option<Proposal> {
    let j = first_in(g.proposals@, id, g.proposals@.len() as int);
    if j >= 0 {
        Some(g.proposals@[j].1.proposal)
    } else {
        None
    }
}

/// The proposal a commit entry stands for in `g`.
pub open spec fn resolve(g: Group, x: ProposalOrRef) -> Option<Proposal> {
    match x {
        ProposalOrRef::Proposal(p) => Some(p),
        ProposalOrRef::Reference(id) => resolve_id(g, id@),
    }
}


/// A commit of `s` must carry a path: it is empty, or some entry stands for
/// an Update or a Remove.
pub open spec fn requires_path(g: Group, s: Seq<ProposalOrRef>) -> bool {
    s.len() == 0 || exists|i: int| 0 <= i < s.len() && (resolve(g, #[trigger] s[i]) matches Some(p) && !(p is Add))
}

/// A commit of every cached proposal and then `inline` must carry a path.
pub open spec fn commit_requires_path(g: Group, inline: Seq<Proposal>) -> bool {
    ||| g.proposals@.len() + inline.len() == 0
    ||| exists|j: int| 0 <= j < g.proposals@.len() && (resolve_id(g, (#[trigger] g.proposals@[j]).0@) matches Some(p) && !(p is Add))
    ||| exists|k: int| 0 <= k < inline.len() && !((#[trigger] inline[k]) is Add)
}

impl Group {
    /// Whether a commit of `s` must carry a path.
    pub fn por_requires_path(&self, s: &[ProposalOrRef]) -> (r: bool)
        ensures
            r == requires_path(*self, s@),
    {
        if s.len() == 0 {
            return true;
        }
        let mut i: usize = 0;
        while i < s.len()
            invariant
                i <= s@.len(),
                s@.len() > 0,
                forall|k: int| 0 <= k < i ==> !(resolve(*self, #[trigger] s@[k]) matches Some(p) && !(p is Add)),
            decreases s@.len() - i,
        {
            let non_add = match &s[i] {
                ProposalOrRef::Proposal(p) => !p.is_add(),
                ProposalOrRef::Reference(id) => match self.find_proposal(id.as_slice()) {
                    Some(j) => !self.proposals[j].1.proposal.is_add(),
                    None => false,
                },
            };
            if non_add {
                return true;
            }
            i = i + 1;
        }
        false
    }
}


pub open spec fn props_of(ps: Seq<PendingProposal>) -> Seq<Proposal> {
    ps.map_values(|p: PendingProposal| p.proposal)
}

/// The key packages that the Adds among `s` bring, in order.
pub open spec fn adds_of(s: Seq<Proposal>) -> Seq<KeyPackage>
    decreases s.len(),
{
    if s.len() == 0 {
        Seq::empty()
    } else {
        let r = adds_of(s.drop_last());
        match s.last() {
            Proposal::Add(a) => r.push(a.key_package),
            _ => r,
        }
    }
}

/// The proposals a commit of every cached proposal and then `inline` stands
/// for.
pub open spec fn resolved_list(g: Group, inline: Seq<Proposal>) -> Seq<Proposal> {
    Seq::new(
        g.proposals@.len(),
        |j: int| g.proposals@[first_in(g.proposals@, g.proposals@[j].0@, g.proposals@.len() as int)].1.proposal,
    ) + inline
}

/// `w` welcomes the members of `kps`, in order, under suite `cs`.
pub open spec fn welcome_for(w: Welcome, cs: CipherSuite, kps: Seq<KeyPackage>) -> bool {
    &&& w.cipher_suite == cs
    &&& w.secrets@.len() == kps.len()
    &&& forall|i: int| 0 <= i < kps.len() ==> (#[trigger] w.secrets@[i]).key_package_hash@
        == crate::crypto::Hash::spec_new(cs).spec_hash(crate::framing::enc_key_package(kps[i]))
}

pub proof fn lemma_enc_kp_same(a: KeyPackage, b: KeyPackage)
    requires
        crate::framing::kp_same(a, b),
    ensures
        crate::framing::enc_key_package(a) == crate::framing::enc_key_package(b),
{
    match a.leaf_node.leaf_node_source {
        crate::tree_kem::LeafNodeSource::Commit(x) => {
            let y = b.leaf_node.leaf_node_source->Commit_0;
            assert(crate::tree_kem::enc_source(a.leaf_node.leaf_node_source) == crate::tree_kem::enc_source(b.leaf_node.leaf_node_source));
        },
        _ => {},
    }
}

pub proof fn lemma_adds_same(a: Seq<Proposal>, b: Seq<Proposal>)
    requires
        a.len() == b.len(),
        forall|i: int| 0 <= i < a.len() ==> crate::framing::proposal_same(#[trigger] a[i], b[i]),
    ensures
        adds_of(a).len() == adds_of(b).len(),
        forall|i: int| 0 <= i < adds_of(a).len() ==> crate::framing::enc_key_package(#[trigger] adds_of(a)[i])
            == crate::framing::enc_key_package(adds_of(b)[i]),
    decreases a.len(),
{
    if a.len() > 0 {
        lemma_adds_same(a.drop_last(), b.drop_last());
        let (x, y) = (a.last(), b.last());
        assert(crate::framing::proposal_same(x, y));
        match x {
            Proposal::Add(p) => {
                let q = y->Add_0;
                lemma_enc_kp_same(p.key_package, q.key_package);
            },
            _ => {},
        }
    }
}

fn any_add(ps: &Vec<PendingProposal>) -> (r: bool)
    ensures
        r == (adds_of(props_of(ps@)).len() > 0),
{
    let mut k: usize = 0;
    let mut found = false;
    while k < ps.len()
        invariant
            k <= ps@.len(),
            found == (adds_of(props_of(ps@.take(k as int))).len() > 0),
        decreases ps@.len() - k,
    {
        assert(props_of(ps@.take(k + 1)).drop_last() =~= props_of(ps@.take(k as int)));
        if ps[k].proposal.is_add() {
            found = true;
        }
        k = k + 1;
    }
    assert(ps@.take(k as int) =~= ps@);
    found
}


/// The pending proposal a commit entry from `sender` stands for in `g`.
pub open spec fn resolved_pp(g: Group, x: ProposalOrRef, sender: LeafIndex) -> PendingProposal {
    match x {
        ProposalOrRef::Proposal(p) => PendingProposal { proposal: p, sender },
        ProposalOrRef::Reference(id) => g.proposals@[first_in(g.proposals@, id@, g.proposals@.len() as int)].1,
    }
}

pub open spec fn resolved_pps(g: Group, s: Seq<ProposalOrRef>, sender: LeafIndex) -> Seq<PendingProposal> {
    Seq::new(s.len(), |i: int| resolved_pp(g, s[i], sender))
}

pub open spec fn pp_same(a: PendingProposal, b: PendingProposal) -> bool {
    a.sender == b.sender && crate::framing::proposal_same(a.proposal, b.proposal)
}

/// Every Update's sender and every Remove's target is a non-blank leaf of
/// `t`.
pub open spec fn targets_ok(t: TreeKemPublic, ps: Seq<PendingProposal>) -> bool {
    forall|i: int| 0 <= i < ps.len() ==> match (#[trigger] ps[i]).proposal {
        Proposal::Update(_) => ps[i].sender.0 < t.spec_leaf_count() && node_at(t.nodes@, 2 * ps[i].sender.0) is Some,
        Proposal::Remove(r) => r.to_remove < t.spec_leaf_count() && node_at(t.nodes@, 2 * r.to_remove) is Some,
        Proposal::Add(_) => true,
    }
}

pub proof fn lemma_valid_same(a: Seq<PendingProposal>, b: Seq<PendingProposal>, cs: CipherSuite)
    requires
        a.len() == b.len(),
        forall|i: int| 0 <= i < a.len() ==> pp_same(#[trigger] a[i], b[i]),
    ensures
        proposals_valid(a, cs) == proposals_valid(b, cs),
{
    assert forall|i: int, j: int| 0 <= i < a.len() && 0 <= j < a.len() implies
        same_add(#[trigger] a[i], #[trigger] a[j]) == same_add(b[i], b[j]) && conflict(a[i], a[j]) == conflict(b[i], b[j]) by {
        assert(pp_same(a[i], b[i]));
        assert(pp_same(a[j], b[j]));
    }
    assert forall|i: int| 0 <= i < a.len() implies ((#[trigger] a[i]).proposal matches Proposal::Add(x) ==> x.key_package.cipher_suite == cs)
        == (b[i].proposal matches Proposal::Add(y) ==> y.key_package.cipher_suite == cs) by {
        assert(pp_same(a[i], b[i]));
    }
    if spec_no_duplicate_adds(a) {
        assert forall|i: int, j: int| 0 <= i < j < b.len() implies !same_add(#[trigger] b[i], #[trigger] b[j]) by {
            assert(!same_add(a[i], a[j]));
        }
    }
    if spec_no_duplicate_adds(b) {
        assert forall|i: int, j: int| 0 <= i < j < a.len() implies !same_add(#[trigger] a[i], #[trigger] a[j]) by {
            assert(!same_add(b[i], b[j]));
        }
    }
    if spec_no_conflicts(a) {
        assert forall|i: int, j: int| 0 <= i < b.len() && 0 <= j < b.len() && i != j implies !conflict(#[trigger] b[i], #[trigger] b[j]) by {
            assert(!conflict(a[i], a[j]));
        }
    }
    if spec_no_conflicts(b) {
        assert forall|i: int, j: int| 0 <= i < a.len() && 0 <= j < a.len() && i != j implies !conflict(#[trigger] a[i], #[trigger] a[j]) by {
            assert(!conflict(b[i], b[j]));
        }
    }
    if spec_adds_match_suite(a, cs) {
        assert forall|i: int| 0 <= i < b.len() implies ((#[trigger] b[i]).proposal matches Proposal::Add(y) ==> y.key_package.cipher_suite == cs) by {
            assert(pp_same(a[i], b[i]));
        }
    }
    if spec_adds_match_suite(b, cs) {
        assert forall|i: int| 0 <= i < a.len() implies ((#[trigger] a[i]).proposal matches Proposal::Add(y) ==> y.key_package.cipher_suite == cs) by {
            assert(pp_same(a[i], b[i]));
        }
    }
}


/// `apply_proposals` owes success: every reference resolves, the resolved
/// proposals are valid and hold no Add, and every Update's sender and
/// Remove's target is a non-blank leaf.
pub open spec fn apply_owed(g: Group, s: Seq<ProposalOrRef>, sender: LeafIndex) -> bool {
    &&& forall|i: int| 0 <= i < s.len() ==> !(resolve(g, #[trigger] s[i]) is None)
    &&& proposals_valid(resolved_pps(g, s, sender), g.cipher_suite)
    &&& forall|i: int| 0 <= i < s.len() ==> !((#[trigger] resolved_pps(g, s, sender)[i]).proposal is Add)
    &&& targets_ok(g.public_tree, resolved_pps(g, s, sender))
}

/// One fetched proposal's target is a non-blank leaf of `t`, and it is no Add.
pub open spec fn fetched_target_ok(t: TreeKemPublic, p: PendingProposal) -> bool {
    match p.proposal {
        Proposal::Update(_) => p.sender.0 < t.spec_leaf_count() && node_at(t.nodes@, 2 * p.sender.0) is Some,
        Proposal::Remove(r) => r.to_remove < t.spec_leaf_count() && node_at(t.nodes@, 2 * r.to_remove) is Some,
        Proposal::Add(_) => false,
    }
}

/// Leaf `l` is removed by one of the first `i` proposals.
pub open spec fn removed_before(ps: Seq<PendingProposal>, i: int, l: u32) -> bool {
    exists|k: int| 0 <= k < i && ((#[trigger] ps[k]).proposal matches Proposal::Remove(r) && r.to_remove == l)
}

pub open spec fn leaf_count_of_tree(t: TreeKemPublic) -> int {
    t.spec_leaf_count()
}


/// The entry of `welcome` sealed for the key package with hash
/// `key_package_hash`: the first one filed under it.
pub fn find_group_secrets(welcome: &Welcome, key_package_hash: &[u8]) -> (r: Option<usize>)
    ensures
        match r {
            Some(k) => k < welcome.secrets@.len() && welcome.secrets@[k as int].key_package_hash@ == key_package_hash@
                && forall|j: int| 0 <= j < k ==> (#[trigger] welcome.secrets@[j]).key_package_hash@ != key_package_hash@,
            None => forall|j: int| 0 <= j < welcome.secrets@.len() ==> (#[trigger] welcome.secrets@[j]).key_package_hash@
                != key_package_hash@,
        },
{
    let mut k: usize = 0;
    while k < welcome.secrets.len()
        invariant
            k <= welcome.secrets@.len(),
            forall|j: int| 0 <= j < k ==> (#[trigger] welcome.secrets@[j]).key_package_hash@ != key_package_hash@,
        decreases welcome.secrets@.len() - k,
    {
        if bytes_eq(welcome.secrets[k].key_package_hash.as_slice(), key_package_hash) {
            return Some(k);
        }
        k = k + 1;
    }
    None
}


/// `new` is `old` with `p` from `sender` filed under `id`: appended when no
/// entry has that reference yet, and nothing changed otherwise.
pub open spec fn filed(old: Group, new: Group, id: Seq<u8>, p: Proposal, sender: LeafIndex) -> bool {
    &&& new == (Group { proposals: new.proposals, ..old })
    &&& if exists|j: int| 0 <= j < old.proposals@.len() && (#[trigger] old.proposals@[j]).0@ == id {
        new.proposals == old.proposals
    } else {
        &&& new.proposals@.drop_last() == old.proposals@
        &&& new.proposals@.len() == old.proposals@.len() + 1
        &&& new.proposals@.last().0@ == id
        &&& new.proposals@.last().1.sender == sender
        &&& crate::framing::proposal_same(p, new.proposals@.last().1.proposal)
    }
}

impl Group {
    /// Files `pending` under `id`, unless an entry has that reference.
    fn file_proposal(&mut self, id: Vec<u8>, pending: PendingProposal, p: Ghost<Proposal>)
        requires
            old(self).wf(),
            pending.proposal.wf(),
            id@.len() <= u32::MAX,
            crate::framing::proposal_same(p@, pending.proposal),
        ensures
            final(self).wf(),
            filed(*old(self), *final(self), id@, p@, pending.sender),
    {
        match self.find_proposal(id.as_slice()) {
            Some(_) => {},
            None => {
                let ghost before = self.proposals@;
                let ghost idv = id@;
                let ghost sender = pending.sender;
                self.proposals.push((id, pending));
                assert(self.proposals@.drop_last() =~= before);
                assert forall|i: int, j: int| 0 <= i < self.proposals@.len() && 0 <= j < self.proposals@.len() && i != j
                    implies (#[trigger] self.proposals@[i]).0@ != (#[trigger] self.proposals@[j]).0@ by {
                    if i < before.len() && j < before.len() {
                        assert(self.proposals@[i] == before[i]);
                        assert(self.proposals@[j] == before[j]);
                    } else if i < before.len() {
                        assert(self.proposals@[i] == before[i]);
                    } else {
                        assert(self.proposals@[j] == before[j]);
                    }
                }
                assert(!exists|j: int| 0 <= j < before.len() && (#[trigger] before[j]).0@ == idv);
            },
        }
    }
}

} // verus!
