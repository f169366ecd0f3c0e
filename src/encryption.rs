//! Encrypted framing: per-message keys from the epoch's encryption secret,
//! nonces made reuse-safe by a guard, and sender data sealed under keys
//! derived from the ciphertext itself.
use vstd::prelude::*;
use crate::codec::{
    copy_bytes, enc_bytes, enc_opt_bytes, enc_u32, enc_u64, lemma_join, parse_bytes, parse_opt_bytes,
    parse_u32, write_bytes, write_opt_bytes, write_raw, write_u32, write_u64, write_u8,
};
use crate::framing::{enc_content, parse_content, write_content, Content, MLSCiphertext, MLSPlaintext};
use crate::group::{CipherSuiteProvider, Group, GroupError};
use crate::kdf::{expand_with_label, Label};
use crate::tree_kem::fits_u32;

verus! {

/// The nonce with its first four bytes XORed with the reuse guard.
pub open spec fn reuse_safe(nonce: Seq<u8>, guard: Seq<u8>) -> Seq<u8> {
    Seq::new(nonce.len(), |i: int| if i < 4 { nonce[i] ^ guard[i] } else { nonce[i] })
}

pub fn reuse_safe_nonce(nonce: &[u8], guard: &[u8]) -> (r: Vec<u8>)
    requires
        nonce@.len() >= 4,
        guard@.len() == 4,
    ensures
        r@ == reuse_safe(nonce@, guard@),
{
    let mut r: Vec<u8> = Vec::new();
    let mut i: usize = 0;
    while i < nonce.len()
        invariant
            i <= nonce@.len(),
            guard@.len() == 4,
            r@ == reuse_safe(nonce@, guard@).take(i as int),
        decreases nonce@.len() - i,
    {
        if i < 4 {
            r.push(nonce[i] ^ guard[i]);
        } else {
            r.push(nonce[i]);
        }
        i = i + 1;
        assert(r@ =~= reuse_safe(nonce@, guard@).take(i as int));
    }
    assert(reuse_safe(nonce@, guard@).take(i as int) =~= reuse_safe(nonce@, guard@));
    r
}

/// Two messages sealed under one key with different reuse guards never
/// share a nonce.
pub proof fn lemma_distinct_guards_distinct_nonces(nonce: Seq<u8>, g1: Seq<u8>, g2: Seq<u8>)
    requires
        nonce.len() >= 4,
        g1.len() == 4,
        g2.len() == 4,
        g1 != g2,
    ensures
        reuse_safe(nonce, g1) != reuse_safe(nonce, g2),
{
    assert(!(g1 =~= g2));
    let i = choose|i: int| 0 <= i < 4 && g1[i] != g2[i];
    let (n, a, b) = (nonce[i], g1[i], g2[i]);
    assert(a != b ==> n ^ a != n ^ b) by (bit_vector);
    assert(reuse_safe(nonce, g1)[i] != reuse_safe(nonce, g2)[i]);
}

/// The wire code of a content's type.
pub open spec fn content_type(c: Content) -> u8 {
    match c {
        Content::Application(_) => 1,
        Content::Proposal(_) => 2,
        Content::Commit(_) => 3,
    }
}

pub open spec fn message_key_context(sender: u32, generation: u32, kind: u8) -> Seq<u8> {
    enc_u32(sender) + enc_u32(generation) + seq![kind]
}

/// The key and nonce of message `generation` of `sender`.
///
/// Each message key is expanded directly from the epoch's encryption secret
/// under the sender, the generation and the content kind, rather than walked
/// down a per-sender secret tree: every (sender, generation, kind) still gets
/// its own key and nonce, and a member's generations come from its own
/// counter, reset at each epoch. Forward secrecy within an epoch, which the
/// tree's ratchets would add by deleting used secrets, is not provided.
pub fn message_key(
    h: &crate::crypto::Hash,
    encryption_secret: &[u8],
    sender: u32,
    generation: u32,
    kind: u8,
) -> (r: (Vec<u8>, Vec<u8>))
    ensures
        r.0@ == crate::kdf::spec_expand_with_label(*h, encryption_secret@, Label::Key, message_key_context(sender, generation, kind), h.spec_size() as u16),
        r.1@ == crate::kdf::spec_expand_with_label(*h, encryption_secret@, Label::Nonce, message_key_context(sender, generation, kind), 12),
        r.1@.len() == 12,
{
    let mut context: Vec<u8> = Vec::new();
    write_u32(&mut context, sender);
    write_u32(&mut context, generation);
    write_u8(&mut context, kind);
    assert(context@ =~= message_key_context(sender, generation, kind));
    let key = expand_with_label(h, encryption_secret, Label::Key, context.as_slice(), h.size() as u16);
    let nonce = expand_with_label(h, encryption_secret, Label::Nonce, context.as_slice(), 12);
    (key, nonce)
}

/// The start of a ciphertext that keys its sender data: one digest's length,
/// or all of it when shorter.
pub open spec fn ciphertext_sample(h: crate::crypto::Hash, ciphertext: Seq<u8>) -> Seq<u8> {
    if ciphertext.len() < h.spec_size() {
        ciphertext
    } else {
        ciphertext.take(h.spec_size() as int)
    }
}

/// The key and nonce that seal sender data, from the start of the ciphertext.
pub fn sender_data_key(h: &crate::crypto::Hash, sender_data_secret: &[u8], ciphertext: &[u8]) -> (r: (Vec<u8>, Vec<u8>))
    ensures
        r.0@ == crate::kdf::spec_expand_with_label(*h, sender_data_secret@, Label::Key, ciphertext_sample(*h, ciphertext@), h.spec_size() as u16),
        r.1@ == crate::kdf::spec_expand_with_label(*h, sender_data_secret@, Label::Nonce, ciphertext_sample(*h, ciphertext@), 12),
        r.1@.len() == 12,
{
    let n = if ciphertext.len() < h.size() { ciphertext.len() } else { h.size() };
    let mut sample: Vec<u8> = Vec::new();
    let mut i: usize = 0;
    while i < n
        invariant
            i <= n,
            n <= ciphertext@.len(),
            sample@ == ciphertext@.take(i as int),
        decreases n - i,
    {
        sample.push(ciphertext[i]);
        i = i + 1;
        assert(sample@ =~= ciphertext@.take(i as int));
    }
    assert(sample@ =~= ciphertext_sample(*h, ciphertext@));
    let key = expand_with_label(h, sender_data_secret, Label::Key, sample.as_slice(), h.size() as u16);
    let nonce = expand_with_label(h, sender_data_secret, Label::Nonce, sample.as_slice(), 12);
    (key, nonce)
}

/// What a ciphertext's content seals: the content, its signature and its
/// confirmation tag.
pub open spec fn enc_sealed_content(m: MLSPlaintext) -> Seq<u8> {
    enc_content(m.content) + enc_bytes(m.signature@) + enc_opt_bytes(crate::framing::opt_view(m.confirmation_tag))
}

/// The sender data of a message: sender, generation and reuse guard.
pub open spec fn enc_sender_data(sender: u32, generation: u32, guard: Seq<u8>) -> Seq<u8> {
    enc_u32(sender) + enc_u32(generation) + guard
}

/// The inputs of the two seals that encrypt a message.
pub struct SealInputs {
    pub key: Vec<u8>,
    pub nonce: Vec<u8>,
    pub aad: Vec<u8>,
    pub content: Vec<u8>,
    pub sender_data: Vec<u8>,
    pub sender_data_aad: Vec<u8>,
}

/// The key of message `generation` of `sender` for content kind `kind`.
pub open spec fn spec_message_key(h: crate::crypto::Hash, secret: Seq<u8>, sender: u32, generation: u32, kind: u8) -> Seq<u8> {
    crate::kdf::spec_expand_with_label(h, secret, Label::Key, message_key_context(sender, generation, kind), h.spec_size() as u16)
}

pub open spec fn spec_message_nonce(h: crate::crypto::Hash, secret: Seq<u8>, sender: u32, generation: u32, kind: u8) -> Seq<u8> {
    crate::kdf::spec_expand_with_label(h, secret, Label::Nonce, message_key_context(sender, generation, kind), 12)
}

/// Everything that sealing `plaintext` as message `generation` with
/// `reuse_guard` hands to the AEAD.
pub fn seal_inputs(h: &crate::crypto::Hash, encryption_secret: &[u8], plaintext: &MLSPlaintext, generation: u32, reuse_guard: &[u8]) -> (r: SealInputs)
    requires
        plaintext.wf(),
        reuse_guard@.len() == 4,
    ensures
        r.key@ == spec_message_key(*h, encryption_secret@, plaintext.sender, generation, content_type(plaintext.content)),
        r.nonce@ == reuse_safe(spec_message_nonce(*h, encryption_secret@, plaintext.sender, generation, content_type(plaintext.content)), reuse_guard@),
        r.aad@ == content_aad(plaintext.group_id@, plaintext.epoch, content_type(plaintext.content), plaintext.authenticated_data@),
        r.content@ == enc_sealed_content(*plaintext),
        r.sender_data@ == enc_sender_data(plaintext.sender, generation, reuse_guard@),
        r.sender_data_aad@ == content_aad(plaintext.group_id@, plaintext.epoch, content_type(plaintext.content), Seq::empty()),
{
    let kind: u8 = match &plaintext.content {
        Content::Application(_) => 1,
        Content::Proposal(_) => 2,
        Content::Commit(_) => 3,
    };
    let mut content: Vec<u8> = Vec::new();
    write_content(&mut content, &plaintext.content);
    write_bytes(&mut content, plaintext.signature.as_slice());
    let conf: Option<&[u8]> = match &plaintext.confirmation_tag {
        Some(t) => Some(t.as_slice()),
        None => None,
    };
    write_opt_bytes(&mut content, conf);
    assert(content@ =~= enc_sealed_content(*plaintext));
    let aad = aad_bytes(plaintext.group_id.as_slice(), plaintext.epoch, kind, plaintext.authenticated_data.as_slice());
    let (key, nonce) = message_key(h, encryption_secret, plaintext.sender, generation, kind);
    let nonce = reuse_safe_nonce(nonce.as_slice(), reuse_guard);
    let mut sender_data: Vec<u8> = Vec::new();
    write_u32(&mut sender_data, plaintext.sender);
    write_u32(&mut sender_data, generation);
    write_raw(&mut sender_data, reuse_guard);
    assert(sender_data@ =~= enc_sender_data(plaintext.sender, generation, reuse_guard@));
    let empty: Vec<u8> = Vec::new();
    let sender_data_aad = aad_bytes(plaintext.group_id.as_slice(), plaintext.epoch, kind, empty.as_slice());
    assert(empty@ =~= Seq::<u8>::empty());
    SealInputs { key, nonce, aad, content, sender_data, sender_data_aad }
}

/// Reads opened sender data: exactly twelve bytes.
pub fn decode_sender_data(bytes: &[u8]) -> (r: Option<(u32, u32, Vec<u8>)>)
    ensures
        r is Some <==> bytes@.len() == 12,
        r matches Some((s, g, guard)) ==> guard@.len() == 4 && bytes@ == enc_sender_data(s, g, guard@),
{
    if bytes.len() != 12 {
        return None;
    }
    let (sender, at1) = match crate::codec::read_u32(bytes, 0) { Some(v) => v, None => { return None; } };
    let (generation, at2) = match crate::codec::read_u32(bytes, at1) { Some(v) => v, None => { return None; } };
    let guard = match crate::codec::read_raw(bytes, at2, 4) { Some((g, _)) => g, None => { return None; } };
    proof {
        crate::codec::lemma_u32_dec_enc(bytes@[0], bytes@[1], bytes@[2], bytes@[3]);
        crate::codec::lemma_u32_dec_enc(bytes@[4], bytes@[5], bytes@[6], bytes@[7]);
    }
    assert(bytes@ =~= enc_sender_data(sender, generation, guard@));
    Some((sender, generation, guard))
}

/// The plaintext carried by a ciphertext of `group_id`, `epoch` and
/// `authenticated_data` from `sender`, whose opened content is `bytes`.
/// `None` unless `bytes` is exactly the sealed content of a well-formed
/// message; every such encoding is read back field for field.
pub fn decode_ciphertext_content(
    group_id: Vec<u8>,
    epoch: u64,
    authenticated_data: Vec<u8>,
    sender: u32,
    bytes: &[u8],
) -> (r: Option<MLSPlaintext>)
    requires
        fits_u32(group_id@),
        fits_u32(authenticated_data@),
    ensures
        r matches Some(m) ==> {
            &&& m.wf()
            &&& enc_sealed_content(m) == bytes@
            &&& m.group_id == group_id
            &&& m.epoch == epoch
            &&& m.authenticated_data == authenticated_data
            &&& m.sender == sender
            &&& m.membership_tag is None
        },
        forall|m: MLSPlaintext| m.wf() && #[trigger] enc_sealed_content(m) == bytes@ ==> (r matches Some(m2)
            && crate::framing::content_same(m.content, m2.content) && m2.signature@ == m.signature@
            && crate::framing::opt_view(m2.confirmation_tag) == crate::framing::opt_view(m.confirmation_tag)),
{
    proof {
        assert forall|m: MLSPlaintext| m.wf() && #[trigger] enc_sealed_content(m) == bytes@ implies {
            let a = enc_content(m.content);
            let b = enc_bytes(m.signature@);
            let c = enc_opt_bytes(crate::framing::opt_view(m.confirmation_tag));
            &&& crate::codec::holds_at(bytes@, 0, a)
            &&& crate::codec::holds_at(bytes@, a.len() as int, b)
            &&& crate::codec::holds_at(bytes@, (a.len() + b.len()) as int, c)
            &&& bytes@.len() == a.len() + b.len() + c.len()
        } by {
            let a = enc_content(m.content);
            let b = enc_bytes(m.signature@);
            let c = enc_opt_bytes(crate::framing::opt_view(m.confirmation_tag));
            assert(bytes@.subrange(0, bytes@.len() as int) =~= bytes@);
            crate::codec::lemma_holds_split(bytes@, 0, a + b, c);
            crate::codec::lemma_holds_split(bytes@, 0, a, b);
        }
    }
    let (content, q1) = match parse_content(bytes, 0) { Some(v) => v, None => { return None; } };
    let (signature, q2) = match parse_bytes(bytes, q1) { Some(v) => v, None => { return None; } };
    let (confirmation_tag, q3) = match parse_opt_bytes(bytes, q2) { Some(v) => v, None => { return None; } };
    if q3 != bytes.len() {
        return None;
    }
    proof {
        lemma_join(bytes@, 0, q1 as int, q2 as int);
        lemma_join(bytes@, 0, q2 as int, q3 as int);
        assert(bytes@.subrange(0, q3 as int) =~= bytes@);
    }
    let m = MLSPlaintext {
        group_id,
        epoch,
        sender,
        authenticated_data,
        content,
        signature,
        confirmation_tag,
        membership_tag: None,
    };
    assert(enc_sealed_content(m) =~= bytes@);
    Some(m)
}

/// The additional data bound to a ciphertext's content.
pub open spec fn content_aad(group_id: Seq<u8>, epoch: u64, kind: u8, authenticated_data: Seq<u8>) -> Seq<u8> {
    enc_bytes(group_id) + enc_u64(epoch) + seq![kind] + enc_bytes(authenticated_data)
}

fn aad_bytes(group_id: &[u8], epoch: u64, kind: u8, authenticated_data: &[u8]) -> (r: Vec<u8>)
    requires
        fits_u32(group_id@),
        fits_u32(authenticated_data@),
    ensures
        r@ == content_aad(group_id@, epoch, kind, authenticated_data@),
{
    let mut out: Vec<u8> = Vec::new();
    write_bytes(&mut out, group_id);
    write_u64(&mut out, epoch);
    write_u8(&mut out, kind);
    write_bytes(&mut out, authenticated_data);
    assert(out@ =~= content_aad(group_id@, epoch, kind, authenticated_data@));
    out
}

impl Group {
    /// Encrypts `plaintext` as this member's next message: the content is
    /// sealed with the inputs that `seal_inputs` gives for the current
    /// generation and `reuse_guard`, and the sender data under the keys that
    /// `sender_data_key` derives from the sealed content. Fails only when the
    /// generation counter is exhausted.
    pub fn encrypt_plaintext<P: CipherSuiteProvider>(
        &mut self,
        provider: &P,
        plaintext: MLSPlaintext,
        reuse_guard: &[u8],
    ) -> (r: Result<MLSCiphertext, GroupError>)
        requires
            old(self).wf(),
            plaintext.wf(),
            reuse_guard@.len() == 4,
        ensures
            final(self).wf(),
            r is Err <==> old(self).next_generation == u32::MAX,
            r is Err ==> *final(self) == *old(self),
            r is Ok ==> *final(self) == (Group { next_generation: (old(self).next_generation + 1) as u32, ..*old(self) }),
            r matches Ok(c) ==> c.epoch == plaintext.epoch && c.group_id == plaintext.group_id
                && c.content_type == content_type(plaintext.content)
                && c.authenticated_data == plaintext.authenticated_data,
    {
        if self.next_generation == u32::MAX {
            return Err(GroupError::CodecError);
        }
        let h = crate::crypto::Hash::new(self.cipher_suite);
        let generation = self.next_generation;
        let inputs = seal_inputs(&h, self.key_schedule.encryption_secret.as_slice(), &plaintext, generation, reuse_guard);
        let ciphertext = provider.aead_seal(inputs.key.as_slice(), inputs.nonce.as_slice(), inputs.aad.as_slice(), inputs.content.as_slice());
        let (sd_key, sd_nonce) = sender_data_key(&h, self.key_schedule.sender_data_secret.as_slice(), ciphertext.as_slice());
        let encrypted_sender_data = provider.aead_seal(
            sd_key.as_slice(),
            sd_nonce.as_slice(),
            inputs.sender_data_aad.as_slice(),
            inputs.sender_data.as_slice(),
        );
        let kind: u8 = match &plaintext.content {
            Content::Application(_) => 1,
            Content::Proposal(_) => 2,
            Content::Commit(_) => 3,
        };
        self.next_generation = generation + 1;
        Ok(MLSCiphertext {
            group_id: plaintext.group_id,
            epoch: plaintext.epoch,
            content_type: kind,
            authenticated_data: plaintext.authenticated_data,
            encrypted_sender_data,
            ciphertext,
        })
    }

    /// Frames, signs and encrypts an application message. Fails when the
    /// message is too long to frame, when the generation counter is
    /// exhausted, or when the signature is too long to frame.
    pub fn encrypt_application_message<P: CipherSuiteProvider>(
        &mut self,
        provider: &P,
        signing_key: &[u8],
        message: Vec<u8>,
        reuse_guard: &[u8],
    ) -> (r: Result<MLSCiphertext, GroupError>)
        requires
            old(self).wf(),
            reuse_guard@.len() == 4,
        ensures
            final(self).wf(),
            r is Err ==> *final(self) == *old(self),
            r matches Err(e) ==> e is CodecError,
            !fits_u32(message@) ==> r is Err,
            old(self).next_generation == u32::MAX ==> r is Err,
            r is Ok ==> *final(self) == (Group { next_generation: (old(self).next_generation + 1) as u32, ..*old(self) }),
            r matches Ok(c) ==> c.epoch == old(self).context.epoch && c.group_id@ == old(self).context.group_id@
                && c.content_type == 1 && c.authenticated_data@.len() == 0,
    {
        if message.len() > u32::MAX as usize {
            return Err(GroupError::CodecError);
        }
        if self.next_generation == u32::MAX {
            return Err(GroupError::CodecError);
        }
        let plaintext = match self.construct_mls_plaintext(provider, signing_key, Content::Application(message)) {
            Ok(m) => m,
            Err(e) => {
                return Err(e);
            },
        };
        self.encrypt_plaintext(provider, plaintext, reuse_guard)
    }

    /// Decrypts a ciphertext of the current epoch and handles the plaintext
    /// inside as `process_plaintext` does. The sender data is opened with the
    /// keys `sender_data_key` derives and read by `decode_sender_data`; the
    /// content is opened with the message key and reuse-safe nonce of that
    /// sender and generation under `content_aad`, and read by
    /// `decode_ciphertext_content`. Any failure leaves the group as it was.
    pub fn process_ciphertext<P: CipherSuiteProvider>(&mut self, provider: &P, ciphertext: MLSCiphertext) -> (r: Result<Option<Vec<u8>>, GroupError>)
        requires
            old(self).wf(),
        ensures
            final(self).wf(),
            ciphertext.epoch != old(self).context.epoch <==> r matches Err(GroupError::InvalidPlaintextEpoch),
            r is Err ==> *final(self) == *old(self),
            r is Ok ==> exists|m: MLSPlaintext| m.epoch == ciphertext.epoch && m.group_id@ == ciphertext.group_id@
                && m.authenticated_data@ == ciphertext.authenticated_data@ && m.membership_tag is None
                && #[trigger] crate::group::processed(*old(self), *final(self), m, r->Ok_0),
    {
        if ciphertext.epoch != self.context.epoch {
            return Err(GroupError::InvalidPlaintextEpoch);
        }
        if ciphertext.group_id.len() > u32::MAX as usize || ciphertext.authenticated_data.len() > u32::MAX as usize {
            return Err(GroupError::CodecError);
        }
        let h = crate::crypto::Hash::new(self.cipher_suite);
        let kind = ciphertext.content_type;
        let empty: Vec<u8> = Vec::new();
        let sd_aad = aad_bytes(ciphertext.group_id.as_slice(), ciphertext.epoch, kind, empty.as_slice());
        let (sd_key, sd_nonce) = sender_data_key(&h, self.key_schedule.sender_data_secret.as_slice(), ciphertext.ciphertext.as_slice());
        let opened = match provider.aead_open(sd_key.as_slice(), sd_nonce.as_slice(), sd_aad.as_slice(), ciphertext.encrypted_sender_data.as_slice()) {
            Some(d) => d,
            None => {
                return Err(GroupError::AeadOpenFailure);
            },
        };
        let (sender, generation, guard) = match decode_sender_data(opened.as_slice()) {
            Some(v) => v,
            None => {
                return Err(GroupError::CodecError);
            },
        };
        let (key, nonce) = message_key(&h, self.key_schedule.encryption_secret.as_slice(), sender, generation, kind);
        let nonce = reuse_safe_nonce(nonce.as_slice(), guard.as_slice());
        let aad = aad_bytes(ciphertext.group_id.as_slice(), ciphertext.epoch, kind, ciphertext.authenticated_data.as_slice());
        let content_bytes = match provider.aead_open(key.as_slice(), nonce.as_slice(), aad.as_slice(), ciphertext.ciphertext.as_slice()) {
            Some(d) => d,
            None => {
                return Err(GroupError::AeadOpenFailure);
            },
        };
        let plaintext = match decode_ciphertext_content(
            ciphertext.group_id,
            ciphertext.epoch,
            ciphertext.authenticated_data,
            sender,
            content_bytes.as_slice(),
        ) {
            Some(m) => m,
            None => {
                return Err(GroupError::CodecError);
            },
        };
        let ghost m = plaintext;
        let r = self.process_plaintext_internal(provider, plaintext, None, false);
        assert(r is Ok ==> crate::group::processed(*old(self), *self, m, r->Ok_0));
        r
    }
}

} // verus!
