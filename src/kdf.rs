//! The HKDF-based key derivation of the key schedule, over the HMAC of the
//! cipher suite's hash.
use vstd::prelude::*;
use crate::codec::{enc_bytes, enc_u16, write_bytes, write_raw, write_u16, write_u8};

verus! {

/// The labels that key derivations are bound to.
#[derive(Clone, Copy, Debug, PartialEq, Eq, Structural)]
pub enum Label {
    Welcome,
    Epoch,
    SenderData,
    Encryption,
    Exporter,
    External,
    Confirm,
    Membership,
    Resumption,
    Authentication,
    Init,
    Path,
    Node,
    DerivedPsk,
    Key,
    Nonce,
    Handshake,
    Application,
    ProposalRef,
}

impl Label {
    pub open spec fn spec_bytes(self) -> Seq<u8> {
        match self {
            Label::Welcome => seq![119u8, 101u8, 108u8, 99u8, 111u8, 109u8, 101u8],
            Label::Epoch => seq![101u8, 112u8, 111u8, 99u8, 104u8],
            Label::SenderData => seq![115u8, 101u8, 110u8, 100u8, 101u8, 114u8, 32u8, 100u8, 97u8, 116u8, 97u8],
            Label::Encryption => seq![101u8, 110u8, 99u8, 114u8, 121u8, 112u8, 116u8, 105u8, 111u8, 110u8],
            Label::Exporter => seq![101u8, 120u8, 112u8, 111u8, 114u8, 116u8, 101u8, 114u8],
            Label::External => seq![101u8, 120u8, 116u8, 101u8, 114u8, 110u8, 97u8, 108u8],
            Label::Confirm => seq![99u8, 111u8, 110u8, 102u8, 105u8, 114u8, 109u8],
            Label::Membership => seq![109u8, 101u8, 109u8, 98u8, 101u8, 114u8, 115u8, 104u8, 105u8, 112u8],
            Label::Resumption => seq![114u8, 101u8, 115u8, 117u8, 109u8, 112u8, 116u8, 105u8, 111u8, 110u8],
            Label::Authentication => seq![97u8, 117u8, 116u8, 104u8, 101u8, 110u8, 116u8, 105u8, 99u8, 97u8, 116u8, 105u8, 111u8, 110u8],
            Label::Init => seq![105u8, 110u8, 105u8, 116u8],
            Label::Path => seq![112u8, 97u8, 116u8, 104u8],
            Label::Node => seq![110u8, 111u8, 100u8, 101u8],
            Label::DerivedPsk => seq![100u8, 101u8, 114u8, 105u8, 118u8, 101u8, 100u8, 32u8, 112u8, 115u8, 107u8],
            Label::Key => seq![107u8, 101u8, 121u8],
            Label::Nonce => seq![110u8, 111u8, 110u8, 99u8, 101u8],
            Label::Handshake => seq![104u8, 97u8, 110u8, 100u8, 115u8, 104u8, 97u8, 107u8, 101u8],
            Label::Application => seq![97u8, 112u8, 112u8, 108u8, 105u8, 99u8, 97u8, 116u8, 105u8, 111u8, 110u8],
            Label::ProposalRef => seq![77u8, 76u8, 83u8, 32u8, 49u8, 46u8, 48u8, 32u8, 80u8, 114u8, 111u8, 112u8, 111u8, 115u8, 97u8, 108u8, 32u8, 82u8, 101u8, 102u8, 101u8, 114u8, 101u8, 110u8, 99u8, 101u8],
        }
    }

    pub fn bytes(&self) -> (r: Vec<u8>)
        ensures
            r@ == self.spec_bytes(),
    {
        let r = match self {
            Label::Welcome => vec![119u8, 101u8, 108u8, 99u8, 111u8, 109u8, 101u8],
            Label::Epoch => vec![101u8, 112u8, 111u8, 99u8, 104u8],
            Label::SenderData => vec![115u8, 101u8, 110u8, 100u8, 101u8, 114u8, 32u8, 100u8, 97u8, 116u8, 97u8],
            Label::Encryption => vec![101u8, 110u8, 99u8, 114u8, 121u8, 112u8, 116u8, 105u8, 111u8, 110u8],
            Label::Exporter => vec![101u8, 120u8, 112u8, 111u8, 114u8, 116u8, 101u8, 114u8],
            Label::External => vec![101u8, 120u8, 116u8, 101u8, 114u8, 110u8, 97u8, 108u8],
            Label::Confirm => vec![99u8, 111u8, 110u8, 102u8, 105u8, 114u8, 109u8],
            Label::Membership => vec![109u8, 101u8, 109u8, 98u8, 101u8, 114u8, 115u8, 104u8, 105u8, 112u8],
            Label::Resumption => vec![114u8, 101u8, 115u8, 117u8, 109u8, 112u8, 116u8, 105u8, 111u8, 110u8],
            Label::Authentication => vec![97u8, 117u8, 116u8, 104u8, 101u8, 110u8, 116u8, 105u8, 99u8, 97u8, 116u8, 105u8, 111u8, 110u8],
            Label::Init => vec![105u8, 110u8, 105u8, 116u8],
            Label::Path => vec![112u8, 97u8, 116u8, 104u8],
            Label::Node => vec![110u8, 111u8, 100u8, 101u8],
            Label::DerivedPsk => vec![100u8, 101u8, 114u8, 105u8, 118u8, 101u8, 100u8, 32u8, 112u8, 115u8, 107u8],
            Label::Key => vec![107u8, 101u8, 121u8],
            Label::Nonce => vec![110u8, 111u8, 110u8, 99u8, 101u8],
            Label::Handshake => vec![104u8, 97u8, 110u8, 100u8, 115u8, 104u8, 97u8, 107u8, 101u8],
            Label::Application => vec![97u8, 112u8, 112u8, 108u8, 105u8, 99u8, 97u8, 116u8, 105u8, 111u8, 110u8],
            Label::ProposalRef => vec![77u8, 76u8, 83u8, 32u8, 49u8, 46u8, 48u8, 32u8, 80u8, 114u8, 111u8, 112u8, 111u8, 115u8, 97u8, 108u8, 32u8, 82u8, 101u8, 102u8, 101u8, 114u8, 101u8, 110u8, 99u8, 101u8],
        };
        assert(r@ =~= self.spec_bytes());
        r
    }
}

/// The prefix of every label.
pub open spec fn label_prefix() -> Seq<u8> {
    seq![77u8, 76u8, 83u8, 32u8, 49u8, 46u8, 48u8, 32u8]
}

/// HKDF-Extract: the HMAC of `ikm` keyed with `salt`.
pub open spec fn spec_extract(h: crate::crypto::Hash, salt: Seq<u8>, ikm: Seq<u8>) -> Seq<u8> {
    h.spec_mac(salt, ikm)
}

/// HKDF-Expand to at most one digest's worth: the first block, truncated.
/// Every value the key schedule, the framing and the tree derive (secrets,
/// AEAD keys, nonces) is at most one digest long, so one block is all this
/// library asks for; longer outputs are not offered.
pub open spec fn spec_expand(h: crate::crypto::Hash, prk: Seq<u8>, info: Seq<u8>, len: nat) -> Seq<u8> {
    h.spec_mac(prk, info.push(1u8)).take(len as int)
}

/// The info of an expansion with `label` and `context` to `len` bytes.
pub open spec fn kdf_label(label: Label, context: Seq<u8>, len: u16) -> Seq<u8> {
    enc_u16(len) + enc_bytes(label_prefix() + label.spec_bytes()) + enc_bytes(context)
}

pub open spec fn spec_expand_with_label(
    h: crate::crypto::Hash,
    secret: Seq<u8>,
    label: Label,
    context: Seq<u8>,
    len: u16,
) -> Seq<u8> {
    spec_expand(h, secret, kdf_label(label, context, len), len as nat)
}

/// A secret of one digest's length derived from `secret` under `label`.
pub open spec fn spec_derive_secret(h: crate::crypto::Hash, secret: Seq<u8>, label: Label) -> Seq<u8> {
    spec_expand_with_label(h, secret, label, Seq::empty(), h.spec_size() as u16)
}

pub fn extract(h: &crate::crypto::Hash, salt: &[u8], ikm: &[u8]) -> (r: Vec<u8>)
    ensures
        r@ == spec_extract(*h, salt@, ikm@),
        r@.len() == h.spec_size(),
{
    match h.mac(salt, ikm) {
        Ok(t) => t,
        Err(_) => Vec::new(),
    }
}

pub fn expand(h: &crate::crypto::Hash, prk: &[u8], info: &[u8], len: usize) -> (r: Vec<u8>)
    requires
        len <= h.spec_size(),
    ensures
        r@ == spec_expand(*h, prk@, info@, len as nat),
        r@.len() == len,
{
    let mut input: Vec<u8> = Vec::new();
    write_raw(&mut input, info);
    write_u8(&mut input, 1);
    assert(input@ =~= info@.push(1u8));
    let block = match h.mac(prk, input.as_slice()) {
        Ok(t) => t,
        Err(_) => Vec::new(),
    };
    let mut r: Vec<u8> = Vec::new();
    let mut i: usize = 0;
    while i < len
        invariant
            i <= len,
            len <= block@.len(),
            r@ == block@.take(i as int),
        decreases len - i,
    {
        r.push(block[i]);
        i = i + 1;
        assert(r@ =~= block@.take(i as int));
    }
    r
}

pub fn expand_with_label(
    h: &crate::crypto::Hash,
    secret: &[u8],
    label: Label,
    context: &[u8],
    len: u16,
) -> (r: Vec<u8>)
    requires
        len <= h.spec_size(),
        context@.len() <= u32::MAX,
    ensures
        r@ == spec_expand_with_label(*h, secret@, label, context@, len),
        r@.len() == len,
{
    let mut info: Vec<u8> = Vec::new();
    write_u16(&mut info, len);
    let mut full: Vec<u8> = vec![77u8, 76u8, 83u8, 32u8, 49u8, 46u8, 48u8, 32u8];
    assert(full@ =~= label_prefix());
    let lb = label.bytes();
    write_raw(&mut full, lb.as_slice());
    write_bytes(&mut info, full.as_slice());
    write_bytes(&mut info, context);
    assert(info@ =~= kdf_label(label, context@, len));
    expand(h, secret, info.as_slice(), len as usize)
}

pub fn derive_secret(h: &crate::crypto::Hash, secret: &[u8], label: Label) -> (r: Vec<u8>)
    ensures
        r@ == spec_derive_secret(*h, secret@, label),
        r@.len() == h.spec_size(),
{
    let empty: Vec<u8> = Vec::new();
    expand_with_label(h, secret, label, empty.as_slice(), h.size() as u16)
}

} // verus!
