//! Pre-shared keys: their identifiers and the combined PSK secret that enters
//! the key schedule.
use vstd::prelude::*;
use crate::cipher_suite::CipherSuite;
use crate::codec::{copy_bytes, enc_bytes, enc_u16, enc_u64, write_bytes, write_u16, write_u64, write_u8};
use crate::kdf::{expand_with_label, extract, spec_expand_with_label, spec_extract, Label};

verus! {

#[derive(Clone, Debug)]
pub struct ExternalPskId(pub Vec<u8>);

#[derive(Clone, Debug)]
pub struct PskGroupId(pub Vec<u8>);

#[derive(Clone, Debug)]
pub struct PskNonce(pub Vec<u8>);

#[derive(Clone, Copy, Debug, PartialEq, Eq, Structural)]
pub enum ResumptionPSKUsage {
    Application,
    Reinit,
    Branch,
}

#[derive(Clone, Debug)]
pub struct ResumptionPsk {
    pub usage: ResumptionPSKUsage,
    pub psk_group_id: PskGroupId,
    pub psk_epoch: u64,
}

#[derive(Clone, Debug)]
pub enum JustPreSharedKeyID {
    External(ExternalPskId),
    Resumption(ResumptionPsk),
}

#[derive(Clone, Debug)]
pub struct PreSharedKeyID {
    pub key_id: JustPreSharedKeyID,
    pub psk_nonce: PskNonce,
}

/// The secret value of a pre-shared key.
#[derive(Clone, Debug)]
pub struct Psk(pub Vec<u8>);

/// Failures of the PSK secret computation.
#[derive(Debug)]
pub enum PskSecretError {
    TooManyPskIds(usize),
    NoPskForId(ExternalPskId),
    EpochNotFound(u64),
}

/// Where external PSKs are looked up; implemented by the application.
pub trait PskStore {
    fn psk(&self, id: &ExternalPskId) -> Option<Psk>;
}

/// Where the resumption secrets of earlier epochs are looked up; implemented
/// by the application.
pub trait EpochSecrets {
    fn resumption_secret(&mut self, epoch: u64) -> Option<Vec<u8>>;
}

/// A byte string that a 32-bit length prefix can carry with room to spare.
pub open spec fn small(b: Seq<u8>) -> bool {
    b.len() <= 0x1000_0000
}

impl PreSharedKeyID {
    pub open spec fn wf(&self) -> bool {
        &&& small(self.psk_nonce.0@)
        &&& match self.key_id {
            JustPreSharedKeyID::External(e) => small(e.0@),
            JustPreSharedKeyID::Resumption(r) => small(r.psk_group_id.0@),
        }
    }
}

pub open spec fn enc_usage(u: ResumptionPSKUsage) -> u8 {
    match u {
        ResumptionPSKUsage::Application => 1,
        ResumptionPSKUsage::Reinit => 2,
        ResumptionPSKUsage::Branch => 3,
    }
}

pub open spec fn enc_psk_id(id: PreSharedKeyID) -> Seq<u8> {
    (match id.key_id {
        JustPreSharedKeyID::External(e) => seq![1u8] + enc_bytes(e.0@),
        JustPreSharedKeyID::Resumption(r) => seq![2u8, enc_usage(r.usage)] + enc_bytes(
            r.psk_group_id.0@,
        ) + enc_u64(r.psk_epoch),
    }) + enc_bytes(id.psk_nonce.0@)
}

/// The label binding a PSK to its place among `count`.
pub open spec fn psk_label(id: PreSharedKeyID, index: u16, count: u16) -> Seq<u8> {
    enc_psk_id(id) + enc_u16(index) + enc_u16(count)
}

/// The PSK secret after folding in the first `k` of `psks`, whose ids are
/// `ids`: each PSK is extracted, expanded under its label, and extracted with
/// the running secret as input keying material, starting from zeros.
pub open spec fn psk_fold(
    h: crate::crypto::Hash,
    ids: Seq<PreSharedKeyID>,
    psks: Seq<Seq<u8>>,
    k: int,
) -> Seq<u8>
    decreases k,
{
    if k <= 0 {
        Seq::new(h.spec_size(), |i: int| 0u8)
    } else {
        let zeros = Seq::new(h.spec_size(), |i: int| 0u8);
        let extracted = spec_extract(h, zeros, psks[k - 1]);
        let input = spec_expand_with_label(
            h,
            extracted,
            Label::DerivedPsk,
            psk_label(ids[k - 1], (k - 1) as u16, ids.len() as u16),
            h.spec_size() as u16,
        );
        spec_extract(h, input, psk_fold(h, ids, psks, k - 1))
    }
}

pub fn write_psk_id(out: &mut Vec<u8>, id: &PreSharedKeyID)
    requires
        id.wf(),
    ensures
        final(out)@ == old(out)@ + enc_psk_id(*id),
{
    match &id.key_id {
        JustPreSharedKeyID::External(e) => {
            write_u8(out, 1);
            write_bytes(out, e.0.as_slice());
        },
        JustPreSharedKeyID::Resumption(r) => {
            write_u8(out, 2);
            let u: u8 = match r.usage {
                ResumptionPSKUsage::Application => 1,
                ResumptionPSKUsage::Reinit => 2,
                ResumptionPSKUsage::Branch => 3,
            };
            write_u8(out, u);
            write_bytes(out, r.psk_group_id.0.as_slice());
            write_u64(out, r.psk_epoch);
        },
    }
    write_bytes(out, id.psk_nonce.0.as_slice());
    assert(final(out)@ =~= old(out)@ + enc_psk_id(*id));
}

/// The PSK secret of `psk_ids`, given the secret value of each.
pub fn psk_secret_from(cipher_suite: CipherSuite, psk_ids: &[PreSharedKeyID], psks: &[Psk]) -> (r:
    Result<Vec<u8>, PskSecretError>)
    requires
        psk_ids@.len() == psks@.len(),
        forall|k: int| 0 <= k < psk_ids@.len() ==> (#[trigger] psk_ids@[k]).wf(),
    ensures
        match r {
            Ok(s) => psk_ids@.len() <= u16::MAX && s@ == psk_fold(
                crate::crypto::Hash::spec_new(cipher_suite),
                psk_ids@,
                psks@.map_values(|p: Psk| p.0@),
                psk_ids@.len() as int,
            ),
            Err(e) => psk_ids@.len() > u16::MAX && e == PskSecretError::TooManyPskIds(
                psk_ids@.len() as usize,
            ),
        },
{
    let len = psk_ids.len();
    if len > u16::MAX as usize {
        return Err(PskSecretError::TooManyPskIds(len));
    }
    let h = crate::crypto::Hash::new(cipher_suite);
    let size = h.size();
    let ghost pv = psks@.map_values(|p: Psk| p.0@);
    let mut secret = crate::group::zero_bytes(size);
    let mut k: usize = 0;
    while k < len
        invariant
            k <= len,
            len == psk_ids@.len(),
            len == psks@.len(),
            len <= u16::MAX,
            size == h.spec_size(),
            h == crate::crypto::Hash::spec_new(cipher_suite),
            pv == psks@.map_values(|p: Psk| p.0@),
            forall|j: int| 0 <= j < psk_ids@.len() ==> (#[trigger] psk_ids@[j]).wf(),
            secret@ == psk_fold(h, psk_ids@, pv, k as int),
        decreases len - k,
    {
        let z = crate::group::zero_bytes(size);
        let extracted = extract(&h, z.as_slice(), psks[k].0.as_slice());
        let mut label: Vec<u8> = Vec::new();
        write_psk_id(&mut label, &psk_ids[k]);
        write_u16(&mut label, k as u16);
        write_u16(&mut label, len as u16);
        let input = expand_with_label(
            &h,
            extracted.as_slice(),
            Label::DerivedPsk,
            label.as_slice(),
            size as u16,
        );
        secret = extract(&h, input.as_slice(), secret.as_slice());
        k = k + 1;
    }
    Ok(secret)
}

/// The PSK secret of `psk_ids`: external PSKs are looked up in `secret_store`
/// and resumption PSKs in `epochs`.
pub fn psk_secret<S: PskStore, E: EpochSecrets>(
    cipher_suite: CipherSuite,
    secret_store: &S,
    epochs: &mut E,
    psk_ids: &[PreSharedKeyID],
) -> (r: Result<Vec<u8>, PskSecretError>)
    requires
        forall|k: int| 0 <= k < psk_ids@.len() ==> (#[trigger] psk_ids@[k]).wf(),
    ensures
        psk_ids@.len() > u16::MAX ==> r == Err::<Vec<u8>, PskSecretError>(PskSecretError::TooManyPskIds(psk_ids@.len() as usize)),
        psk_ids@.len() == 0 ==> (r matches Ok(s) && s@ == psk_fold(
            crate::crypto::Hash::spec_new(cipher_suite),
            psk_ids@,
            Seq::empty(),
            0,
        )),
        r matches Err(e) ==> (e is TooManyPskIds && psk_ids@.len() > u16::MAX) || e is NoPskForId || e is EpochNotFound,
        r matches Err(PskSecretError::NoPskForId(id)) ==> exists|i: int| 0 <= i < psk_ids@.len()
            && ((#[trigger] psk_ids@[i]).key_id matches JustPreSharedKeyID::External(e) && e.0@ == id.0@),
        r matches Err(PskSecretError::EpochNotFound(epoch)) ==> exists|i: int| 0 <= i < psk_ids@.len()
            && ((#[trigger] psk_ids@[i]).key_id matches JustPreSharedKeyID::Resumption(res) && res.psk_epoch == epoch),
        r matches Ok(s) ==> psk_ids@.len() <= u16::MAX && exists|values: Seq<Seq<u8>>| values.len() == psk_ids@.len()
            && s@ == #[trigger] psk_fold(crate::crypto::Hash::spec_new(cipher_suite), psk_ids@, values, psk_ids@.len() as int),
{
    let len = psk_ids.len();
    if len > u16::MAX as usize {
        return Err(PskSecretError::TooManyPskIds(len));
    }
    let mut psks: Vec<Psk> = Vec::new();
    let mut k: usize = 0;
    while k < len
        invariant
            k <= len,
            len == psk_ids@.len(),
            len <= u16::MAX,
            psks@.len() == k,
        decreases len - k,
    {
        let psk = match &psk_ids[k].key_id {
            JustPreSharedKeyID::External(id) => match secret_store.psk(id) {
                Some(p) => p,
                None => {
                    return Err(PskSecretError::NoPskForId(ExternalPskId(copy_bytes(id.0.as_slice()))));
                },
            },
            JustPreSharedKeyID::Resumption(res) => match epochs.resumption_secret(res.psk_epoch) {
                Some(s) => Psk(s),
                None => {
                    return Err(PskSecretError::EpochNotFound(res.psk_epoch));
                },
            },
        };
        psks.push(psk);
        k = k + 1;
    }
    let r = psk_secret_from(cipher_suite, psk_ids, psks.as_slice());
    proof {
        let values = psks@.map_values(|p: Psk| p.0@);
        assert(r matches Ok(s) ==> values.len() == psk_ids@.len() && s@ == psk_fold(
            crate::crypto::Hash::spec_new(cipher_suite),
            psk_ids@,
            values,
            psk_ids@.len() as int,
        ));
    }
    r
}

} // verus!
