//! The per-epoch key schedule: from the previous init secret, the commit
//! secret, the PSK secret and the new group context to every secret of the
//! new epoch.
use vstd::prelude::*;
use crate::kdf::{
    derive_secret, expand_with_label, extract, spec_derive_secret, spec_expand_with_label,
    spec_extract, Label,
};

verus! {

/// The secrets of one epoch.
#[derive(Clone, Debug)]
pub struct EpochKeySchedule {
    pub init_secret: Vec<u8>,
    pub sender_data_secret: Vec<u8>,
    pub encryption_secret: Vec<u8>,
    pub exporter_secret: Vec<u8>,
    pub external_secret: Vec<u8>,
    pub confirmation_key: Vec<u8>,
    pub membership_key: Vec<u8>,
    pub resumption_secret: Vec<u8>,
    pub epoch_authenticator: Vec<u8>,
}

/// What a commit derives: the new epoch's secrets, with the joiner and
/// welcome secrets that new members start from.
#[derive(Clone, Debug)]
pub struct KeyScheduleDerivation {
    pub key_schedule: EpochKeySchedule,
    pub joiner_secret: Vec<u8>,
    pub welcome_secret: Vec<u8>,
}

pub open spec fn spec_joiner_secret(h: crate::crypto::Hash, init_prev: Seq<u8>, commit_secret: Seq<u8>) -> Seq<u8> {
    spec_extract(h, init_prev, commit_secret)
}

pub open spec fn spec_welcome_secret(h: crate::crypto::Hash, joiner: Seq<u8>, psk_secret: Seq<u8>) -> Seq<u8> {
    spec_expand_with_label(h, joiner, Label::Welcome, psk_secret, h.spec_size() as u16)
}

pub open spec fn spec_epoch_secret(
    h: crate::crypto::Hash,
    joiner: Seq<u8>,
    psk_secret: Seq<u8>,
    context: Seq<u8>,
) -> Seq<u8> {
    spec_expand_with_label(
        h,
        spec_extract(h, joiner, psk_secret),
        Label::Epoch,
        context,
        h.spec_size() as u16,
    )
}

impl EpochKeySchedule {
    /// Every secret is derived from `epoch_secret` under its own label.
    pub open spec fn derived_from(&self, h: crate::crypto::Hash, epoch_secret: Seq<u8>) -> bool {
        &&& self.sender_data_secret@ == spec_derive_secret(h, epoch_secret, Label::SenderData)
        &&& self.encryption_secret@ == spec_derive_secret(h, epoch_secret, Label::Encryption)
        &&& self.exporter_secret@ == spec_derive_secret(h, epoch_secret, Label::Exporter)
        &&& self.external_secret@ == spec_derive_secret(h, epoch_secret, Label::External)
        &&& self.confirmation_key@ == spec_derive_secret(h, epoch_secret, Label::Confirm)
        &&& self.membership_key@ == spec_derive_secret(h, epoch_secret, Label::Membership)
        &&& self.resumption_secret@ == spec_derive_secret(h, epoch_secret, Label::Resumption)
        &&& self.epoch_authenticator@ == spec_derive_secret(h, epoch_secret, Label::Authentication)
        &&& self.init_secret@ == spec_derive_secret(h, epoch_secret, Label::Init)
    }

    /// The secrets of two schedules are the same.
    pub open spec fn same_secrets(&self, other: &EpochKeySchedule) -> bool {
        &&& self.init_secret@ == other.init_secret@
        &&& self.sender_data_secret@ == other.sender_data_secret@
        &&& self.encryption_secret@ == other.encryption_secret@
        &&& self.exporter_secret@ == other.exporter_secret@
        &&& self.external_secret@ == other.external_secret@
        &&& self.confirmation_key@ == other.confirmation_key@
        &&& self.membership_key@ == other.membership_key@
        &&& self.resumption_secret@ == other.resumption_secret@
        &&& self.epoch_authenticator@ == other.epoch_authenticator@
    }

    pub open spec fn wf(&self, h: crate::crypto::Hash) -> bool {
        &&& self.init_secret@.len() == h.spec_size()
        &&& self.sender_data_secret@.len() == h.spec_size()
        &&& self.encryption_secret@.len() == h.spec_size()
        &&& self.confirmation_key@.len() == h.spec_size()
        &&& self.membership_key@.len() == h.spec_size()
    }

    /// The epoch's secrets, each derived from `epoch_secret`.
    pub fn from_epoch_secret(h: &crate::crypto::Hash, epoch_secret: &[u8]) -> (r: EpochKeySchedule)
        ensures
            r.derived_from(*h, epoch_secret@),
            r.wf(*h),
    {
        EpochKeySchedule {
            init_secret: derive_secret(h, epoch_secret, Label::Init),
            sender_data_secret: derive_secret(h, epoch_secret, Label::SenderData),
            encryption_secret: derive_secret(h, epoch_secret, Label::Encryption),
            exporter_secret: derive_secret(h, epoch_secret, Label::Exporter),
            external_secret: derive_secret(h, epoch_secret, Label::External),
            confirmation_key: derive_secret(h, epoch_secret, Label::Confirm),
            membership_key: derive_secret(h, epoch_secret, Label::Membership),
            resumption_secret: derive_secret(h, epoch_secret, Label::Resumption),
            epoch_authenticator: derive_secret(h, epoch_secret, Label::Authentication),
        }
    }

    /// The new epoch that `joiner_secret` and `psk_secret` lead to under the
    /// serialized group context `context`.
    pub fn from_joiner(
        h: &crate::crypto::Hash,
        joiner_secret: &[u8],
        psk_secret: &[u8],
        context: &[u8],
    ) -> (r: EpochKeySchedule)
        requires
            context@.len() <= u32::MAX,
        ensures
            r.derived_from(*h, spec_epoch_secret(*h, joiner_secret@, psk_secret@, context@)),
            r.wf(*h),
    {
        let member = extract(h, joiner_secret, psk_secret);
        let epoch = expand_with_label(h, member.as_slice(), Label::Epoch, context, h.size() as u16);
        Self::from_epoch_secret(h, epoch.as_slice())
    }

    /// The epoch after this one: its joiner secret comes from this epoch's
    /// init secret and `commit_secret`.
    pub fn evolved_from(
        &self,
        h: &crate::crypto::Hash,
        commit_secret: &[u8],
        psk_secret: &[u8],
        context: &[u8],
    ) -> (r: KeyScheduleDerivation)
        requires
            context@.len() <= u32::MAX,
            psk_secret@.len() <= u32::MAX,
        ensures
            r.joiner_secret@ == spec_joiner_secret(*h, self.init_secret@, commit_secret@),
            r.joiner_secret@.len() == h.spec_size(),
            r.welcome_secret@.len() == h.spec_size(),
            r.welcome_secret@ == spec_welcome_secret(*h, r.joiner_secret@, psk_secret@),
            r.key_schedule.derived_from(
                *h,
                spec_epoch_secret(*h, r.joiner_secret@, psk_secret@, context@),
            ),
            r.key_schedule.wf(*h),
    {
        derive(h, self.init_secret.as_slice(), commit_secret, psk_secret, context)
    }
}

/// Derives an epoch from the previous init secret, as §4.2 lays out.
pub fn derive(
    h: &crate::crypto::Hash,
    init_prev: &[u8],
    commit_secret: &[u8],
    psk_secret: &[u8],
    context: &[u8],
) -> (r: KeyScheduleDerivation)
    requires
        context@.len() <= u32::MAX,
        psk_secret@.len() <= u32::MAX,
    ensures
        r.joiner_secret@ == spec_joiner_secret(*h, init_prev@, commit_secret@),
        r.joiner_secret@.len() == h.spec_size(),
        r.welcome_secret@.len() == h.spec_size(),
        r.welcome_secret@ == spec_welcome_secret(*h, r.joiner_secret@, psk_secret@),
        r.key_schedule.derived_from(
            *h,
            spec_epoch_secret(*h, r.joiner_secret@, psk_secret@, context@),
        ),
        r.key_schedule.wf(*h),
{
    let joiner = extract(h, init_prev, commit_secret);
    let welcome = expand_with_label(h, joiner.as_slice(), Label::Welcome, psk_secret, h.size() as u16);
    let key_schedule = EpochKeySchedule::from_joiner(h, joiner.as_slice(), psk_secret, context);
    KeyScheduleDerivation { key_schedule, joiner_secret: joiner, welcome_secret: welcome }
}

} // verus!
