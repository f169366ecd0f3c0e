use aws_mls::cipher_suite::CipherSuite;
use aws_mls::framing::{
    parse_plaintext, serialize_plaintext, Content, KeyPackage, MLSCiphertext, MLSPlaintext, Proposal,
    RemoveProposal,
};
use aws_mls::group::{CipherSuiteProvider, Group, GroupError, KeyPackageGeneration, PendingCommit};
use aws_mls::tree_kem::{HpkeCiphertext, LeafIndex, LeafNode, LeafNodeSource, SigningIdentity};
use hmac::Mac;
use sha2::Digest;

const CS: CipherSuite = CipherSuite::Curve25519Aes128;

fn h(parts: &[&[u8]]) -> Vec<u8> {
    let mut d = sha2::Sha256::new();
    for p in parts {
        d.update((p.len() as u32).to_be_bytes());
        d.update(p);
    }
    d.finalize().to_vec()
}

fn tag(key: &[u8], parts: &[&[u8]]) -> Vec<u8> {
    let mut m = <hmac::Hmac<sha2::Sha256> as Mac>::new_from_slice(key).unwrap();
    for p in parts {
        m.update(&(p.len() as u32).to_be_bytes());
        m.update(p);
    }
    m.finalize().into_bytes().to_vec()
}

fn keystream_xor(key: &[u8], nonce: &[u8], data: &[u8]) -> Vec<u8> {
    let mut out = Vec::with_capacity(data.len());
    for (i, chunk) in data.chunks(32).enumerate() {
        let ks = h(&[key, nonce, &(i as u32).to_be_bytes()]);
        out.extend(chunk.iter().zip(ks.iter()).map(|(a, b)| a ^ b));
    }
    out
}

fn public_of(secret: &[u8]) -> Vec<u8> {
    h(&[b"public", secret])
}

/// Stand-in primitives: keyed hashes in place of real public-key crypto.
struct TestProvider;

impl CipherSuiteProvider for TestProvider {
    fn sign(&self, secret_key: &[u8], data: &[u8]) -> Vec<u8> {
        tag(&public_of(secret_key), &[b"sign", data])
    }
    fn verify(&self, public_key: &[u8], signature: &[u8], data: &[u8]) -> bool {
        tag(public_key, &[b"sign", data]) == signature
    }
    fn hpke_seal(&self, public_key: &[u8], aad: &[u8], plaintext: &[u8]) -> HpkeCiphertext {
        let key = h(&[b"hpke", public_key]);
        self.seal_with(&key, aad, plaintext)
    }
    fn hpke_open(&self, secret_key: &[u8], ciphertext: &HpkeCiphertext, aad: &[u8]) -> Option<Vec<u8>> {
        let key = h(&[b"hpke", &public_of(secret_key)]);
        self.aead_open(&key, &ciphertext.kem_output, aad, &ciphertext.ciphertext)
    }
    fn aead_seal(&self, key: &[u8], nonce: &[u8], aad: &[u8], plaintext: &[u8]) -> Vec<u8> {
        let mut ct = keystream_xor(key, nonce, plaintext);
        let t = tag(key, &[nonce, aad, &ct]);
        ct.extend(t);
        ct
    }
    fn aead_open(&self, key: &[u8], nonce: &[u8], aad: &[u8], ciphertext: &[u8]) -> Option<Vec<u8>> {
        if ciphertext.len() < 32 {
            return None;
        }
        let (ct, t) = ciphertext.split_at(ciphertext.len() - 32);
        if tag(key, &[nonce, aad, ct]) != t {
            return None;
        }
        Some(keystream_xor(key, nonce, ct))
    }
    fn kem_derive(&self, ikm: &[u8]) -> (Vec<u8>, Vec<u8>) {
        let secret = h(&[b"kem", ikm]);
        let public = public_of(&secret);
        (secret, public)
    }
}

impl TestProvider {
    fn seal_with(&self, key: &[u8], aad: &[u8], plaintext: &[u8]) -> HpkeCiphertext {
        let nonce = h(&[b"nonce", plaintext])[..12].to_vec();
        HpkeCiphertext {
            kem_output: nonce.clone(),
            ciphertext: self.aead_seal(key, &nonce, aad, plaintext),
        }
    }
}

struct Member {
    generation: KeyPackageGeneration,
    signing_key: Vec<u8>,
}

fn member(name: &str) -> Member {
    let signing_key = h(&[b"signing", name.as_bytes()]);
    let secret_key = h(&[b"leaf", name.as_bytes()]);
    let key_package = KeyPackage {
        cipher_suite: CS,
        hpke_init_key: public_of(&secret_key),
        leaf_node: LeafNode {
            public_key: public_of(&secret_key),
            signing_identity: SigningIdentity::new(name.as_bytes().to_vec(), public_of(&signing_key)),
            leaf_node_source: LeafNodeSource::KeyPackage,
        },
    };
    let key_package_hash = key_package.hash_ref(CS);
    Member {
        generation: KeyPackageGeneration {
            key_package,
            key_package_hash,
            secret_key,
            signing_key: signing_key.clone(),
        },
        signing_key,
    }
}

fn clone_pending(p: &PendingCommit) -> PendingCommit {
    p.clone()
}

fn create(name: &str) -> (Group, Member) {
    let m = member(name);
    let g = Group::new(b"group".to_vec(), m.generation.clone(), vec![7u8; 32]).unwrap();
    (g, m)
}

/// A creates a group and adds everyone in `others` in one commit with a path;
/// each joins from the Welcome.
fn group_of(names: &[&str]) -> (Vec<Group>, Vec<Member>) {
    let p = TestProvider;
    let (mut a, ma) = create(names[0]);
    let members: Vec<Member> = names[1..].iter().map(|n| member(n)).collect();
    let kps = members.iter().map(|m| m.generation.key_package.clone()).collect();
    let adds = a.add_member_proposals(kps).unwrap();
    let pending = a.commit_proposals(&p, &ma.signing_key, adds, Some(vec![1u8; 32])).unwrap();
    let welcome = pending.welcome.clone().unwrap();
    a.process_pending_commit(&p, pending).unwrap();
    let mut groups = vec![];
    let mut all = vec![];
    for m in members {
        let g = Group::from_welcome_message(&p, welcome.clone(), a.public_tree.clone(), m.generation.clone()).unwrap();
        groups.push(g);
        all.push(m);
    }
    groups.insert(0, a);
    all.insert(0, ma);
    (groups, all)
}

#[test]
fn two_member_group_welcome_agrees() {
    let (groups, _) = group_of(&["A", "B"]);
    let (a, b) = (&groups[0], &groups[1]);
    assert_eq!(a.context.epoch, 1);
    assert_eq!(b.context.epoch, 1);
    assert_eq!(a.context.tree_hash, b.context.tree_hash);
    assert_eq!(a.confirmation_tag, b.confirmation_tag);
    assert_eq!(b.private_tree.self_index, LeafIndex(1));
}

#[test]
fn update_without_path_is_invalid_commit() {
    let p = TestProvider;
    let (mut groups, members) = group_of(&["A", "B", "C", "D"]);
    let update_kp = member("C2");
    let proposal = groups[2].update_proposal(update_kp.generation.clone());
    let framed = groups[2]
        .send_proposal(&p, &members[2].signing_key, proposal)
        .unwrap();
    assert!(groups[3].process_plaintext(&p, framed).unwrap().is_none());
    assert_eq!(groups[3].proposals.len(), 1);
    let res = groups[3].commit_proposals(&p, &members[3].signing_key, vec![], None);
    assert!(matches!(res, Err(GroupError::InvalidCommit)));
}

#[test]
fn remove_blanks_leaf_and_path() {
    let p = TestProvider;
    let (mut groups, members) = group_of(&["A", "B", "C", "D"]);
    let remove = Proposal::Remove(RemoveProposal { to_remove: 2 });
    let pending = groups[0]
        .commit_proposals(&p, &members[0].signing_key, vec![remove], Some(vec![9u8; 32]))
        .unwrap();
    let commit = pending.plaintext.clone();
    groups[0].process_pending_commit(&p, pending).unwrap();
    let a = &groups[0];
    assert!(a.public_tree.nodes[4].is_none());
    assert!(a.public_tree.nodes[5].is_none());
    assert_eq!(a.public_tree.total_leaf_count(), 4);
    let hash = aws_mls::crypto::Hash::new(CS);
    assert!(a.public_tree.validate_parent_hashes(&hash).is_ok());
    assert_eq!(a.context.tree_hash, a.public_tree.tree_hash(&hash));

    // Receivers derive the same epoch secrets as the sender.
    for i in [1usize, 3] {
        groups[i].process_plaintext(&p, commit.clone()).unwrap();
        let (s, r) = (&groups[0].key_schedule, &groups[i].key_schedule);
        assert_eq!(s.init_secret, r.init_secret);
        assert_eq!(s.encryption_secret, r.encryption_secret);
        assert_eq!(s.confirmation_key, r.confirmation_key);
        assert_eq!(s.membership_key, r.membership_key);
        assert_eq!(s.resumption_secret, r.resumption_secret);
        assert_eq!(groups[0].confirmation_tag, groups[i].confirmation_tag);
        assert_eq!(groups[0].context.tree_hash, groups[i].context.tree_hash);
    }
}

#[test]
fn commit_applied_twice_is_wrong_epoch() {
    let p = TestProvider;
    let (mut groups, members) = group_of(&["A", "B"]);
    let pending = groups[0]
        .commit_proposals(&p, &members[0].signing_key, vec![], Some(vec![3u8; 32]))
        .unwrap();
    let commit = clone_pending(&pending).plaintext;
    groups[0].process_pending_commit(&p, pending).unwrap();
    groups[1].process_plaintext(&p, commit.clone()).unwrap();
    assert_eq!(groups[1].context.epoch, 2);
    let tag_before = groups[1].confirmation_tag.clone();
    let second = groups[1].process_plaintext(&p, commit);
    assert!(matches!(second, Err(GroupError::InvalidPlaintextEpoch)));
    assert_eq!(groups[1].context.epoch, 2);
    assert_eq!(groups[1].confirmation_tag, tag_before);
}

#[test]
fn confirmation_tag_is_mac_of_transcript() {
    let (groups, _) = group_of(&["A", "B", "C"]);
    let hash = aws_mls::crypto::Hash::new(CS);
    for g in &groups {
        let expected = hash
            .mac(&g.key_schedule.confirmation_key, &g.context.confirmed_transcript_hash)
            .unwrap();
        assert_eq!(g.confirmation_tag, expected);
    }
}

#[test]
fn reuse_guards_and_swapped_messages() {
    let p = TestProvider;
    let (mut groups, members) = group_of(&["A", "B"]);
    let c1 = groups[0]
        .encrypt_application_message(&p, &members[0].signing_key, b"one".to_vec(), &[1, 2, 3, 4])
        .unwrap();
    let c2 = groups[0]
        .encrypt_application_message(&p, &members[0].signing_key, b"two".to_vec(), &[5, 6, 7, 8])
        .unwrap();
    let swapped = MLSCiphertext {
        encrypted_sender_data: c2.encrypted_sender_data.clone(),
        ..c1.clone()
    };
    assert_eq!(groups[1].process_ciphertext(&p, c1).unwrap(), Some(b"one".to_vec()));
    assert_eq!(groups[1].process_ciphertext(&p, c2).unwrap(), Some(b"two".to_vec()));
    assert!(matches!(
        groups[1].process_ciphertext(&p, swapped),
        Err(GroupError::AeadOpenFailure)
    ));
}

#[test]
fn wrong_epoch_ciphertext_is_rejected() {
    let p = TestProvider;
    let (mut groups, members) = group_of(&["A", "B"]);
    let mut c = groups[0]
        .encrypt_application_message(&p, &members[0].signing_key, b"hi".to_vec(), &[0, 0, 0, 1])
        .unwrap();
    c.epoch += 1;
    let epoch = groups[1].context.epoch;
    let res = groups[1].process_ciphertext(&p, c);
    assert!(matches!(res, Err(GroupError::InvalidPlaintextEpoch)));
    assert_eq!(groups[1].context.epoch, epoch);
}

#[test]
fn wrong_epoch_plaintext_is_rejected() {
    let p = TestProvider;
    let (mut groups, members) = group_of(&["A", "B"]);
    let mut m = groups[0]
        .construct_mls_plaintext(&p, &members[0].signing_key, Content::Application(b"x".to_vec()))
        .unwrap();
    m.epoch = groups[1].context.epoch + 1;
    let res = groups[1].process_plaintext(&p, m);
    assert!(matches!(res, Err(GroupError::InvalidPlaintextEpoch)));
}

#[test]
fn plaintext_round_trip() {
    let p = TestProvider;
    let (groups, members) = group_of(&["A", "B", "C"]);
    let pending = groups[0]
        .commit_proposals(&p, &members[0].signing_key, vec![], Some(vec![4u8; 32]))
        .unwrap();
    let messages: Vec<MLSPlaintext> = vec![
        pending.plaintext.clone(),
        groups[1]
            .construct_mls_plaintext(&p, &members[1].signing_key, Content::Application(b"payload".to_vec()))
            .unwrap(),
        groups[2]
            .construct_mls_plaintext(
                &p,
                &members[2].signing_key,
                Content::Proposal(Proposal::Remove(RemoveProposal { to_remove: 1 })),
            )
            .unwrap(),
    ];
    for m in messages {
        let bytes = serialize_plaintext(&m);
        let parsed = parse_plaintext(&bytes).unwrap();
        assert_eq!(format!("{:?}", parsed), format!("{:?}", m));
        assert_eq!(serialize_plaintext(&parsed), bytes);
    }
    assert!(parse_plaintext(&[0, 0, 0]).is_none());
}

#[test]
fn add_member_proposals_checks_cipher_suite() {
    let (a, _) = create("A");
    let mut kp = member("B").generation.key_package;
    kp.cipher_suite = CipherSuite::P384Aes256;
    assert!(matches!(
        a.add_member_proposals(vec![kp]),
        Err(GroupError::CipherSuiteMismatch)
    ));
    let ok = a.add_member_proposals(vec![member("C").generation.key_package]).unwrap();
    assert!(ok[0].is_add());
    assert!(ok[0].as_add().is_some());
    assert!(!ok[0].is_update());
    assert!(ok[0].as_update().is_none());
    assert!(!ok[0].is_remove());
}

#[test]
fn welcome_for_unknown_key_package_fails() {
    let p = TestProvider;
    let (mut a, ma) = create("A");
    let adds = a.add_member_proposals(vec![member("B").generation.key_package]).unwrap();
    let pending = a.commit_proposals(&p, &ma.signing_key, adds, Some(vec![1u8; 32])).unwrap();
    let welcome = pending.welcome.clone().unwrap();
    a.process_pending_commit(&p, pending).unwrap();
    let res = Group::from_welcome_message(&p, welcome, a.public_tree.clone(), member("Z").generation);
    assert!(matches!(res, Err(GroupError::WelcomeKeyPackageNotFound)));
}

#[test]
fn duplicate_adds_are_rejected() {
    let p = TestProvider;
    let (a, ma) = create("A");
    let kp = member("B").generation.key_package;
    let adds = a.add_member_proposals(vec![kp.clone(), kp]).unwrap();
    let res = a.commit_proposals(&p, &ma.signing_key, adds, Some(vec![1u8; 32]));
    assert!(matches!(res, Err(GroupError::DuplicateKeyPackage)));
}

#[test]
fn commit_with_unknown_reference_is_missing_proposal() {
    let p = TestProvider;
    let (mut groups, members) = group_of(&["A", "B"]);
    let proposal = Proposal::Remove(RemoveProposal { to_remove: 1 });
    groups[0].send_proposal(&p, &members[0].signing_key, proposal).unwrap();
    let pending = groups[0]
        .commit_proposals(&p, &members[0].signing_key, vec![], Some(vec![2u8; 32]))
        .unwrap();
    let res = groups[1].process_plaintext(&p, pending.plaintext);
    assert!(matches!(res, Err(GroupError::MissingProposal(_))));
    assert_eq!(groups[1].context.epoch, 1);
}

#[test]
fn tampered_commits_are_rejected() {
    let p = TestProvider;
    let (mut groups, members) = group_of(&["A", "B"]);
    let pending = groups[0]
        .commit_proposals(&p, &members[0].signing_key, vec![], Some(vec![5u8; 32]))
        .unwrap();
    let mut bad_tag = pending.plaintext.clone();
    bad_tag.confirmation_tag = Some(vec![0u8; 32]);
    assert!(matches!(
        groups[1].process_plaintext(&p, bad_tag),
        Err(GroupError::InvalidConfirmationTag)
    ));
    let mut bad_sig = pending.plaintext.clone();
    bad_sig.signature[0] ^= 1;
    assert!(matches!(
        groups[1].process_plaintext(&p, bad_sig),
        Err(GroupError::InvalidSignature)
    ));
    let mut bad_sender = pending.plaintext.clone();
    bad_sender.sender = 9;
    assert!(matches!(
        groups[1].process_plaintext(&p, bad_sender),
        Err(GroupError::LeafNotFound)
    ));
    assert_eq!(groups[1].context.epoch, 1);
    groups[1].process_plaintext(&p, pending.plaintext).unwrap();
    assert_eq!(groups[1].context.epoch, 2);
}

#[test]
fn proposals_are_cached_by_reference() {
    let p = TestProvider;
    let (mut groups, members) = group_of(&["A", "B", "C"]);
    let proposal = Proposal::Remove(RemoveProposal { to_remove: 2 });
    let framed = groups[0].send_proposal(&p, &members[0].signing_key, proposal).unwrap();
    let reference = aws_mls::group::ProposalRef::from_plaintext(CS, &framed, false);
    assert_eq!(reference.0.len(), 16);
    assert_eq!(groups[0].proposals[0].0, reference.0);
    groups[1].process_plaintext(&p, framed).unwrap();
    assert_eq!(groups[1].proposals[0].0, reference.0);
    // B commits the cached remove; A applies it.
    let pending = groups[1]
        .commit_proposals(&p, &members[1].signing_key, vec![], Some(vec![6u8; 32]))
        .unwrap();
    let commit = pending.plaintext.clone();
    groups[1].process_pending_commit(&p, pending).unwrap();
    groups[0].process_plaintext(&p, commit).unwrap();
    assert!(groups[0].public_tree.nodes[4].is_none());
    assert!(groups[0].proposals.is_empty());
    assert_eq!(groups[0].confirmation_tag, groups[1].confirmation_tag);
}

#[test]
fn test_proposal_ref() {
    let p = TestProvider;
    let (groups, members) = group_of(&["A", "B"]);
    let a = groups[0]
        .construct_mls_plaintext(&p, &members[0].signing_key, Content::Proposal(Proposal::Remove(RemoveProposal { to_remove: 1 })))
        .unwrap();
    let b = groups[0]
        .construct_mls_plaintext(&p, &members[0].signing_key, Content::Proposal(Proposal::Remove(RemoveProposal { to_remove: 0 })))
        .unwrap();
    let ra = aws_mls::group::ProposalRef::from_plaintext(CS, &a, false);
    assert_eq!(ra.0.len(), 16);
    assert_eq!(ra.0, aws_mls::group::ProposalRef::from_plaintext(CS, &a, false).0);
    assert_ne!(ra.0, aws_mls::group::ProposalRef::from_plaintext(CS, &a, true).0);
    assert_ne!(ra.0, aws_mls::group::ProposalRef::from_plaintext(CS, &b, false).0);
}

#[test]
fn path_secrets_reach_members_under_updated_nodes() {
    let p = TestProvider;
    let (mut groups, members) = group_of(&["A", "B", "C", "D"]);
    // C refreshes node 5 with its path; everyone applies it.
    let pending = groups[2]
        .commit_proposals(&p, &members[2].signing_key, vec![], Some(vec![11u8; 32]))
        .unwrap();
    let commit = pending.plaintext.clone();
    groups[2].process_pending_commit(&p, pending).unwrap();
    for i in [0usize, 1, 3] {
        groups[i].process_plaintext(&p, commit.clone()).unwrap();
    }
    assert!(groups[0].public_tree.nodes[5].is_some());
    // A's next path encrypts to node 5, which D holds the key of.
    let pending = groups[0]
        .commit_proposals(&p, &members[0].signing_key, vec![], Some(vec![12u8; 32]))
        .unwrap();
    let commit = pending.plaintext.clone();
    groups[0].process_pending_commit(&p, pending).unwrap();
    for i in [1usize, 2, 3] {
        groups[i].process_plaintext(&p, commit.clone()).unwrap();
        assert_eq!(groups[i].key_schedule.init_secret, groups[0].key_schedule.init_secret);
        assert_eq!(groups[i].context.epoch, 3);
    }
}

#[test]
fn application_messages_round_trip_between_members() {
    let p = TestProvider;
    let (mut groups, members) = group_of(&["A", "B", "C"]);
    let c = groups[2]
        .encrypt_application_message(&p, &members[2].signing_key, b"hello".to_vec(), &[9, 9, 9, 9])
        .unwrap();
    assert_eq!(groups[0].process_ciphertext(&p, c.clone()).unwrap(), Some(b"hello".to_vec()));
    assert_eq!(groups[1].process_ciphertext(&p, c).unwrap(), Some(b"hello".to_vec()));
}

#[test]
fn committed_update_installs_the_new_leaf_secret() {
    let p = TestProvider;
    let (mut groups, members) = group_of(&["A", "B", "C", "D"]);
    let fresh = member("C2");
    let proposal = groups[2].update_proposal(fresh.generation.clone());
    let framed = groups[2]
        .send_proposal(&p, &members[2].signing_key, proposal)
        .unwrap();
    for i in [0usize, 1, 3] {
        groups[i].process_plaintext(&p, framed.clone()).unwrap();
    }
    let pending = groups[3]
        .commit_proposals(&p, &members[3].signing_key, vec![], Some(vec![13u8; 32]))
        .unwrap();
    let commit = pending.plaintext.clone();
    groups[3].process_pending_commit(&p, pending).unwrap();
    for i in [0usize, 1, 2] {
        groups[i].process_plaintext(&p, commit.clone()).unwrap();
        assert_eq!(groups[i].key_schedule.init_secret, groups[3].key_schedule.init_secret);
    }
    assert!(groups[2].pending_updates.is_empty());
    // C's new leaf key is the one the next path is sealed to.
    let pending = groups[0]
        .commit_proposals(&p, &members[0].signing_key, vec![], Some(vec![14u8; 32]))
        .unwrap();
    let commit = pending.plaintext.clone();
    groups[0].process_pending_commit(&p, pending).unwrap();
    groups[2].process_plaintext(&p, commit).unwrap();
    assert_eq!(groups[2].key_schedule.init_secret, groups[0].key_schedule.init_secret);
}

#[test]
fn plaintexts_carry_and_need_a_membership_tag() {
    let p = TestProvider;
    let (mut groups, members) = group_of(&["A", "B"]);
    let m = groups[0]
        .construct_mls_plaintext(&p, &members[0].signing_key, Content::Application(b"x".to_vec()))
        .unwrap();
    assert_eq!(m.membership_tag.as_ref().unwrap().len(), 32);
    let mut stripped = m.clone();
    stripped.membership_tag = None;
    assert!(matches!(
        groups[1].process_plaintext(&p, stripped),
        Err(GroupError::InvalidMembershipTag)
    ));
    let mut forged = m.clone();
    forged.membership_tag = Some(vec![0u8; 32]);
    assert!(matches!(
        groups[1].process_plaintext(&p, forged),
        Err(GroupError::InvalidMembershipTag)
    ));
    assert_eq!(groups[1].process_plaintext(&p, m).unwrap(), Some(b"x".to_vec()));
}

#[test]
fn joining_checks_the_tree() {
    let p = TestProvider;
    let (mut a, ma) = create("A");
    let mb = member("B");
    let adds = a.add_member_proposals(vec![mb.generation.key_package.clone()]).unwrap();
    let pending = a.commit_proposals(&p, &ma.signing_key, adds, Some(vec![1u8; 32])).unwrap();
    let welcome = pending.welcome.clone().unwrap();
    a.process_pending_commit(&p, pending).unwrap();
    let mut other = a.public_tree.clone();
    other.nodes[1] = None;
    let res = Group::from_welcome_message(&p, welcome.clone(), other, mb.generation.clone());
    assert!(matches!(res, Err(GroupError::InvalidRatchetTree)));
    let b = Group::from_welcome_message(&p, welcome, a.public_tree.clone(), mb.generation).unwrap();
    assert_eq!(b.context.epoch, 1);
    assert_eq!(b.confirmation_tag, a.confirmation_tag);
}

#[test]
fn empty_commit_without_path_is_invalid() {
    let p = TestProvider;
    let (a, ma) = create("A");
    let res = a.commit_proposals(&p, &ma.signing_key, vec![], None);
    assert!(matches!(res, Err(GroupError::InvalidCommit)));
}

#[test]
fn encryption_fails_only_when_generations_run_out() {
    let p = TestProvider;
    let (mut groups, members) = group_of(&["A", "B"]);
    groups[0].next_generation = u32::MAX;
    let res = groups[0].encrypt_application_message(&p, &members[0].signing_key, b"m".to_vec(), &[1, 2, 3, 4]);
    assert!(matches!(res, Err(GroupError::CodecError)));
    assert_eq!(groups[0].next_generation, u32::MAX);
}

#[test]
fn removing_a_leaf_twice_is_a_conflict() {
    let p = TestProvider;
    let (groups, members) = group_of(&["A", "B", "C"]);
    let rm = || Proposal::Remove(RemoveProposal { to_remove: 2 });
    let res = groups[0].commit_proposals(&p, &members[0].signing_key, vec![rm(), rm()], Some(vec![3u8; 32]));
    assert!(matches!(res, Err(GroupError::InvalidCommit)));
}

#[test]
fn a_proposal_received_twice_is_filed_once() {
    let p = TestProvider;
    let (mut groups, members) = group_of(&["A", "B", "C"]);
    let framed = groups[0]
        .send_proposal(&p, &members[0].signing_key, Proposal::Remove(RemoveProposal { to_remove: 2 }))
        .unwrap();
    groups[1].process_plaintext(&p, framed.clone()).unwrap();
    groups[1].process_plaintext(&p, framed).unwrap();
    assert_eq!(groups[1].proposals.len(), 1);
}

#[test]
fn cached_update_with_inline_add_needs_a_path() {
    let p = TestProvider;
    let (mut groups, members) = group_of(&["A", "B", "C", "D"]);
    let proposal = groups[2].update_proposal(member("C2").generation.clone());
    let framed = groups[2].send_proposal(&p, &members[2].signing_key, proposal).unwrap();
    groups[3].process_plaintext(&p, framed).unwrap();
    let adds = groups[3].add_member_proposals(vec![member("E").generation.key_package]).unwrap();
    let res = groups[3].commit_proposals(&p, &members[3].signing_key, adds, None);
    assert!(matches!(res, Err(GroupError::InvalidCommit)));
}
