use aws_mls::cipher_suite::CipherSuite;
use aws_mls::psk::{
    psk_secret, psk_secret_from, EpochSecrets, ExternalPskId, JustPreSharedKeyID, PreSharedKeyID, Psk,
    PskNonce, PskSecretError, PskStore,
};
use sha2::Digest;

const TEST_CIPHER_SUITE: CipherSuite = CipherSuite::Curve25519Aes128;

#[derive(Default)]
struct InMemoryPskStore {
    psks: Vec<(Vec<u8>, Vec<u8>)>,
}

impl InMemoryPskStore {
    fn insert(&mut self, id: ExternalPskId, psk: Psk) {
        self.psks.push((id.0, psk.0));
    }
}

impl PskStore for InMemoryPskStore {
    fn psk(&self, id: &ExternalPskId) -> Option<Psk> {
        self.psks
            .iter()
            .find(|(k, _)| *k == id.0)
            .map(|(_, v)| Psk(v.clone()))
    }
}

struct NoEpochs;

impl EpochSecrets for NoEpochs {
    fn resumption_secret(&mut self, _epoch: u64) -> Option<Vec<u8>> {
        None
    }
}

fn digest_size(cipher_suite: CipherSuite) -> usize {
    aws_mls::crypto::Hash::new(cipher_suite).size()
}

/// Deterministic bytes standing in for random ones.
fn bytes(seed: &str, n: usize) -> Vec<u8> {
    let mut out = Vec::new();
    let mut i = 0u32;
    while out.len() < n {
        let mut d = sha2::Sha256::new();
        d.update(seed.as_bytes());
        d.update(i.to_be_bytes());
        out.extend(d.finalize());
        i += 1;
    }
    out.truncate(n);
    out
}

fn make_external_psk_id(cipher_suite: CipherSuite, seed: &str) -> ExternalPskId {
    ExternalPskId(bytes(seed, digest_size(cipher_suite)))
}

fn make_nonce(cipher_suite: CipherSuite, seed: &str) -> PskNonce {
    PskNonce(bytes(&format!("nonce {seed}"), digest_size(cipher_suite)))
}

fn wrap_external_psk_id(cipher_suite: CipherSuite, id: ExternalPskId, seed: &str) -> PreSharedKeyID {
    PreSharedKeyID {
        key_id: JustPreSharedKeyID::External(id),
        psk_nonce: make_nonce(cipher_suite, seed),
    }
}

#[test]
fn unknown_id_leads_to_error() {
    let expected_id = make_external_psk_id(TEST_CIPHER_SUITE, "unknown");
    let res = psk_secret(
        TEST_CIPHER_SUITE,
        &InMemoryPskStore::default(),
        &mut NoEpochs,
        &[wrap_external_psk_id(TEST_CIPHER_SUITE, expected_id.clone(), "unknown")],
    );
    assert!(matches!(res, Err(PskSecretError::NoPskForId(actual_id)) if actual_id.0 == expected_id.0));
}

struct PskInfo {
    id: Vec<u8>,
    psk: Vec<u8>,
    nonce: Vec<u8>,
}

struct TestScenario {
    cipher_suite: u16,
    psks: Vec<PskInfo>,
    psk_secret: Vec<u8>,
}

fn to_id(info: &PskInfo) -> PreSharedKeyID {
    PreSharedKeyID {
        key_id: JustPreSharedKeyID::External(ExternalPskId(info.id.clone())),
        psk_nonce: PskNonce(info.nonce.clone()),
    }
}

fn compute_psk_secret(cipher_suite: CipherSuite, psks: &[PskInfo]) -> Vec<u8> {
    let mut secret_store = InMemoryPskStore::default();
    for psk in psks {
        secret_store.insert(ExternalPskId(psk.id.clone()), Psk(psk.psk.clone()));
    }
    let ids = psks.iter().map(to_id).collect::<Vec<_>>();
    psk_secret(cipher_suite, &secret_store, &mut NoEpochs, &ids).unwrap()
}

fn generate() -> Vec<TestScenario> {
    let mut out = vec![];
    for cs in CipherSuite::all() {
        for n in 1..=10 {
            let psks = (0..n)
                .map(|k| {
                    let seed = format!("{}-{n}-{k}", cs.raw());
                    PskInfo {
                        id: make_external_psk_id(cs, &format!("id {seed}")).0,
                        psk: bytes(&format!("psk {seed}"), digest_size(cs)),
                        nonce: make_nonce(cs, &seed).0,
                    }
                })
                .collect::<Vec<_>>();
            // The secret computed straight from the PSK values.
            let ids = psks.iter().map(to_id).collect::<Vec<_>>();
            let values = psks.iter().map(|p| Psk(p.psk.clone())).collect::<Vec<_>>();
            let psk_secret = psk_secret_from(cs, &ids, &values).unwrap();
            out.push(TestScenario {
                cipher_suite: cs.raw(),
                psks,
                psk_secret,
            });
        }
    }
    out
}

#[test]
fn expected_psk_secret_is_produced() {
    assert_eq!(
        generate()
            .into_iter()
            .enumerate()
            .map(|(i, scenario)| (format!("Scenario #{i}"), scenario))
            .find(|(_, scenario)| {
                if let Some(cipher_suite) = CipherSuite::from_raw(scenario.cipher_suite) {
                    scenario.psk_secret != compute_psk_secret(cipher_suite, &scenario.psks)
                } else {
                    false
                }
            })
            .map(|(name, _)| name),
        None
    );
}

#[test]
fn psk_secret_depends_on_order_and_count() {
    let cs = TEST_CIPHER_SUITE;
    let a = PskInfo { id: bytes("a", 32), psk: bytes("pa", 32), nonce: bytes("na", 32) };
    let b = PskInfo { id: bytes("b", 32), psk: bytes("pb", 32), nonce: bytes("nb", 32) };
    let ab = compute_psk_secret(cs, &[PskInfo { ..a }, PskInfo { ..b }]);
    let a = PskInfo { id: bytes("a", 32), psk: bytes("pa", 32), nonce: bytes("na", 32) };
    let b = PskInfo { id: bytes("b", 32), psk: bytes("pb", 32), nonce: bytes("nb", 32) };
    let ba = compute_psk_secret(cs, &[b, a]);
    assert_ne!(ab, ba);
    assert_eq!(ab.len(), 32);
    let none = psk_secret_from(cs, &[], &[]).unwrap();
    assert_eq!(none, vec![0u8; 32]);
}
