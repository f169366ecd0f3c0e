use aws_mls::cipher_suite::{CipherSuite, Curve};

fn hex(s: &str) -> Vec<u8> {
    (0..s.len())
        .step_by(2)
        .map(|i| u8::from_str_radix(&s[i..i + 2], 16).unwrap())
        .collect()
}

#[test]
fn hash_known_answers() {
    let sha256 = aws_mls::crypto::Hash::new(CipherSuite::Curve25519Aes128);
    let sha384 = aws_mls::crypto::Hash::new(CipherSuite::P384Aes256);
    let sha512 = aws_mls::crypto::Hash::new(CipherSuite::P521Aes256);
    assert_eq!(
        sha256.hash(b"abc"),
        hex("ba7816bf8f01cfea414140de5dae2223b00361a396177a9cb410ff61f20015ad")
    );
    assert_eq!(
        sha384.hash(b"abc"),
        hex("cb00753f45a35e8bb5a03d699ac65007272c32ab0eded1631a8b605a43ff5bed8086072ba1e7cc2358baeca134c825a7")
    );
    assert_eq!(
        sha512.hash(b"abc"),
        hex("ddaf35a193617abacc417349ae20413112e6fa4e89a97ea20a9eeee64b55d39a2192992a274fc1a836ba3c23a3feebbd454d4423643ce80e2a9ac94fa54ca49f")
    );
}

#[test]
fn test_hmac_test_vectors() {
    let cases = [
        (
            CipherSuite::Curve25519Aes128,
            "5bdcc146bf60754e6a042426089575c75a003f089d2739839dec58b964ec3843",
        ),
        (
            CipherSuite::P384Aes256,
            "af45d2e376484031617f78d2b58a6b1b9c7ef464f5a01b47e42ec3736322445e8e2240ca5e69e2c78b3239ecfab21649",
        ),
        (
            CipherSuite::P521Aes256,
            "164b7a7bfcf819e2e395fbe73b56e0a387bd64222e831fd610270cd7ea2505549758bf75c05a994a6d034f65f8f0e6fdcaeab1a34d4a6b4b636e070a38bce737",
        ),
    ];
    for (cs, expected) in cases {
        let hash = aws_mls::crypto::Hash::new(cs);
        let tag = hash.mac(b"Jefe", b"what do ya want for nothing?").unwrap();
        assert_eq!(tag, hex(expected));
        let different_tag = hash.mac(b"Jefe", b"different message").unwrap();
        assert_ne!(different_tag, tag);
    }
}

#[test]
fn hash_per_cipher_suite() {
    assert_eq!(aws_mls::crypto::Hash::new(CipherSuite::Curve25519Aes128), aws_mls::crypto::Hash::Sha256);
    assert_eq!(aws_mls::crypto::Hash::new(CipherSuite::P256Aes128), aws_mls::crypto::Hash::Sha256);
    assert_eq!(aws_mls::crypto::Hash::new(CipherSuite::Curve25519ChaCha20), aws_mls::crypto::Hash::Sha256);
    assert_eq!(aws_mls::crypto::Hash::new(CipherSuite::P384Aes256), aws_mls::crypto::Hash::Sha384);
    assert_eq!(aws_mls::crypto::Hash::new(CipherSuite::Curve448Aes256), aws_mls::crypto::Hash::Sha512);
    assert_eq!(aws_mls::crypto::Hash::new(CipherSuite::P521Aes256), aws_mls::crypto::Hash::Sha512);
    assert_eq!(aws_mls::crypto::Hash::new(CipherSuite::Curve448ChaCha20), aws_mls::crypto::Hash::Sha512);
}

#[test]
fn cipher_suite_code_points() {
    for (i, cs) in CipherSuite::all().into_iter().enumerate() {
        assert_eq!(cs.raw() as usize, i + 1);
        assert_eq!(CipherSuite::from_raw(cs.raw()), Some(cs));
    }
    assert_eq!(CipherSuite::from_raw(0), None);
    assert_eq!(CipherSuite::from_raw(8), None);
}

#[test]
fn curves_of_cipher_suites() {
    assert_eq!(Curve::from_ciphersuite(CipherSuite::P256Aes128, false), Curve::P256);
    assert_eq!(Curve::from_ciphersuite(CipherSuite::Curve25519Aes128, true), Curve::Ed25519);
    assert_eq!(Curve::from_ciphersuite(CipherSuite::Curve25519ChaCha20, false), Curve::X25519);
    assert_eq!(Curve::from_ciphersuite(CipherSuite::Curve448Aes256, true), Curve::Ed448);
    assert_eq!(Curve::from_ciphersuite(CipherSuite::Curve448ChaCha20, false), Curve::X448);
    assert_eq!(Curve::P521.secret_key_size(), 66);
    assert_eq!(Curve::Ed448.secret_key_size(), 57);
    assert_eq!(Curve::X448.secret_key_size(), 56);
    assert_eq!(Curve::P521.curve_bitmask(), Some(0x01));
    assert_eq!(Curve::P384.curve_bitmask(), Some(0xFF));
    assert_eq!(Curve::X25519.curve_bitmask(), None);
    assert_eq!(Curve::all().len(), 7);
}
