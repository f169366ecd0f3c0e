use vstd::prelude::*;

verus! {

/// The cipher suites that a group can run under.
#[derive(Clone, Copy, Debug, PartialEq, Eq, Structural)]
pub enum CipherSuite {
    Curve25519Aes128,
    P256Aes128,
    Curve25519ChaCha20,
    Curve448Aes256,
    P521Aes256,
    Curve448ChaCha20,
    P384Aes256,
}

impl CipherSuite {
    /// The code point of the suite on the wire.
    pub open spec fn spec_raw(self) -> u16 {
        match self {
            CipherSuite::Curve25519Aes128 => 1,
            CipherSuite::P256Aes128 => 2,
            CipherSuite::Curve25519ChaCha20 => 3,
            CipherSuite::Curve448Aes256 => 4,
            CipherSuite::P521Aes256 => 5,
            CipherSuite::Curve448ChaCha20 => 6,
            CipherSuite::P384Aes256 => 7,
        }
    }

    pub fn raw(&self) -> (r: u16)
        ensures
            r == self.spec_raw(),
    {
        match self {
            CipherSuite::Curve25519Aes128 => 1,
            CipherSuite::P256Aes128 => 2,
            CipherSuite::Curve25519ChaCha20 => 3,
            CipherSuite::Curve448Aes256 => 4,
            CipherSuite::P521Aes256 => 5,
            CipherSuite::Curve448ChaCha20 => 6,
            CipherSuite::P384Aes256 => 7,
        }
    }

    /// The suite with code point `v`, if there is one.
    pub fn from_raw(v: u16) -> (r: Option<CipherSuite>)
        ensures
            match r {
                Some(cs) => cs.spec_raw() == v,
                None => !(1 <= v <= 7),
            },
    {
        match v {
            1 => Some(CipherSuite::Curve25519Aes128),
            2 => Some(CipherSuite::P256Aes128),
            3 => Some(CipherSuite::Curve25519ChaCha20),
            4 => Some(CipherSuite::Curve448Aes256),
            5 => Some(CipherSuite::P521Aes256),
            6 => Some(CipherSuite::Curve448ChaCha20),
            7 => Some(CipherSuite::P384Aes256),
            _ => None,
        }
    }

    /// Every suite, in order of code point.
    pub fn all() -> (r: Vec<CipherSuite>)
        ensures
            r@.len() == 7,
            forall|i: int| 0 <= i < 7 ==> (#[trigger] r@[i]).spec_raw() == i + 1,
    {
        vec![
            CipherSuite::Curve25519Aes128,
            CipherSuite::P256Aes128,
            CipherSuite::Curve25519ChaCha20,
            CipherSuite::Curve448Aes256,
            CipherSuite::P521Aes256,
            CipherSuite::Curve448ChaCha20,
            CipherSuite::P384Aes256,
        ]
    }
}

/// Elliptic curve types.
#[derive(Clone, Copy, Debug, PartialEq, Eq, Structural)]
pub enum Curve {
    /// NIST Curve-P256
    P256,
    /// NIST Curve-P384
    P384,
    /// NIST Curve-P521
    P521,
    /// Elliptic-curve Diffie-Hellman key exchange Curve25519
    X25519,
    /// Edwards-curve Digital Signature Algorithm Curve25519
    Ed25519,
    /// Elliptic-curve Diffie-Hellman key exchange Curve448
    X448,
    /// Edwards-curve Digital Signature Algorithm Curve448
    Ed448,
}

impl Curve {
    pub open spec fn spec_secret_key_size(self) -> usize {
        match self {
            Curve::P256 => 32,
            Curve::P384 => 48,
            Curve::P521 => 66,
            Curve::X25519 => 32,
            Curve::Ed25519 => 32,
            Curve::X448 => 56,
            Curve::Ed448 => 57,
        }
    }

    /// The number of bytes of a secret key on this curve.
    pub fn secret_key_size(&self) -> (r: usize)
        ensures
            r == self.spec_secret_key_size(),
    {
        match self {
            Curve::P256 => 32,
            Curve::P384 => 48,
            Curve::P521 => 66,
            Curve::X25519 => 32,
            Curve::Ed25519 => 32,
            Curve::X448 => 56,
            Curve::Ed448 => 57,
        }
    }

    pub open spec fn spec_from_ciphersuite(cipher_suite: CipherSuite, for_sig: bool) -> Curve {
        match cipher_suite {
            CipherSuite::P256Aes128 => Curve::P256,
            CipherSuite::P384Aes256 => Curve::P384,
            CipherSuite::P521Aes256 => Curve::P521,
            CipherSuite::Curve25519Aes128 | CipherSuite::Curve25519ChaCha20 => if for_sig {
                Curve::Ed25519
            } else {
                Curve::X25519
            },
            CipherSuite::Curve448Aes256 | CipherSuite::Curve448ChaCha20 => if for_sig {
                Curve::Ed448
            } else {
                Curve::X448
            },
        }
    }

    /// The curve that a suite uses, for signatures or for key exchange.
    pub fn from_ciphersuite(cipher_suite: CipherSuite, for_sig: bool) -> (r: Curve)
        ensures
            r == Self::spec_from_ciphersuite(cipher_suite, for_sig),
    {
        match cipher_suite {
            CipherSuite::P256Aes128 => Curve::P256,
            CipherSuite::P384Aes256 => Curve::P384,
            CipherSuite::P521Aes256 => Curve::P521,
            CipherSuite::Curve25519Aes128 | CipherSuite::Curve25519ChaCha20 => if for_sig {
                Curve::Ed25519
            } else {
                Curve::X25519
            },
            CipherSuite::Curve448Aes256 | CipherSuite::Curve448ChaCha20 => if for_sig {
                Curve::Ed448
            } else {
                Curve::X448
            },
        }
    }

    /// The mask applied to the first byte of a NIST secret key.
    pub fn curve_bitmask(&self) -> (r: Option<u8>)
        ensures
            r == match self {
                Curve::P256 | Curve::P384 => Some(0xFFu8),
                Curve::P521 => Some(0x01u8),
                _ => None::<u8>,
            },
    {
        match self {
            Curve::P256 => Some(0xFF),
            Curve::P384 => Some(0xFF),
            Curve::P521 => Some(0x01),
            Curve::X25519 => None,
            Curve::Ed25519 => None,
            Curve::X448 => None,
            Curve::Ed448 => None,
        }
    }

    /// Every curve.
    pub fn all() -> (r: Vec<Curve>)
        ensures
            r@ == seq![
                Curve::P256,
                Curve::P384,
                Curve::P521,
                Curve::X25519,
                Curve::Ed25519,
                Curve::X448,
                Curve::Ed448,
            ],
    {
        let r = vec![
            Curve::P256,
            Curve::P384,
            Curve::P521,
            Curve::X25519,
            Curve::Ed25519,
            Curve::X448,
            Curve::Ed448,
        ];
        assert(r@ =~= seq![
            Curve::P256,
            Curve::P384,
            Curve::P521,
            Curve::X25519,
            Curve::Ed25519,
            Curve::X448,
            Curve::Ed448,
        ]);
        r
    }
}

} // verus!
