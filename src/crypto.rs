use vstd::prelude::*;
use crate::cipher_suite::CipherSuite;

verus! {

/// The SHA-256 digest of `data`.
pub uninterp spec fn sha256_of(data: Seq<u8>) -> Seq<u8>;

/// The SHA-384 digest of `data`.
pub uninterp spec fn sha384_of(data: Seq<u8>) -> Seq<u8>;

/// The SHA-512 digest of `data`.
pub uninterp spec fn sha512_of(data: Seq<u8>) -> Seq<u8>;

/// HMAC-SHA-256 of `data` under `key`.
pub uninterp spec fn hmac_sha256_of(key: Seq<u8>, data: Seq<u8>) -> Seq<u8>;

/// HMAC-SHA-384 of `data` under `key`.
pub uninterp spec fn hmac_sha384_of(key: Seq<u8>, data: Seq<u8>) -> Seq<u8>;

/// HMAC-SHA-512 of `data` under `key`.
pub uninterp spec fn hmac_sha512_of(key: Seq<u8>, data: Seq<u8>) -> Seq<u8>;

#[verifier::external_type_specification]
#[verifier::external_body]
pub struct ExInvalidLength(hmac::digest::InvalidLength);

/// Relies on sha2::Sha256's `Digest::digest`: a 32-byte digest of the input.
#[verifier::external_body]
fn sha256(data: &[u8]) -> (r: Vec<u8>)
    ensures
        r@ == sha256_of(data@),
        r@.len() == 32,
{
    <sha2::Sha256 as sha2::Digest>::digest(data).to_vec()
}

/// Relies on sha2::Sha384's `Digest::digest`: a 48-byte digest of the input.
#[verifier::external_body]
fn sha384(data: &[u8]) -> (r: Vec<u8>)
    ensures
        r@ == sha384_of(data@),
        r@.len() == 48,
{
    <sha2::Sha384 as sha2::Digest>::digest(data).to_vec()
}

/// Relies on sha2::Sha512's `Digest::digest`: a 64-byte digest of the input.
#[verifier::external_body]
fn sha512(data: &[u8]) -> (r: Vec<u8>)
    ensures
        r@ == sha512_of(data@),
        r@.len() == 64,
{
    <sha2::Sha512 as sha2::Digest>::digest(data).to_vec()
}

/// Relies on hmac::SimpleHmac over sha2::Sha256: `new_from_slice` accepts a key
/// of any length, and the tag is one 32-byte digest.
#[verifier::external_body]
fn hmac_sha256(key: &[u8], data: &[u8]) -> (r: Result<Vec<u8>, hmac::digest::InvalidLength>)
    ensures
        r is Ok,
        r->Ok_0@ == hmac_sha256_of(key@, data@),
        r->Ok_0@.len() == 32,
{
    let mut m = <hmac::SimpleHmac<sha2::Sha256> as hmac::Mac>::new_from_slice(key)?;
    hmac::Mac::update(&mut m, data);
    Ok(hmac::Mac::finalize(m).into_bytes().to_vec())
}

/// Relies on hmac::SimpleHmac over sha2::Sha384: `new_from_slice` accepts a key
/// of any length, and the tag is one 48-byte digest.
#[verifier::external_body]
fn hmac_sha384(key: &[u8], data: &[u8]) -> (r: Result<Vec<u8>, hmac::digest::InvalidLength>)
    ensures
        r is Ok,
        r->Ok_0@ == hmac_sha384_of(key@, data@),
        r->Ok_0@.len() == 48,
{
    let mut m = <hmac::SimpleHmac<sha2::Sha384> as hmac::Mac>::new_from_slice(key)?;
    hmac::Mac::update(&mut m, data);
    Ok(hmac::Mac::finalize(m).into_bytes().to_vec())
}

/// Relies on hmac::SimpleHmac over sha2::Sha512: `new_from_slice` accepts a key
/// of any length, and the tag is one 64-byte digest.
#[verifier::external_body]
fn hmac_sha512(key: &[u8], data: &[u8]) -> (r: Result<Vec<u8>, hmac::digest::InvalidLength>)
    ensures
        r is Ok,
        r->Ok_0@ == hmac_sha512_of(key@, data@),
        r->Ok_0@.len() == 64,
{
    let mut m = <hmac::SimpleHmac<sha2::Sha512> as hmac::Mac>::new_from_slice(key)?;
    hmac::Mac::update(&mut m, data);
    Ok(hmac::Mac::finalize(m).into_bytes().to_vec())
}

/// Failure of a MAC computation.
#[derive(Debug)]
pub enum HashError {
    InvalidHmacLength,
}

/// The hash function of a cipher suite, with its HMAC.
#[derive(Clone, Copy, Debug, PartialEq, Eq, Structural)]
pub enum Hash {
    Sha256,
    Sha384,
    Sha512,
}

impl Hash {
    pub open spec fn spec_new(cipher_suite: CipherSuite) -> Hash {
        match cipher_suite {
            CipherSuite::Curve25519Aes128
            | CipherSuite::P256Aes128
            | CipherSuite::Curve25519ChaCha20 => Hash::Sha256,
            CipherSuite::P384Aes256 => Hash::Sha384,
            _ => Hash::Sha512,
        }
    }

    /// The length of a digest.
    pub open spec fn spec_size(self) -> nat {
        match self {
            Hash::Sha256 => 32,
            Hash::Sha384 => 48,
            Hash::Sha512 => 64,
        }
    }

    pub open spec fn spec_hash(self, data: Seq<u8>) -> Seq<u8> {
        match self {
            Hash::Sha256 => sha256_of(data),
            Hash::Sha384 => sha384_of(data),
            Hash::Sha512 => sha512_of(data),
        }
    }

    pub open spec fn spec_mac(self, key: Seq<u8>, data: Seq<u8>) -> Seq<u8> {
        match self {
            Hash::Sha256 => hmac_sha256_of(key, data),
            Hash::Sha384 => hmac_sha384_of(key, data),
            Hash::Sha512 => hmac_sha512_of(key, data),
        }
    }

    /// The hash function that `cipher_suite` uses.
    pub fn new(cipher_suite: CipherSuite) -> (r: Hash)
        ensures
            r == Self::spec_new(cipher_suite),
    {
        match cipher_suite {
            CipherSuite::Curve25519Aes128
            | CipherSuite::P256Aes128
            | CipherSuite::Curve25519ChaCha20 => Hash::Sha256,
            CipherSuite::P384Aes256 => Hash::Sha384,
            _ => Hash::Sha512,
        }
    }

    pub fn size(&self) -> (r: usize)
        ensures
            r == self.spec_size(),
    {
        match self {
            Hash::Sha256 => 32,
            Hash::Sha384 => 48,
            Hash::Sha512 => 64,
        }
    }

    /// The digest of `data`.
    pub fn hash(&self, data: &[u8]) -> (r: Vec<u8>)
        ensures
            r@ == self.spec_hash(data@),
            r@.len() == self.spec_size(),
    {
        match self {
            Hash::Sha256 => sha256(data),
            Hash::Sha384 => sha384(data),
            Hash::Sha512 => sha512(data),
        }
    }

    /// The HMAC of `data` under `key`; a key of any length is accepted.
    pub fn mac(&self, key: &[u8], data: &[u8]) -> (r: Result<Vec<u8>, HashError>)
        ensures
            r matches Ok(t) && t@ == self.spec_mac(key@, data@) && t@.len() == self.spec_size(),
    {
        let res = match self {
            Hash::Sha256 => hmac_sha256(key, data),
            Hash::Sha384 => hmac_sha384(key, data),
            Hash::Sha512 => hmac_sha512(key, data),
        };
        match res {
            Ok(t) => Ok(t),
            Err(_) => Err(HashError::InvalidHmacLength),
        }
    }
}

} // verus!
