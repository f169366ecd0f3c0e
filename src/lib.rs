//! A verified core of an MLS group-key-agreement engine: the ratchet tree and
//! its parent-hash chain, the epoch key schedule, message framing and the group
//! state machine.

pub mod cipher_suite;
pub mod codec;
pub mod crypto;
pub mod encryption;
pub mod framing;
pub mod group;
pub mod kdf;
pub mod key_schedule;
pub mod tree_codec;
pub mod tree_kem;
pub mod tree_laws;
pub mod parent_hash;
pub mod psk;
pub mod tree_ops;
