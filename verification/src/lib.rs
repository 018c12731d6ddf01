//! An identity-based encryption layer that keeps transactions confidential
//! between submission and a scheduled reveal.
//!
//! A sender encrypts a payload against a byte *label* and a long-lived master
//! public key. Once the authority publishes the label's decryption key,
//! anyone may decrypt every ciphertext bearing that label, and may verify the
//! authority's key before using it.

mod bls;
mod encapsulate;
pub mod hash_to_g1;
mod hybrid;
pub mod protocol;
pub mod rlp;
pub mod signed;
pub mod symmetric;
pub mod tx;

pub use encapsulate::DecryptionKey;
pub use encapsulate::EphemeralPublicKey;
pub use encapsulate::MasterPrivateKey;
pub use encapsulate::MasterPublicKey;
pub use encapsulate::SharedSecret;
pub use encapsulate::bytes_eq;
pub use encapsulate::generate;
pub use encapsulate::is_keypair;
pub use encapsulate::is_share;
pub use encapsulate::lemma_reveal_recover;
pub use encapsulate::recover;
pub use encapsulate::reveal_key;
pub use encapsulate::reveal_spec;
pub use encapsulate::share;
pub use encapsulate::verify;
pub use hybrid::Ciphertext;
pub use hybrid::copy_bytes;
pub use hybrid::is_hybrid_encryption;
pub use hybrid::lemma_hybrid_round_trip;
pub use hybrid::lemma_reencrypt_right_inverse;
pub use hybrid::sha256_of;
