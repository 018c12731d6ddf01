//! The authority's request/response protocol: a stateless boundary that
//! exposes only key generation and per-label reveal. The authority never
//! emits the raw master private key; it hands out only the master public
//! key, sealed blobs, and per-label decryption keys.
//!
//! The sealing facility itself lives outside this crate; callers seal the
//! bytes of `authority_generate` and unseal the blob handed to
//! `authority_reveal`.

use vstd::prelude::*;

use crate::DecryptionKey;
use crate::MasterPrivateKey;
use crate::MasterPublicKey;
use crate::bls::scalar_ok;
use crate::encapsulate::is_keypair;
use crate::encapsulate::reveal_spec;
use crate::generate;
use crate::reveal_key;

verus! {

/// A label: an arbitrary byte string naming one decryption right.
pub type Label = Vec<u8>;

/// The sealed form of a master private key. Its interior is defined by the
/// sealing facility and is opaque here.
#[derive(Debug)]
pub struct SealedMasterPrivateKey(pub Vec<u8>);

/// A request to the authority.
#[derive(Debug)]
pub enum Request {
    /// Create a fresh master key pair.
    Generate(),
    /// Reveal the decryption key of a label, given the sealed master
    /// private key.
    Reveal(Label, SealedMasterPrivateKey),
}

/// The authority's answer.
#[derive(Debug)]
pub enum Response {
    /// The fresh master public key and the sealed master private key.
    Generate(MasterPublicKey, SealedMasterPrivateKey),
    /// The decryption key of the requested label.
    Reveal(DecryptionKey),
}

/// The authority's generate step: a fresh master key pair, with the private
/// key in the byte form handed to the sealing facility.
pub fn authority_generate() -> (r: (MasterPublicKey, [u8; 32]))
    ensures
        is_keypair(r.0@, r.1@),
{
    let (mpk, msk) = generate();
    let bytes = msk.to_bytes();
    (mpk, bytes)
}

/// The authority's reveal step: rebuild the master private key from its
/// unsealed bytes and reveal the label's decryption key. Returns `None`
/// exactly when the bytes are not a canonical scalar encoding.
pub fn authority_reveal(label: &[u8], msk_bytes: [u8; 32]) -> (r: Option<DecryptionKey>)
    ensures
        scalar_ok(msk_bytes@) ==> (r matches Some(dk) && dk@ == reveal_spec(label@, msk_bytes@)),
        !scalar_ok(msk_bytes@) ==> r is None,
{
    match MasterPrivateKey::from_bytes(msk_bytes) {
        Some(msk) => Some(reveal_key(label, &msk)),
        None => None,
    }
}

} // verus!
