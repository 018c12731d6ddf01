//! Single-use AEAD cipher: ChaCha20-Poly1305 with a fixed 96-bit zero nonce.
//!
//! The nonce is intentionally fixed: every key is derived from a fresh
//! pairing share, so a (key, nonce) pair is never reused. The keystream and
//! the authentication tag are named by uninterpreted spec functions; the
//! trusted wrappers state how the cipher's two directions relate.

use vstd::prelude::*;

use chacha20poly1305::AeadInOut;
use chacha20poly1305::KeyInit;

verus! {

pub const KEY_SIZE: usize = 32;

pub const TAG_SIZE: usize = 16;

/// The byte limit of one ChaCha20 keystream: encrypting a longer buffer is
/// refused by the cipher.
pub const MAX_MESSAGE_SIZE: u64 = 0x3fffffffc0;

/// `data` combined with the zero-nonce ChaCha20 keystream of `key` (starting
/// at block one). Applying it to a plaintext yields the ciphertext and
/// applying it to that ciphertext yields the plaintext back.
pub uninterp spec fn chacha_stream(key: Seq<u8>, data: Seq<u8>) -> Seq<u8>;

/// The 16-byte Poly1305 tag over the associated data and the ciphertext,
/// under the Poly1305 key derived from `key` with the zero nonce.
pub uninterp spec fn poly_tag(key: Seq<u8>, ct: Seq<u8>, ad: Seq<u8>) -> Seq<u8>;

/// `(ct, tag)` is the AEAD encryption of `pt` under `key` with associated
/// data `ad` and the fixed zero nonce.
pub open spec fn is_aead_encryption(
    key: Seq<u8>,
    pt: Seq<u8>,
    ad: Seq<u8>,
    ct: Seq<u8>,
    tag: Seq<u8>,
) -> bool {
    &&& ct == chacha_stream(key, pt)
    &&& ct.len() == pt.len()
    &&& chacha_stream(key, ct) == pt
    &&& tag == poly_tag(key, ct, ad)
}

/// Encrypt `buf` in place and return the authentication tag.
///
/// Relies on `ChaCha20Poly1305::encrypt_inout_detached` with the zero nonce:
/// the buffer is replaced by its combination with the keystream, an
/// involution, and the tag is the Poly1305 tag over the associated data and
/// the ciphertext.
#[verifier::external_body]
pub fn encrypt(key: &[u8; 32], buf: &mut Vec<u8>, associated_data: &[u8]) -> (tag: [u8; 16])
    requires
        old(buf)@.len() < MAX_MESSAGE_SIZE,
    ensures
        final(buf)@ == chacha_stream(key@, old(buf)@),
        final(buf)@.len() == old(buf)@.len(),
        chacha_stream(key@, final(buf)@) == old(buf)@,
        tag@ == poly_tag(key@, final(buf)@, associated_data@),
        is_aead_encryption(key@, old(buf)@, associated_data@, final(buf)@, tag@),
{
    let cipher = chacha20poly1305::ChaCha20Poly1305::new(key.into());
    let nonce = chacha20poly1305::Nonce::default();
    let tag = cipher
        .encrypt_inout_detached(&nonce, associated_data, buf.as_mut_slice().into())
        .unwrap();
    tag.into()
}

/// Authenticate and decrypt `buf` in place.
///
/// Relies on `ChaCha20Poly1305::decrypt_inout_detached` with the zero nonce:
/// it succeeds exactly when the tag is the Poly1305 tag over the associated
/// data and the buffer, in which case the buffer is replaced by its
/// combination with the keystream; on failure the buffer is untouched.
#[verifier::external_body]
pub fn decrypt(
    key: &[u8; 32],
    buf: &mut Vec<u8>,
    associated_data: &[u8],
    tag: &[u8; 16],
) -> (r: Result<(), ()>)
    requires
        old(buf)@.len() < MAX_MESSAGE_SIZE,
    ensures
        r is Ok <==> tag@ == poly_tag(key@, old(buf)@, associated_data@),
        r is Ok ==> final(buf)@ == chacha_stream(key@, old(buf)@) && final(buf)@.len() == old(
            buf,
        )@.len() && chacha_stream(key@, final(buf)@) == old(buf)@,
        r is Err ==> final(buf)@ == old(buf)@,
{
    let cipher = chacha20poly1305::ChaCha20Poly1305::new(key.into());
    let nonce = chacha20poly1305::Nonce::default();
    let tag = chacha20poly1305::Tag::from(*tag);
    match cipher.decrypt_inout_detached(&nonce, associated_data, buf.as_mut_slice().into(), &tag) {
        Ok(()) => Ok(()),
        Err(_) => Err(()),
    }
}

/// AEAD round trip: a ciphertext and tag produced by `encrypt` from a
/// plaintext are accepted by `decrypt`, which restores that plaintext.
pub proof fn lemma_aead_round_trip(key: Seq<u8>, pt: Seq<u8>, ad: Seq<u8>, ct: Seq<u8>, tag: Seq<u8>)
    requires
        is_aead_encryption(key, pt, ad, ct, tag),
    ensures
        tag == poly_tag(key, ct, ad),
        chacha_stream(key, ct) == pt,
{
}

/// Tag binding: any tag other than the one produced by `encrypt` is rejected
/// by `decrypt` for that ciphertext and associated data.
pub proof fn lemma_aead_tag_binding(
    key: Seq<u8>,
    pt: Seq<u8>,
    ad: Seq<u8>,
    ct: Seq<u8>,
    tag: Seq<u8>,
    other: Seq<u8>,
)
    requires
        is_aead_encryption(key, pt, ad, ct, tag),
        other != tag,
    ensures
        other != poly_tag(key, ct, ad),
{
}

} // verus!
