//! The hybrid ciphertext: label-keyed encapsulation combined with the
//! single-use AEAD cipher, glued by a SHA-256 key derivation, with a stable
//! wire form.

use vstd::prelude::*;

use crate::DecryptionKey;
use crate::EphemeralPublicKey;
use crate::MasterPublicKey;
use crate::SharedSecret;
use crate::bls::gt_pair;
use crate::encapsulate::bytes_eq;
use crate::encapsulate::is_keypair;
use crate::encapsulate::is_share;
use crate::encapsulate::lemma_reveal_recover;
use crate::encapsulate::recover;
use crate::encapsulate::reveal_spec;
use crate::encapsulate::share;
use crate::symmetric;
use crate::symmetric::MAX_MESSAGE_SIZE;
use crate::symmetric::chacha_stream;
use crate::symmetric::is_aead_encryption;
use crate::symmetric::poly_tag;
use sha2::Digest;

verus! {

/// The 32-byte SHA-256 digest of `data`, as computed by `sha2::Sha256`.
pub uninterp spec fn sha256_of(data: Seq<u8>) -> Seq<u8>;

/// Relies on `sha2::Sha256`: a 32-byte digest, a function of the input alone.
#[verifier::external_body]
fn sha256(data: &[u8]) -> (r: [u8; 32])
    ensures
        r@ == sha256_of(data@),
{
    let mut hasher = sha2::Sha256::new();
    hasher.update(data);
    let k: [u8; 32] = hasher.finalize().into();
    k
}

/// The symmetric key sealing a shared secret: the SHA-256 digest of its
/// 576-byte serialization.
fn derive_key(s: &SharedSecret) -> (r: [u8; 32])
    ensures
        r@ == sha256_of(s@),
{
    let bytes = s.to_bytes();
    sha256(bytes.as_slice())
}

/// A fresh copy of a byte slice.
pub fn copy_bytes(src: &[u8]) -> (r: Vec<u8>)
    ensures
        r@ == src@,
{
    let n: usize = src.len();
    let mut v: Vec<u8> = Vec::new();
    let mut i: usize = 0;
    while i < n
        invariant
            i <= n,
            n == src@.len(),
            v@ == src@.take(i as int),
        decreases n - i,
    {
        v.push(src[i]);
        proof {
            assert(src@.take(i + 1) =~= src@.take(i as int).push(src@[i as int]));
        }
        i = i + 1;
    }
    proof {
        assert(src@.take(n as int) =~= src@);
    }
    v
}

/// `(u, body, tag)` is a hybrid encryption of `pt` for `label` against `mpk`
/// with associated data `ad`: the AEAD encryption of `pt` under the key
/// derived from the shared secret of an honest share `(u, s)`.
pub open spec fn is_hybrid_encryption(
    mpk: Seq<u8>,
    label: Seq<u8>,
    pt: Seq<u8>,
    ad: Seq<u8>,
    u: Seq<u8>,
    body: Seq<u8>,
    tag: Seq<u8>,
) -> bool {
    exists|s: Seq<u8>|
        #[trigger] is_share(label, mpk, u, s) && is_aead_encryption(sha256_of(s), pt, ad, body, tag)
}

/// A hybrid ciphertext: the ephemeral public key of its share, the
/// AEAD-encrypted body (of the same length as the plaintext), and the
/// 16-byte authentication tag.
#[derive(Debug)]
pub struct Ciphertext {
    pub u: EphemeralPublicKey,
    pub payload: Vec<u8>,
    pub tag: [u8; 16],
}

impl Ciphertext {
    /// Encrypt `payload` for `label` against the master public key: run a
    /// fresh share, derive the symmetric key from its shared secret, and
    /// AEAD-encrypt a copy of the payload with `associated_data`.
    pub fn encrypt(
        mpk: &MasterPublicKey,
        label: &[u8],
        payload: &[u8],
        associated_data: &[u8],
    ) -> (r: Ciphertext)
        requires
            payload@.len() < MAX_MESSAGE_SIZE,
        ensures
            is_hybrid_encryption(
                mpk@,
                label@,
                payload@,
                associated_data@,
                r.u@,
                r.payload@,
                r.tag@,
            ),
            r.payload@.len() == payload@.len(),
    {
        let mut buf = copy_bytes(payload);
        let (u, s) = share(label, mpk);
        let k = derive_key(&s);
        let tag = symmetric::encrypt(&k, &mut buf, associated_data);
        proof {
            assert(is_share(label@, mpk@, u@, s@) && is_aead_encryption(
                sha256_of(s@),
                payload@,
                associated_data@,
                buf@,
                tag@,
            ));
        }
        Ciphertext { u, payload: buf, tag }
    }

    /// Decrypt with the label's decryption key: recover the shared secret
    /// from the ephemeral public key, derive the symmetric key, and
    /// AEAD-decrypt. Returns `None` exactly when the tag does not
    /// authenticate the body under that key and `associated_data`.
    pub fn decrypt(&self, dk: &DecryptionKey, associated_data: &[u8]) -> (r: Option<Vec<u8>>)
        requires
            self.payload@.len() < MAX_MESSAGE_SIZE,
        ensures
            r is Some <==> self.tag@ == poly_tag(
                sha256_of(gt_pair(dk@, self.u@)),
                self.payload@,
                associated_data@,
            ),
            r matches Some(p) ==> p@ == chacha_stream(
                sha256_of(gt_pair(dk@, self.u@)),
                self.payload@,
            ) && p@.len() == self.payload@.len() && chacha_stream(
                sha256_of(gt_pair(dk@, self.u@)),
                p@,
            ) == self.payload@,
    {
        let mut buf = copy_bytes(self.payload.as_slice());
        let s = recover(&self.u, dk);
        let k = derive_key(&s);
        match symmetric::decrypt(&k, &mut buf, associated_data, &self.tag) {
            Ok(()) => Some(buf),
            Err(()) => None,
        }
    }

    /// Rebuild a ciphertext from an externally supplied share: derive the
    /// shared secret from `(u, dk)` as `recover` does, and encrypt
    /// deterministically. For an honest original ciphertext this reproduces
    /// it byte for byte.
    pub fn reencrypt(
        u: &EphemeralPublicKey,
        dk: &DecryptionKey,
        payload: &[u8],
        associated_data: &[u8],
    ) -> (r: Ciphertext)
        requires
            payload@.len() < MAX_MESSAGE_SIZE,
        ensures
            r.u@ == u@,
            r.payload@ == chacha_stream(sha256_of(gt_pair(dk@, u@)), payload@),
            r.payload@.len() == payload@.len(),
            r.tag@ == poly_tag(sha256_of(gt_pair(dk@, u@)), r.payload@, associated_data@),
    {
        let mut buf = copy_bytes(payload);
        let s = recover(u, dk);
        let k = derive_key(&s);
        let tag = symmetric::encrypt(&k, &mut buf, associated_data);
        Ciphertext { u: *u, payload: buf, tag }
    }
}

impl Clone for Ciphertext {
    /// An equal copy.
    fn clone(&self) -> (r: Self)
        ensures
            r.u@ == self.u@,
            r.payload@ == self.payload@,
            r.tag@ == self.tag@,
    {
        Ciphertext { u: self.u, payload: copy_bytes(self.payload.as_slice()), tag: self.tag }
    }
}

impl PartialEq for Ciphertext {
    fn eq(&self, other: &Self) -> (r: bool) {
        self.u == other.u && bytes_eq(self.payload.as_slice(), other.payload.as_slice())
            && bytes_eq(self.tag.as_slice(), other.tag.as_slice())
    }
}

impl Eq for Ciphertext {

}

impl vstd::std_specs::cmp::PartialEqSpecImpl for Ciphertext {
    open spec fn obeys_eq_spec() -> bool {
        true
    }

    open spec fn eq_spec(&self, other: &Self) -> bool {
        self.u@ == other.u@ && self.payload@ == other.payload@ && self.tag@ == other.tag@
    }
}

/// Hybrid round trip: a hybrid encryption for `label` against an honest
/// master public key is accepted by `decrypt` under the revealed decryption
/// key for `label`, and decrypts back to the plaintext.
pub proof fn lemma_hybrid_round_trip(
    mpk: Seq<u8>,
    msk: Seq<u8>,
    label: Seq<u8>,
    pt: Seq<u8>,
    ad: Seq<u8>,
    u: Seq<u8>,
    body: Seq<u8>,
    tag: Seq<u8>,
)
    requires
        is_keypair(mpk, msk),
        is_hybrid_encryption(mpk, label, pt, ad, u, body, tag),
    ensures
        tag == poly_tag(sha256_of(gt_pair(reveal_spec(label, msk), u)), body, ad),
        chacha_stream(sha256_of(gt_pair(reveal_spec(label, msk), u)), body) == pt,
{
    let s = choose|s: Seq<u8>|
        #[trigger] is_share(label, mpk, u, s) && is_aead_encryption(sha256_of(s), pt, ad, body, tag);
    lemma_reveal_recover(label, mpk, msk, u, s);
}

/// Reencrypt is a right inverse of decryption: rebuilding a ciphertext from
/// its own share `(u, dk)`, its plaintext and its associated data, as
/// `reencrypt` does, reproduces the original body and tag byte for byte.
pub proof fn lemma_reencrypt_right_inverse(
    mpk: Seq<u8>,
    msk: Seq<u8>,
    label: Seq<u8>,
    pt: Seq<u8>,
    ad: Seq<u8>,
    u: Seq<u8>,
    body: Seq<u8>,
    tag: Seq<u8>,
)
    requires
        is_keypair(mpk, msk),
        is_hybrid_encryption(mpk, label, pt, ad, u, body, tag),
    ensures
        chacha_stream(sha256_of(gt_pair(reveal_spec(label, msk), u)), pt) == body,
        poly_tag(sha256_of(gt_pair(reveal_spec(label, msk), u)), body, ad) == tag,
{
    let s = choose|s: Seq<u8>|
        #[trigger] is_share(label, mpk, u, s) && is_aead_encryption(sha256_of(s), pt, ad, body, tag);
    lemma_reveal_recover(label, mpk, msk, u, s);
}

} // verus!
