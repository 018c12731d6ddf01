//! Signed envelopes around the two transaction shapes: the signing encoding
//! and hash, signer recovery, and the signed decrypt/re-encrypt pair.
//!
//! Signatures are computed over the type byte followed by the encoded body,
//! with no outer header before the type byte. The signature over the
//! encrypted body stays attached through decryption; it is not re-validated
//! against the plaintext.

use vstd::prelude::*;

use crate::DecryptionKey;
use crate::rlp::encode_bool;
use crate::rlp::encode_fields;
use crate::rlp::encode_header;
use crate::rlp::encode_uint_be;
use crate::rlp::fields_len;
use crate::rlp::rlp_bool_spec;
use crate::rlp::rlp_header_spec;
use crate::rlp::rlp_str_spec;
use crate::rlp::trim_zeros;
use crate::rlp::tx_fields_rlp;
use crate::symmetric::MAX_MESSAGE_SIZE;
use crate::tx::Error;
use crate::tx::TxDawnDecrypted;
use crate::tx::TxDawnEncrypted;
use crate::tx::TxKind;
use crate::rlp::rlp_u64_spec;
use crate::rlp::rlp_u128_spec;
use crate::rlp::rlp_u256_spec;
use crate::rlp::rlp_access_list_spec;
use crate::tx::access_list_view;
use crate::tx::decrypt_unsigned;
use crate::tx::label_spec;
use crate::tx::reencrypt_unsigned;
use crate::tx::to_addr;
use crate::tx::tx_authentic;
use crate::tx::tx_key;
use crate::tx::tx_plaintext;
use crate::bls::gt_pair;
use crate::bytes_eq;
use crate::sha256_of;
use crate::symmetric::chacha_stream;
use crate::symmetric::poly_tag;

verus! {

/// The transaction type byte of the encrypted kind.
pub const DAWN_ENCRYPTED_TX_TYPE: u8 = 0x64;

/// An ECDSA signature over the secp256k1 curve: the `r` and `s` scalars in
/// big-endian form and the recovery parity of `y`.
#[derive(Clone, Copy, Debug)]
pub struct Signature {
    pub y_parity: bool,
    pub r: [u8; 32],
    pub s: [u8; 32],
}

/// A transaction body together with its signature and its hash.
#[derive(Clone, Debug)]
pub struct Signed<T> {
    pub tx: T,
    pub signature: Signature,
    pub hash: [u8; 32],
}

/// The 32-byte Keccak-256 digest of `data`, as computed by
/// `alloy_primitives::keccak256`.
pub uninterp spec fn keccak_of(data: Seq<u8>) -> Seq<u8>;

/// Relies on `alloy_primitives::keccak256`: a 32-byte digest, a function of
/// the input alone.
#[verifier::external_body]
fn keccak256(data: &[u8]) -> (r: [u8; 32])
    ensures
        r@ == keccak_of(data@),
{
    alloy_primitives::keccak256(data).0
}

/// The address recovered by `Signature::recover_address_from_prehash` from a
/// 32-byte digest and a signature, or nothing if recovery fails. A function
/// of its arguments alone.
pub uninterp spec fn ecrecover(
    digest: Seq<u8>,
    y_parity: bool,
    r: Seq<u8>,
    s: Seq<u8>,
) -> Option<Seq<u8>>;

/// Relies on `alloy_primitives::Signature::recover_address_from_prehash`
/// with the k256 backend: deterministic in the digest and the signature;
/// succeeds exactly when ECDSA public key recovery succeeds, and then yields
/// the signer's 20-byte address.
#[verifier::external_body]
fn recover_address(digest: &[u8; 32], sig: &Signature) -> (r: Option<[u8; 20]>)
    ensures
        r is Some <==> ecrecover(digest@, sig.y_parity, sig.r@, sig.s@) is Some,
        r matches Some(a) ==> ecrecover(digest@, sig.y_parity, sig.r@, sig.s@) == Some(a@),
{
    let parsed = alloy_primitives::Signature::from_scalars_and_parity(
        alloy_primitives::B256::from(sig.r),
        alloy_primitives::B256::from(sig.s),
        sig.y_parity,
    );
    match parsed.recover_address_from_prehash(&alloy_primitives::B256::from(*digest)) {
        Ok(a) => Some(a.into_array()),
        Err(_) => None,
    }
}

impl TxDawnEncrypted {
    /// The type byte of the encrypted transaction kind.
    pub fn tx_type(&self) -> (r: u8)
        ensures
            r == DAWN_ENCRYPTED_TX_TYPE,
    {
        DAWN_ENCRYPTED_TX_TYPE
    }
}

/// The encoding of a signature: the parity as a boolean, then the trimmed
/// `r` and `s` scalars.
pub open spec fn signature_rlp(sig: Signature) -> Seq<u8> {
    rlp_bool_spec(sig.y_parity) + rlp_str_spec(trim_zeros(sig.r@)) + rlp_str_spec(
        trim_zeros(sig.s@),
    )
}

/// Append the encoding of a signature.
pub fn encode_signature(out: &mut Vec<u8>, sig: &Signature)
    ensures
        final(out)@ == old(out)@ + signature_rlp(*sig),
{
    encode_bool(out, sig.y_parity);
    encode_uint_be(out, sig.r.as_slice());
    encode_uint_be(out, sig.s.as_slice());
    proof {
        assert(final(out)@ =~= old(out)@ + signature_rlp(*sig));
    }
}

/// The signing encoding of an encrypted transaction: the type byte, a list
/// header, and the fields.
pub open spec fn tx_signing_rlp(tx: TxDawnEncrypted) -> Seq<u8> {
    seq![DAWN_ENCRYPTED_TX_TYPE] + rlp_header_spec(true, tx_fields_rlp(tx).len()) + tx_fields_rlp(
        tx,
    )
}

/// The signed envelope encoding of an encrypted transaction: the type byte,
/// a list header, the fields and the signature. Its digest is the
/// transaction hash.
pub open spec fn tx_envelope_rlp(tx: TxDawnEncrypted, sig: Signature) -> Seq<u8> {
    let payload = tx_fields_rlp(tx) + signature_rlp(sig);
    seq![DAWN_ENCRYPTED_TX_TYPE] + rlp_header_spec(true, payload.len()) + payload
}

/// Append the signing encoding: the type byte, a list header, the fields.
pub fn encode_for_signing(tx: &TxDawnEncrypted, out: &mut Vec<u8>)
    ensures
        final(out)@ == old(out)@ + tx_signing_rlp(*tx),
{
    out.push(DAWN_ENCRYPTED_TX_TYPE);
    let n = fields_len(tx);
    encode_header(out, true, n);
    encode_fields(tx, out);
    proof {
        assert(final(out)@ =~= old(out)@ + tx_signing_rlp(*tx));
    }
}

/// The byte length of the signing encoding.
pub fn payload_len_for_signature(tx: &TxDawnEncrypted) -> (r: usize)
    ensures
        r == tx_signing_rlp(*tx).len(),
{
    let mut buf: Vec<u8> = Vec::new();
    encode_for_signing(tx, &mut buf);
    buf.len()
}

/// The signature hash of an encrypted transaction: the Keccak-256 digest of
/// its signing encoding.
pub fn signature_hash(tx: &TxDawnEncrypted) -> (r: [u8; 32])
    ensures
        r@ == keccak_of(tx_signing_rlp(*tx)),
{
    let mut buf: Vec<u8> = Vec::new();
    encode_for_signing(tx, &mut buf);
    keccak256(buf.as_slice())
}

/// Append the signed envelope encoding, optionally wrapped in one more
/// string header.
pub fn encode_with_signature(
    tx: &TxDawnEncrypted,
    signature: &Signature,
    out: &mut Vec<u8>,
    with_header: bool,
)
    ensures
        !with_header ==> final(out)@ == old(out)@ + tx_envelope_rlp(*tx, *signature),
        with_header ==> final(out)@ == old(out)@ + rlp_header_spec(
            false,
            tx_envelope_rlp(*tx, *signature).len(),
        ) + tx_envelope_rlp(*tx, *signature),
{
    let mut body: Vec<u8> = Vec::new();
    body.push(DAWN_ENCRYPTED_TX_TYPE);
    let mut payload: Vec<u8> = Vec::new();
    encode_fields(tx, &mut payload);
    encode_signature(&mut payload, signature);
    encode_header(&mut body, true, payload.len());
    body.extend_from_slice(payload.as_slice());
    proof {
        assert(body@ =~= tx_envelope_rlp(*tx, *signature));
    }
    if with_header {
        encode_header(out, false, body.len());
    }
    out.extend_from_slice(body.as_slice());
    proof {
        assert(final(out)@ =~= if with_header {
            old(out)@ + rlp_header_spec(false, tx_envelope_rlp(*tx, *signature).len())
                + tx_envelope_rlp(*tx, *signature)
        } else {
            old(out)@ + tx_envelope_rlp(*tx, *signature)
        });
    }
}

/// The byte length of the signed envelope encoding, without the outer
/// header.
pub fn payload_len_with_signature_without_header(
    tx: &TxDawnEncrypted,
    signature: &Signature,
) -> (r: usize)
    ensures
        r == tx_envelope_rlp(*tx, *signature).len(),
{
    let mut buf: Vec<u8> = Vec::new();
    encode_with_signature(tx, signature, &mut buf, false);
    buf.len()
}

/// The byte length of the signed envelope encoding, with the outer header.
pub fn payload_len_with_signature(tx: &TxDawnEncrypted, signature: &Signature) -> (r: usize)
    ensures
        r == rlp_header_spec(false, tx_envelope_rlp(*tx, *signature).len()).len()
            + tx_envelope_rlp(*tx, *signature).len(),
{
    let mut buf: Vec<u8> = Vec::new();
    encode_with_signature(tx, signature, &mut buf, true);
    buf.len()
}

/// The transaction hash of a signed encrypted transaction: the Keccak-256
/// digest of its signed envelope encoding.
pub fn tx_hash(tx: &TxDawnEncrypted, signature: &Signature) -> (r: [u8; 32])
    ensures
        r@ == keccak_of(tx_envelope_rlp(*tx, *signature)),
{
    let mut buf: Vec<u8> = Vec::new();
    encode_with_signature(tx, signature, &mut buf, false);
    keccak256(buf.as_slice())
}

/// Decrypt a signed encrypted transaction: recover the sender from the
/// signature over the signing encoding, decrypt the body for that sender,
/// and rewrap the decrypted shape with the original signature and hash.
pub fn decrypt(
    signed: &Signed<TxDawnEncrypted>,
    decryption_key: &DecryptionKey,
) -> (r: Result<Signed<TxDawnDecrypted>, Error>)
    requires
        signed.tx.ciphertext.payload@.len() < MAX_MESSAGE_SIZE,
    ensures
        ({
            let rec = ecrecover(
                keccak_of(tx_signing_rlp(signed.tx)),
                signed.signature.y_parity,
                signed.signature.r@,
                signed.signature.s@,
            );
            &&& (rec is None <==> r == Err::<Signed<TxDawnDecrypted>, Error>(
                Error::SignatureError,
            ))
            &&& rec matches Some(sender) ==> {
                &&& (r is Ok <==> tx_authentic(signed.tx, decryption_key@, sender)
                    && tx_plaintext(signed.tx, decryption_key@).len() >= 20)
                &&& (!tx_authentic(signed.tx, decryption_key@, sender) <==> r == Err::<
                    Signed<TxDawnDecrypted>,
                    Error,
                >(Error::AuthenticationError))
                &&& (tx_authentic(signed.tx, decryption_key@, sender) && tx_plaintext(
                    signed.tx,
                    decryption_key@,
                ).len() < 20 <==> r == Err::<Signed<TxDawnDecrypted>, Error>(
                    Error::ShortPayloadError,
                ))
                &&& r matches Ok(sd) ==> {
                    let pt = tx_plaintext(signed.tx, decryption_key@);
                    &&& sd.signature == signed.signature
                    &&& sd.hash@ == signed.hash@
                    &&& sd.tx.chain_id == signed.tx.chain_id
                    &&& sd.tx.nonce == signed.tx.nonce
                    &&& sd.tx.gas_limit == signed.tx.gas_limit
                    &&& sd.tx.max_fee_per_gas == signed.tx.max_fee_per_gas
                    &&& sd.tx.max_priority_fee_per_gas == signed.tx.max_priority_fee_per_gas
                    &&& sd.tx.value == signed.tx.value
                    &&& crate::tx::access_list_view(sd.tx.access_list)
                        == crate::tx::access_list_view(signed.tx.access_list)
                    &&& sd.tx.to matches TxKind::Call(a) && a@ == pt.take(20)
                    &&& sd.tx.input@ == pt.skip(20)
                    &&& sd.tx.ephemeral_public_key@ == signed.tx.ciphertext.u@
                    &&& sd.tx.decryption_key@ == decryption_key@
                    &&& sd.tx.sender@ == sender
                    &&& pt.len() == signed.tx.ciphertext.payload@.len()
                    &&& chacha_stream(tx_key(signed.tx, decryption_key@), pt)
                        == signed.tx.ciphertext.payload@
                }
            }
        }),
{
    let digest = signature_hash(&signed.tx);
    let sender = match recover_address(&digest, &signed.signature) {
        Some(a) => a,
        None => {
            return Err(Error::SignatureError);
        },
    };
    match decrypt_unsigned(&signed.tx, decryption_key, &sender) {
        Ok(tx) => Ok(
            Signed { tx, signature: signed.signature, hash: signed.hash },
        ),
        Err(e) => Err(e),
    }
}

/// The body a decrypted transaction re-encrypts to: the symmetric key
/// derived from its retained share.
pub open spec fn reenc_key(d: TxDawnDecrypted) -> Seq<u8> {
    sha256_of(gt_pair(d.decryption_key@, d.ephemeral_public_key@))
}

/// The ciphertext body a decrypted transaction re-encrypts to.
pub open spec fn reenc_payload(d: TxDawnDecrypted) -> Seq<u8> {
    chacha_stream(reenc_key(d), to_addr(d.to) + d.input@)
}

/// The authentication tag a decrypted transaction re-encrypts to.
pub open spec fn reenc_tag(d: TxDawnDecrypted) -> Seq<u8> {
    poly_tag(reenc_key(d), reenc_payload(d), label_spec(d.chain_id, d.sender@, d.nonce))
}

/// The encoded fields of the encrypted shape a decrypted transaction
/// re-encrypts to.
pub open spec fn reenc_fields_rlp(d: TxDawnDecrypted) -> Seq<u8> {
    rlp_u64_spec(d.chain_id) + rlp_u64_spec(d.nonce) + rlp_u128_spec(d.max_priority_fee_per_gas)
        + rlp_u128_spec(d.max_fee_per_gas) + rlp_u64_spec(d.gas_limit) + rlp_u256_spec(d.value)
        + rlp_access_list_spec(access_list_view(d.access_list)) + rlp_str_spec(
        d.ephemeral_public_key@,
    ) + rlp_str_spec(reenc_payload(d)) + rlp_str_spec(reenc_tag(d))
}

/// The signing encoding of the encrypted shape a decrypted transaction
/// re-encrypts to.
pub open spec fn reenc_signing_rlp(d: TxDawnDecrypted) -> Seq<u8> {
    seq![DAWN_ENCRYPTED_TX_TYPE] + rlp_header_spec(true, reenc_fields_rlp(d).len())
        + reenc_fields_rlp(d)
}

/// Re-encrypt a signed decrypted transaction: rebuild the encrypted body
/// deterministically, wrap it with the original signature and its fresh
/// envelope hash, then recover the signer of the rebuilt body and reject
/// with `InvalidSender` if it does not match the stored sender.
pub fn reencrypt(signed: &Signed<TxDawnDecrypted>) -> (r: Result<Signed<TxDawnEncrypted>, Error>)
    requires
        signed.tx.to matches TxKind::Call(_),
        20 + signed.tx.input@.len() < MAX_MESSAGE_SIZE,
    ensures
        ({
            let rec = ecrecover(
                keccak_of(reenc_signing_rlp(signed.tx)),
                signed.signature.y_parity,
                signed.signature.r@,
                signed.signature.s@,
            );
            &&& (rec is None <==> r == Err::<Signed<TxDawnEncrypted>, Error>(
                Error::SignatureError,
            ))
            &&& ((rec matches Some(a) && a != signed.tx.sender@) <==> r == Err::<
                Signed<TxDawnEncrypted>,
                Error,
            >(Error::InvalidSender))
            &&& (rec == Some(signed.tx.sender@) <==> r is Ok)
            &&& r matches Ok(se) ==> {
                &&& se.signature == signed.signature
                &&& se.hash@ == keccak_of(tx_envelope_rlp(se.tx, signed.signature))
                &&& tx_signing_rlp(se.tx) == reenc_signing_rlp(signed.tx)
                &&& se.tx.chain_id == signed.tx.chain_id
                &&& se.tx.nonce == signed.tx.nonce
                &&& se.tx.gas_limit == signed.tx.gas_limit
                &&& se.tx.max_fee_per_gas == signed.tx.max_fee_per_gas
                &&& se.tx.max_priority_fee_per_gas == signed.tx.max_priority_fee_per_gas
                &&& se.tx.value == signed.tx.value
                &&& access_list_view(se.tx.access_list) == access_list_view(signed.tx.access_list)
                &&& se.tx.ciphertext.u@ == signed.tx.ephemeral_public_key@
                &&& se.tx.ciphertext.payload@ == reenc_payload(signed.tx)
                &&& se.tx.ciphertext.tag@ == reenc_tag(signed.tx)
            }
        }),
{
    let etx = reencrypt_unsigned(&signed.tx);
    proof {
        assert(tx_fields_rlp(etx) == reenc_fields_rlp(signed.tx));
    }
    let hash = tx_hash(&etx, &signed.signature);
    let digest = signature_hash(&etx);
    match recover_address(&digest, &signed.signature) {
        None => Err(Error::SignatureError),
        Some(a) => {
            if !bytes_eq(a.as_slice(), signed.tx.sender.as_slice()) {
                return Err(Error::InvalidSender);
            }
            Ok(Signed { tx: etx, signature: signed.signature, hash })
        },
    }
}


/// Decrypt followed by re-encrypt at the signed level: a decrypted
/// transaction carrying exactly what `decrypt` promises of it meets
/// `reencrypt`'s preconditions, and re-encrypting it rebuilds the original
/// body bytes, encoded fields and signing encoding — so `reencrypt` returns
/// the original encrypted transaction whenever the signature recovers the
/// stored sender.
pub proof fn lemma_signed_reencrypt_round_trip(tx: TxDawnEncrypted, d: TxDawnDecrypted, dk: Seq<u8>)
    requires
        tx.ciphertext.payload@.len() < MAX_MESSAGE_SIZE,
        tx_authentic(tx, dk, d.sender@),
        tx_plaintext(tx, dk).len() >= 20,
        tx_plaintext(tx, dk).len() == tx.ciphertext.payload@.len(),
        chacha_stream(tx_key(tx, dk), tx_plaintext(tx, dk)) == tx.ciphertext.payload@,
        d.to matches TxKind::Call(a) && a@ == tx_plaintext(tx, dk).take(20),
        d.input@ == tx_plaintext(tx, dk).skip(20),
        d.ephemeral_public_key@ == tx.ciphertext.u@,
        d.decryption_key@ == dk,
        d.chain_id == tx.chain_id,
        d.nonce == tx.nonce,
        d.gas_limit == tx.gas_limit,
        d.max_fee_per_gas == tx.max_fee_per_gas,
        d.max_priority_fee_per_gas == tx.max_priority_fee_per_gas,
        d.value == tx.value,
        access_list_view(d.access_list) == access_list_view(tx.access_list),
    ensures
        d.to matches TxKind::Call(_),
        20 + d.input@.len() < MAX_MESSAGE_SIZE,
        reenc_payload(d) == tx.ciphertext.payload@,
        reenc_tag(d) == tx.ciphertext.tag@,
        reenc_fields_rlp(d) == tx_fields_rlp(tx),
        reenc_signing_rlp(d) == tx_signing_rlp(tx),
        forall|sig: Signature| #[trigger] tx_envelope_rlp(tx, sig) == ({
            let payload = reenc_fields_rlp(d) + signature_rlp(sig);
            seq![DAWN_ENCRYPTED_TX_TYPE] + rlp_header_spec(true, payload.len()) + payload
        }),
{
    let pt = tx_plaintext(tx, dk);
    assert(to_addr(d.to) + d.input@ =~= pt);
    assert(reenc_payload(d) == tx.ciphertext.payload@);
}


} // verus!
