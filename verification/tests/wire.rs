use dawn::Ciphertext;
use dawn::generate;
use dawn::rlp::decode_inner;
use dawn::rlp::encode_access_list;
use dawn::rlp::encode_fields;
use dawn::rlp::encode_str;
use dawn::rlp::encode_u64;
use dawn::rlp::fields_len;
use dawn::signed::DAWN_ENCRYPTED_TX_TYPE;
use dawn::signed::Signature;
use dawn::signed::encode_for_signing;
use dawn::signed::encode_signature;
use dawn::signed::encode_with_signature;
use dawn::signed::payload_len_for_signature;
use dawn::signed::payload_len_with_signature;
use dawn::signed::payload_len_with_signature_without_header;
use dawn::tx::AccessList;
use dawn::tx::AccessListItem;
use dawn::tx::TxDawnEncrypted;
use dawn::tx::U256;
use dawn::tx::label;

#[test]
fn rlp_u64_exact_values() {
    let cases: Vec<(u64, Vec<u8>)> = vec![
        (0, vec![0x80]),
        (1, vec![0x01]),
        (0x7f, vec![0x7f]),
        (0x80, vec![0x81, 0x80]),
        (1000, vec![0x82, 0x03, 0xe8]),
        (0x0102030405060708, vec![0x88, 0x01, 0x02, 0x03, 0x04, 0x05, 0x06, 0x07, 0x08]),
    ];
    for (v, expected) in cases {
        let mut out = Vec::new();
        encode_u64(&mut out, v);
        assert_eq!(out, expected);
    }
}

#[test]
fn rlp_str_exact_values() {
    let mut out = Vec::new();
    encode_str(&mut out, b"");
    assert_eq!(out, vec![0x80]);

    let mut out = Vec::new();
    encode_str(&mut out, b"a");
    assert_eq!(out, vec![0x61]);

    let mut out = Vec::new();
    encode_str(&mut out, b"dog");
    assert_eq!(out, vec![0x83, 0x64, 0x6f, 0x67]);

    let long = vec![0xaau8; 56];
    let mut out = Vec::new();
    encode_str(&mut out, &long);
    assert_eq!(out[0], 0xb8);
    assert_eq!(out[1], 56);
    assert_eq!(&out[2..], &long[..]);
}

#[test]
fn rlp_empty_access_list() {
    let mut out = Vec::new();
    encode_access_list(&mut out, &AccessList::default());
    assert_eq!(out, vec![0xc0]);
}

#[test]
fn rlp_access_list_with_entry() {
    let al = AccessList {
        items: vec![AccessListItem { address: [0x11; 20], storage_keys: vec![[0x22; 32]] }],
    };
    let mut out = Vec::new();
    encode_access_list(&mut out, &al);
    // list( list( string(20), list( string(32) ) ) )
    assert_eq!(out[0], 0xf8);
    assert_eq!(out[1], 56);
    assert_eq!(out[2], 0xf7);
    assert_eq!(out[3], 0x94);
    assert_eq!(&out[4..24], &[0x11; 20]);
    assert_eq!(out[24], 0xe1);
    assert_eq!(out[25], 0xa0);
    assert_eq!(&out[26..58], &[0x22; 32]);
}

fn sample_tx(input_len: usize) -> TxDawnEncrypted {
    let (mpk, _msk) = generate();
    let sender = [0x33u8; 20];
    let lbl = label(1, &sender, 2);
    let mut payload = vec![0x22u8; 20];
    payload.extend(std::iter::repeat(0x55u8).take(input_len));
    TxDawnEncrypted {
        chain_id: 1,
        nonce: 2,
        gas_limit: 21_000,
        max_fee_per_gas: 1_000_000_000,
        max_priority_fee_per_gas: 1_000_000,
        value: U256::from_u128(12345),
        access_list: AccessList {
            items: vec![AccessListItem { address: [0x11; 20], storage_keys: vec![[0x22; 32]] }],
        },
        ciphertext: Ciphertext::encrypt(&mpk, &lbl, &payload, &lbl),
    }
}

#[test]
fn decode_inner_round_trips() {
    let tx = sample_tx(40);
    let mut encoded = Vec::new();
    encode_fields(&tx, &mut encoded);
    let (decoded, consumed) = decode_inner(&encoded).unwrap();
    assert_eq!(consumed, encoded.len());
    assert_eq!(decoded, tx);
}

#[test]
fn decode_inner_rejects_noncanonical_integers() {
    let tx = sample_tx(0);
    let mut encoded = Vec::new();
    encode_fields(&tx, &mut encoded);
    // chain_id 1 encodes as the single byte 0x01; the padded two-byte form
    // 0x81 0x01 means the same number but is not canonical.
    let mut padded = vec![0x81u8, 0x01];
    padded.extend_from_slice(&encoded[1..]);
    assert!(decode_inner(&padded).is_none());
}

#[test]
fn decode_inner_rejects_truncation() {
    let tx = sample_tx(3);
    let mut encoded = Vec::new();
    encode_fields(&tx, &mut encoded);
    assert!(decode_inner(&encoded[..encoded.len() - 1]).is_none());
}

#[test]
fn fields_len_matches_encoding() {
    let tx = sample_tx(11);
    let mut encoded = Vec::new();
    encode_fields(&tx, &mut encoded);
    assert_eq!(fields_len(&tx), encoded.len());
}

#[test]
fn signing_encoding_shape() {
    let tx = sample_tx(0);
    let mut out = Vec::new();
    encode_for_signing(&tx, &mut out);
    assert_eq!(out[0], DAWN_ENCRYPTED_TX_TYPE);
    assert_eq!(out.len(), payload_len_for_signature(&tx));
    let mut fields = Vec::new();
    encode_fields(&tx, &mut fields);
    assert_eq!(&out[out.len() - fields.len()..], &fields[..]);
}

#[test]
fn signature_encoding_shape() {
    let sig = Signature { y_parity: true, r: [0u8; 32], s: [1u8; 32] };
    let mut out = Vec::new();
    encode_signature(&mut out, &sig);
    // parity true; r is zero, so it trims to the empty string; s keeps all
    // of its 32 nonzero bytes.
    assert_eq!(out[0], 0x01);
    assert_eq!(out[1], 0x80);
    assert_eq!(out[2], 0xa0);
    assert_eq!(&out[3..35], &[1u8; 32]);
}

#[test]
fn envelope_lengths_are_consistent() {
    let tx = sample_tx(5);
    let sig = Signature { y_parity: false, r: [2u8; 32], s: [3u8; 32] };
    let mut without = Vec::new();
    encode_with_signature(&tx, &sig, &mut without, false);
    assert_eq!(without.len(), payload_len_with_signature_without_header(&tx, &sig));
    let mut with = Vec::new();
    encode_with_signature(&tx, &sig, &mut with, true);
    assert_eq!(with.len(), payload_len_with_signature(&tx, &sig));
    assert!(with.ends_with(&without));
    assert_eq!(without[0], DAWN_ENCRYPTED_TX_TYPE);
}
