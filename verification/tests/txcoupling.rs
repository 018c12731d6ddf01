use dawn::Ciphertext;
use dawn::generate;
use dawn::reveal_key;
use dawn::signed::Signature;
use dawn::signed::Signed;
use dawn::signed::reencrypt;
use dawn::signed::signature_hash;
use dawn::signed::tx_hash;
use dawn::tx::AccessList;
use dawn::tx::Error;
use dawn::tx::TxDawnDecrypted;
use dawn::tx::TxDawnEncrypted;
use dawn::tx::TxEip1559;
use dawn::tx::TxKind;
use dawn::tx::U256;
use dawn::tx::decrypt_unsigned;
use dawn::tx::label;
use dawn::tx::reencrypt_unsigned;
use k256::ecdsa::SigningKey;
use k256::elliptic_curve::sec1::ToEncodedPoint;

fn sign_tx(tx: &TxDawnEncrypted, sk: &SigningKey) -> (Signature, [u8; 32], [u8; 20]) {
    let digest = signature_hash(tx);
    let (sig, recid) = sk.sign_prehash_recoverable(&digest).unwrap();
    let signature = Signature {
        y_parity: recid.is_y_odd(),
        r: sig.r().to_bytes().into(),
        s: sig.s().to_bytes().into(),
    };
    let vk = sk.verifying_key();
    let point = vk.to_encoded_point(false);
    let h = alloy_primitives::keccak256(&point.as_bytes()[1..]);
    let mut sender = [0u8; 20];
    sender.copy_from_slice(&h[12..]);
    (signature, digest, sender)
}

#[test]
fn test_decrypt() {
    let (mpk, msk) = generate();
    let signer = SigningKey::random(&mut rand::rngs::OsRng);
    let chain_id = 1;
    let nonce = 0;
    let value = U256::from_u128(1_000_000_000_000_000_000);
    let vk = signer.verifying_key();
    let point = vk.to_encoded_point(false);
    let h = alloy_primitives::keccak256(&point.as_bytes()[1..]);
    let mut sender = [0u8; 20];
    sender.copy_from_slice(&h[12..]);
    let lbl = label(chain_id, &sender, nonce);
    let tx = TxDawnEncrypted {
        chain_id,
        nonce,
        gas_limit: 1_000_000,
        max_fee_per_gas: 1_000_000_000,
        max_priority_fee_per_gas: 10_000_000,
        value,
        access_list: AccessList::default(),
        ciphertext: Ciphertext::encrypt(&mpk, &lbl, &[0x22; 20], &lbl),
    };
    let (signature, _digest, _sender) = sign_tx(&tx, &signer);
    let hash = tx_hash(&tx, &signature);
    let signed = Signed { tx, signature, hash };
    let decryption_key = reveal_key(&lbl, &msk);
    let decrypted = dawn::signed::decrypt(&signed, &decryption_key).unwrap();
    assert_eq!(decrypted.tx.chain_id, 1);
    assert_eq!(decrypted.tx.nonce, 0);
    assert_eq!(decrypted.tx.gas_limit, 1_000_000);
    assert_eq!(decrypted.tx.max_fee_per_gas, 1_000_000_000);
    assert_eq!(decrypted.tx.max_priority_fee_per_gas, 10_000_000);
    assert_eq!(decrypted.tx.value, value);
    assert_eq!(decrypted.tx.access_list, AccessList::default());
    assert_eq!(decrypted.tx.to, TxKind::Call([0x22; 20]));
    let empty: &[u8] = &[];
    assert_eq!(&decrypted.tx.input[..], empty);
}

#[test]
fn test_decrypt_unsigned() {
    let (mpk, msk) = generate();
    let chain_id = 1;
    let nonce = 0;
    let value = U256::from_u128(1_000_000_000_000_000_000u128);
    let gas_limit = 1_000_000;
    let max_fee_per_gas = 1_000_000_000;
    let max_priority_fee_per_gas = 10_000_000;
    let sender = [0x33u8; 20];
    let lbl = label(chain_id, &sender, nonce);
    let access_list = AccessList::default();
    let input: Vec<u8> = Vec::new();
    let ciphertext = Ciphertext::encrypt(&mpk, &lbl, &[0x22; 20], &lbl);
    let tx = TxDawnEncrypted {
        chain_id,
        nonce,
        gas_limit,
        max_fee_per_gas,
        max_priority_fee_per_gas,
        value,
        access_list: access_list.clone(),
        ciphertext,
    };
    let decryption_key = reveal_key(&lbl, &msk);
    let decrypted = decrypt_unsigned(&tx, &decryption_key, &sender).unwrap();
    assert_eq!(
        decrypted,
        TxDawnDecrypted {
            chain_id,
            nonce,
            gas_limit,
            max_fee_per_gas,
            max_priority_fee_per_gas,
            value,
            access_list,
            to: TxKind::Call([0x22; 20]),
            input,
            sender,
            ephemeral_public_key: tx.ciphertext.u.clone(),
            decryption_key,
        }
    );
}

#[test]
fn dawn_test_encrypt() {
    let (mpk, msk) = generate();
    let chain_id = 1;
    let nonce = 0;
    let value = U256::from_u128(1_000_000_000_000_000_000u128);
    let gas_limit = 1_000_000;
    let max_fee_per_gas = 1_000_000_000;
    let max_priority_fee_per_gas = 10_000_000;
    let sender = [0x33u8; 20];
    let lbl = label(chain_id, &sender, nonce);
    let access_list = AccessList::default();
    let input = b"hello".to_vec();
    let tx = dawn::tx::encrypt(
        &mpk,
        &TxEip1559 {
            chain_id,
            nonce,
            gas_limit,
            max_fee_per_gas,
            max_priority_fee_per_gas,
            value,
            access_list: access_list.clone(),
            to: TxKind::Call([0x22; 20]),
            input: input.clone(),
        },
        &sender,
    );
    let decryption_key = reveal_key(&lbl, &msk);
    let decrypted = decrypt_unsigned(&tx, &decryption_key, &sender).unwrap();
    assert_eq!(
        decrypted,
        TxDawnDecrypted {
            chain_id,
            nonce,
            gas_limit,
            max_fee_per_gas,
            max_priority_fee_per_gas,
            value,
            access_list,
            to: TxKind::Call([0x22; 20]),
            input,
            sender,
            ephemeral_public_key: tx.ciphertext.u.clone(),
            decryption_key,
        }
    );
}

#[test]
fn short_payload_is_detected() {
    let (mpk, msk) = generate();
    let sender = [0x33u8; 20];
    let lbl = label(1, &sender, 0);
    let ciphertext = Ciphertext::encrypt(&mpk, &lbl, &[0x22; 5], &lbl);
    let tx = TxDawnEncrypted {
        chain_id: 1,
        nonce: 0,
        gas_limit: 21_000,
        max_fee_per_gas: 1,
        max_priority_fee_per_gas: 1,
        value: U256::from_u128(0),
        access_list: AccessList::default(),
        ciphertext,
    };
    let decryption_key = reveal_key(&lbl, &msk);
    let r = decrypt_unsigned(&tx, &decryption_key, &sender);
    assert_eq!(r.unwrap_err(), Error::ShortPayloadError);
}

#[test]
fn tag_flip_is_authentication_error() {
    let (mpk, msk) = generate();
    let sender = [0x33u8; 20];
    let lbl = label(1, &sender, 0);
    let ciphertext = Ciphertext::encrypt(&mpk, &lbl, &[0x22; 20], &lbl);
    let tx = TxDawnEncrypted {
        chain_id: 1,
        nonce: 0,
        gas_limit: 21_000,
        max_fee_per_gas: 1,
        max_priority_fee_per_gas: 1,
        value: U256::from_u128(0),
        access_list: AccessList::default(),
        ciphertext,
    };
    let decryption_key = reveal_key(&lbl, &msk);
    for i in 0..16 {
        let mut bad = tx.clone();
        bad.ciphertext.tag[i] ^= 0x01;
        let r = decrypt_unsigned(&bad, &decryption_key, &sender);
        assert_eq!(r.unwrap_err(), Error::AuthenticationError);
    }
    assert!(decrypt_unsigned(&tx, &decryption_key, &sender).is_ok());
}

#[test]
fn reencrypt_unsigned_reproduces_tx() {
    let (mpk, msk) = generate();
    let sender = [0x33u8; 20];
    let lbl = label(1, &sender, 7);
    let ciphertext = Ciphertext::encrypt(&mpk, &lbl, b"\x22\x22\x22\x22\x22\x22\x22\x22\x22\x22\x22\x22\x22\x22\x22\x22\x22\x22\x22\x22payload", &lbl);
    let tx = TxDawnEncrypted {
        chain_id: 1,
        nonce: 7,
        gas_limit: 21_000,
        max_fee_per_gas: 5,
        max_priority_fee_per_gas: 3,
        value: U256::from_u128(9),
        access_list: AccessList::default(),
        ciphertext,
    };
    let decryption_key = reveal_key(&lbl, &msk);
    let decrypted = decrypt_unsigned(&tx, &decryption_key, &sender).unwrap();
    let back = reencrypt_unsigned(&decrypted);
    assert_eq!(back, tx);
}

#[test]
fn signed_reencrypt_round_trip_and_sender_binding() {
    let (mpk, msk) = generate();
    let signer = SigningKey::random(&mut rand::rngs::OsRng);
    let vk = signer.verifying_key();
    let point = vk.to_encoded_point(false);
    let h = alloy_primitives::keccak256(&point.as_bytes()[1..]);
    let mut sender = [0u8; 20];
    sender.copy_from_slice(&h[12..]);
    let lbl = label(1, &sender, 0);
    let tx = TxDawnEncrypted {
        chain_id: 1,
        nonce: 0,
        gas_limit: 21_000,
        max_fee_per_gas: 2,
        max_priority_fee_per_gas: 1,
        value: U256::from_u128(5),
        access_list: AccessList::default(),
        ciphertext: Ciphertext::encrypt(&mpk, &lbl, &[0x22; 20], &lbl),
    };
    let (signature, _d, _s) = sign_tx(&tx, &signer);
    let hash = tx_hash(&tx, &signature);
    let signed = Signed { tx: tx.clone(), signature, hash };
    let decryption_key = reveal_key(&lbl, &msk);
    let decrypted = dawn::signed::decrypt(&signed, &decryption_key).unwrap();

    let back = reencrypt(&decrypted).unwrap();
    assert_eq!(back.tx, tx);
    assert_eq!(back.hash, hash);

    let mut swapped = Signed {
        tx: decrypted.tx.clone(),
        signature: decrypted.signature,
        hash: decrypted.hash,
    };
    swapped.tx.sender = [0x44u8; 20];
    assert_eq!(reencrypt(&swapped).unwrap_err(), Error::InvalidSender);
}

#[test]
fn label_layout_is_exact() {
    let sender = [0x33u8; 20];
    let l = label(1, &sender, 0);
    let mut expected = [0u8; 96];
    expected[31] = 1;
    for i in 44..64 {
        expected[i] = 0x33;
    }
    assert_eq!(l, expected);

    let l2 = label(0x0102030405060708, &sender, 0x1112131415161718);
    assert_eq!(&l2[24..32], &[0x01, 0x02, 0x03, 0x04, 0x05, 0x06, 0x07, 0x08]);
    assert_eq!(&l2[88..96], &[0x11, 0x12, 0x13, 0x14, 0x15, 0x16, 0x17, 0x18]);
}

#[test]
fn effective_gas_price_values() {
    let (mpk, _msk) = generate();
    let lbl = label(1, &[0x33; 20], 0);
    let tx = TxDawnEncrypted {
        chain_id: 1,
        nonce: 0,
        gas_limit: 21_000,
        max_fee_per_gas: 100,
        max_priority_fee_per_gas: 10,
        value: U256::from_u128(0),
        access_list: AccessList::default(),
        ciphertext: Ciphertext::encrypt(&mpk, &lbl, &[0x22; 20], &lbl),
    };
    assert_eq!(tx.effective_gas_price(None), 100);
    assert_eq!(tx.effective_gas_price(Some(50)), 60);
    assert_eq!(tx.effective_gas_price(Some(95)), 100);
    assert_eq!(tx.effective_gas_price(Some(200)), 100);
}

#[test]
fn size_counts_fields_and_ciphertext() {
    let (mpk, _msk) = generate();
    let lbl = label(1, &[0x33; 20], 0);
    let tx = TxDawnEncrypted {
        chain_id: 1,
        nonce: 0,
        gas_limit: 21_000,
        max_fee_per_gas: 100,
        max_priority_fee_per_gas: 10,
        value: U256::from_u128(0),
        access_list: AccessList::default(),
        ciphertext: Ciphertext::encrypt(&mpk, &lbl, &[0x22; 20], &lbl),
    };
    assert_eq!(tx.size(), 88 + 0 + 96 + 20 + 16);
}

#[test]
fn garbage_signature_is_signature_error() {
    let (mpk, msk) = generate();
    let sender = [0x33u8; 20];
    let lbl = label(1, &sender, 0);
    let tx = TxDawnEncrypted {
        chain_id: 1,
        nonce: 0,
        gas_limit: 21_000,
        max_fee_per_gas: 1,
        max_priority_fee_per_gas: 1,
        value: U256::from_u128(0),
        access_list: AccessList::default(),
        ciphertext: Ciphertext::encrypt(&mpk, &lbl, &[0x22; 20], &lbl),
    };
    // An all-zero r scalar can never recover a public key.
    let signature = Signature { y_parity: false, r: [0u8; 32], s: [0u8; 32] };
    let hash = tx_hash(&tx, &signature);
    let signed = Signed { tx, signature, hash };
    let decryption_key = reveal_key(&lbl, &msk);
    let r = dawn::signed::decrypt(&signed, &decryption_key);
    assert_eq!(r.unwrap_err(), Error::SignatureError);
}
