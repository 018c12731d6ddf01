use dawn::Ciphertext;
use dawn::generate;
use dawn::reveal_key;

#[test]
fn test_encrypt() {
    let label = b"test";
    let (mpk, msk) = generate();
    let payload = b"hello world";
    let ad = b"associated data";
    let c = Ciphertext::encrypt(&mpk, label, payload, ad);
    let dk = reveal_key(label, &msk);
    let decrypted = c.decrypt(&dk, ad).unwrap();
    assert_eq!(decrypted, payload);
}

#[test]
fn lib_test_encrypt() {
    let label = b"test";
    let (mpk, msk) = generate();
    let payload = b"hello world";
    let ad = b"associated data";
    let c = Ciphertext::encrypt(&mpk, label, payload, ad);
    let dk = reveal_key(label, &msk);
    let decrypted = c.decrypt(&dk, ad).unwrap();
    assert_eq!(decrypted, payload);
}

#[test]
fn payload_keeps_its_length() {
    let (mpk, _msk) = generate();
    let c = Ciphertext::encrypt(&mpk, b"l", b"four", b"ad");
    assert_eq!(c.payload.len(), 4);
}

#[test]
fn wrong_decryption_key_fails() {
    let (mpk, msk) = generate();
    let c = Ciphertext::encrypt(&mpk, b"label-a", b"secret", b"ad");
    let wrong = reveal_key(b"label-b", &msk);
    assert!(c.decrypt(&wrong, b"ad").is_none());
}

#[test]
fn wrong_associated_data_fails() {
    let (mpk, msk) = generate();
    let c = Ciphertext::encrypt(&mpk, b"label", b"secret", b"ad");
    let dk = reveal_key(b"label", &msk);
    assert!(c.decrypt(&dk, b"da").is_none());
    assert!(c.decrypt(&dk, b"ad").is_some());
}

#[test]
fn tag_flip_fails() {
    let (mpk, msk) = generate();
    let c = Ciphertext::encrypt(&mpk, b"label", b"secret", b"ad");
    let dk = reveal_key(b"label", &msk);
    for i in 0..16 {
        let mut bad = c.clone();
        bad.tag[i] ^= 0x01;
        assert!(bad.decrypt(&dk, b"ad").is_none());
    }
}

#[test]
fn reencrypt_reproduces_ciphertext() {
    let label = b"label";
    let ad = b"ad";
    let payload = b"the plaintext";
    let (mpk, msk) = generate();
    let c = Ciphertext::encrypt(&mpk, label, payload, ad);
    let dk = reveal_key(label, &msk);
    let c2 = Ciphertext::reencrypt(&c.u, &dk, payload, ad);
    assert_eq!(c2, c);
}
