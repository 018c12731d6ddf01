use dawn::DecryptionKey;
use dawn::MasterPrivateKey;
use dawn::MasterPublicKey;
use dawn::generate;
use dawn::recover;
use dawn::reveal_key;
use dawn::share;
use dawn::verify;

#[test]
fn test_encapsulate_reveal() {
    let label = b"test";
    let (mpk, msk) = generate();
    let (u, s) = share(label, &mpk);
    let dk = reveal_key(label, &msk);
    let s_prime = recover(&u, &dk);
    assert_eq!(s, s_prime);
}

#[test]
fn encapsulate_test_encapsulate_reveal() {
    let label = b"test";
    let (mpk, msk) = generate();
    let (u, s) = share(label, &mpk);
    let dk = reveal_key(label, &msk);
    let s_prime = recover(&u, &dk);
    assert_eq!(s, s_prime);
}

#[test]
fn test_verify() {
    let label = b"test";
    let (mpk, msk) = generate();
    let dk = reveal_key(label, &msk);
    assert!(verify(label, &mpk, &dk));
}

#[test]
fn encapsulate_test_verify() {
    let label = b"test";
    let (mpk, msk) = generate();
    let dk = reveal_key(label, &msk);
    assert!(verify(label, &mpk, &dk));
}

#[test]
fn verify_rejects_wrong_label() {
    let (mpk, msk) = generate();
    let dk = reveal_key(b"test", &msk);
    assert!(!verify(b"other", &mpk, &dk));
}

#[test]
fn verify_rejects_foreign_master_key() {
    let (_mpk1, msk1) = generate();
    let (mpk2, _msk2) = generate();
    let dk = reveal_key(b"test", &msk1);
    assert!(!verify(b"test", &mpk2, &dk));
}

#[test]
fn recover_with_wrong_key_differs() {
    let label = b"test";
    let (mpk, msk) = generate();
    let (u, s) = share(label, &mpk);
    let wrong = reveal_key(b"other", &msk);
    let s_prime = recover(&u, &wrong);
    assert!(!(s == s_prime));
}

#[test]
fn master_public_key_bytes_round_trip() {
    let (mpk, _msk) = generate();
    let bytes = mpk.to_bytes();
    let back = MasterPublicKey::from_bytes(bytes).unwrap();
    assert_eq!(back.to_bytes(), bytes);
}

#[test]
fn master_private_key_bytes_round_trip() {
    let label = b"test";
    let (_mpk, msk) = generate();
    let bytes = msk.to_bytes();
    let back = MasterPrivateKey::from_bytes(bytes).unwrap();
    assert_eq!(reveal_key(label, &back), reveal_key(label, &msk));
}

#[test]
fn from_bytes_rejects_invalid_points() {
    assert!(MasterPublicKey::from_bytes([0xff; 96]).is_none());
    assert!(DecryptionKey::from_bytes([0xff; 48]).is_none());
}

#[test]
fn from_bytes_rejects_noncanonical_scalar() {
    assert!(MasterPrivateKey::from_bytes([0xff; 32]).is_none());
}
