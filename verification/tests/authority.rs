use dawn::protocol::authority_generate;
use dawn::protocol::authority_reveal;
use dawn::verify;

#[test]
fn authority_round_trip() {
    let (mpk, msk_bytes) = authority_generate();
    // The sealing facility is outside the library; the test stands in for it
    // by handing the bytes back unchanged.
    let sealed = msk_bytes;
    let dk = authority_reveal(b"label", sealed).unwrap();
    assert!(verify(b"label", &mpk, &dk));
}

#[test]
fn authority_reveal_rejects_noncanonical_bytes() {
    assert!(authority_reveal(b"label", [0xff; 32]).is_none());
}

#[test]
fn authority_reveal_matches_direct_reveal() {
    let (_mpk, msk_bytes) = authority_generate();
    let msk = dawn::MasterPrivateKey::from_bytes(msk_bytes).unwrap();
    let dk1 = authority_reveal(b"some label", msk_bytes).unwrap();
    let dk2 = dawn::reveal_key(b"some label", &msk);
    assert_eq!(dk1, dk2);
}
