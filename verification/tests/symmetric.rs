use dawn::symmetric::decrypt;
use dawn::symmetric::encrypt;
use rand::Rng;
use rand::thread_rng;

#[test]
fn roundtrip() {
    let mut rng = thread_rng();
    let key = rng.gen();
    let mut buf = vec![0u8; 40];
    rng.fill(&mut buf[..]);
    let mut associated_data = [0u8; 40];
    rng.fill(&mut associated_data[..]);

    let tag = encrypt(&key, &mut buf, &associated_data);
    assert_eq!(decrypt(&key, &mut buf, &associated_data, &tag), Ok(()));
}

#[test]
fn roundtrip_restores_plaintext() {
    let key = [7u8; 32];
    let msg = b"hello world".to_vec();
    let mut buf = msg.clone();
    let tag = encrypt(&key, &mut buf, b"ad");
    assert_ne!(buf, msg);
    assert_eq!(decrypt(&key, &mut buf, b"ad", &tag), Ok(()));
    assert_eq!(buf, msg);
}

#[test]
fn tag_flip_fails_and_leaves_buffer() {
    let key = [9u8; 32];
    let msg = b"some plaintext bytes".to_vec();
    let mut buf = msg.clone();
    let tag = encrypt(&key, &mut buf, b"ad");
    let ciphertext = buf.clone();
    for i in 0..16 {
        let mut bad = tag;
        bad[i] ^= 0x01;
        let mut attempt = ciphertext.clone();
        assert_eq!(decrypt(&key, &mut attempt, b"ad", &bad), Err(()));
        assert_eq!(attempt, ciphertext);
    }
}

#[test]
fn associated_data_flip_fails() {
    let key = [11u8; 32];
    let mut buf = b"payload".to_vec();
    let tag = encrypt(&key, &mut buf, b"binding");
    let mut attempt = buf.clone();
    assert_eq!(decrypt(&key, &mut attempt, b"bindinh", &tag), Err(()));
    assert_eq!(attempt, buf);
}

#[test]
fn payload_flip_fails() {
    let key = [13u8; 32];
    let mut buf = b"payload".to_vec();
    let tag = encrypt(&key, &mut buf, b"ad");
    for i in 0..buf.len() {
        let mut attempt = buf.clone();
        attempt[i] ^= 0x80;
        assert_eq!(decrypt(&key, &mut attempt, b"ad", &tag), Err(()));
    }
}

#[test]
fn empty_plaintext_roundtrip() {
    let key = [1u8; 32];
    let mut buf: Vec<u8> = Vec::new();
    let tag = encrypt(&key, &mut buf, b"ad");
    assert!(buf.is_empty());
    assert_eq!(decrypt(&key, &mut buf, b"ad", &tag), Ok(()));
    assert!(buf.is_empty());
}
