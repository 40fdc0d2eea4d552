use envy::envelope::{
    decrypt_bytes, decrypt_bytes_with_key, encrypt_bytes, encrypt_bytes_with_key, open_key_blob,
    seal_key_blob, seal_passphrase_blob, BLOB_VERSION, KEY_HEADER_LEN, PASSPHRASE_HEADER_LEN,
};
use envy::error::ErrorKind;

fn key(fill: u8) -> Vec<u8> {
    vec![fill; 32]
}

#[test]
fn key_round_trip() {
    let k = key(7);
    for p in [b"".to_vec(), b"API_KEY=abc\n".to_vec(), vec![0u8; 1000]] {
        let blob = encrypt_bytes_with_key(&p, &k).unwrap();
        assert_eq!(blob.len(), p.len() + KEY_HEADER_LEN + 16);
        assert_eq!(blob[0], BLOB_VERSION);
        assert_eq!(decrypt_bytes_with_key(&blob, &k).unwrap(), p);
    }
}

#[test]
fn key_sealing_is_randomised() {
    let k = key(1);
    let a = encrypt_bytes_with_key(b"same", &k).unwrap();
    let b = encrypt_bytes_with_key(b"same", &k).unwrap();
    assert_ne!(a, b);
}

#[test]
fn seal_key_blob_layout() {
    let k = key(3);
    let nonce = vec![9u8; 24];
    let blob = seal_key_blob(b"hello", &k, &nonce, b"");
    assert_eq!(blob[0], 1);
    assert_eq!(&blob[1..25], &nonce[..]);
    assert_eq!(blob.len(), 5 + 25 + 16);
    let again = seal_key_blob(b"hello", &k, &nonce, b"");
    assert_eq!(blob, again);
    assert_ne!(&blob[25..30], b"hello");
}

#[test]
fn tamper_detection_every_bit() {
    let k = key(5);
    let blob = encrypt_bytes_with_key(b"SECRET=1", &k).unwrap();
    for i in KEY_HEADER_LEN..blob.len() {
        for bit in 0..8 {
            let mut t = blob.clone();
            t[i] ^= 1 << bit;
            assert_eq!(decrypt_bytes_with_key(&t, &k), Err(ErrorKind::CryptoError));
        }
    }
}

#[test]
fn tampered_nonce_fails() {
    let k = key(5);
    let mut blob = encrypt_bytes_with_key(b"SECRET=1", &k).unwrap();
    blob[3] ^= 0x10;
    assert_eq!(decrypt_bytes_with_key(&blob, &k), Err(ErrorKind::CryptoError));
}

#[test]
fn wrong_key_fails() {
    let blob = encrypt_bytes_with_key(b"DB_PASSWORD=x", &key(1)).unwrap();
    assert_eq!(decrypt_bytes_with_key(&blob, &key(2)), Err(ErrorKind::CryptoError));
}

#[test]
fn version_mismatch_is_version_error() {
    let k = key(4);
    let mut blob = encrypt_bytes_with_key(b"x", &k).unwrap();
    blob[0] = 2;
    assert_eq!(decrypt_bytes_with_key(&blob, &k), Err(ErrorKind::VersionError));
}

#[test]
fn short_blob_is_crypto_error() {
    let k = key(4);
    assert_eq!(decrypt_bytes_with_key(&[1u8; 24], &k), Err(ErrorKind::CryptoError));
    assert_eq!(decrypt_bytes_with_key(&[], &k), Err(ErrorKind::CryptoError));
    assert_eq!(decrypt_bytes_with_key(&[1u8; 40], &k), Err(ErrorKind::CryptoError));
}

#[test]
fn associated_data_is_bound() {
    let k = key(8);
    let nonce = vec![1u8; 24];
    let blob = seal_key_blob(b"key", &k, &nonce, b"proj:100");
    assert_eq!(open_key_blob(&blob, &k, b"proj:100").unwrap(), b"key".to_vec());
    assert_eq!(open_key_blob(&blob, &k, b"proj:101"), Err(ErrorKind::CryptoError));
}

#[test]
fn passphrase_round_trip_and_wrong_passphrase() {
    let blob = encrypt_bytes(b"TOKEN=abc", "correct horse").unwrap();
    assert_eq!(blob.len(), 9 + PASSPHRASE_HEADER_LEN + 16);
    assert_eq!(decrypt_bytes(&blob, "correct horse").unwrap(), b"TOKEN=abc".to_vec());
    assert_eq!(decrypt_bytes(&blob, "wrong horse"), Err(ErrorKind::CryptoError));
}

#[test]
fn passphrase_blob_layout_and_version() {
    let salt = vec![2u8; 16];
    let nonce = vec![3u8; 24];
    let mut blob = seal_passphrase_blob(b"v", "pw", &salt, &nonce);
    assert_eq!(blob[0], 1);
    assert_eq!(&blob[1..17], &salt[..]);
    assert_eq!(&blob[17..41], &nonce[..]);
    blob[0] = 9;
    assert_eq!(decrypt_bytes(&blob, "pw"), Err(ErrorKind::VersionError));
    assert_eq!(decrypt_bytes(&blob[..40], "pw"), Err(ErrorKind::CryptoError));
}
