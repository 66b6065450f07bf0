use steg::crypto::{decrypt_aes_gcm, encrypt_aes_gcm, seal_payload, decrypt_payload, CryptoError};

#[test]
fn sealed_blob_layout_and_opening() {
    let salt = [7u8; 16];
    let nonce = [9u8; 12];
    let blob = seal_payload(b"fixed inputs", "pw", salt, nonce).unwrap();
    assert_eq!(&blob[..16], &salt);
    assert_eq!(&blob[16..28], &nonce);
    assert_eq!(blob.len(), 28 + 12 + 16);
    assert_ne!(&blob[28..40], b"fixed inputs");
    assert_eq!(decrypt_payload(&blob, "pw"), Ok(b"fixed inputs".to_vec()));
}

#[test]
fn aes_gcm_round_trip_and_tamper() {
    let key = [1u8; 32];
    let nonce = [2u8; 12];
    let ct = encrypt_aes_gcm(b"plaintext message", &key, &nonce).unwrap();
    assert_eq!(ct.len(), 17 + 16);
    assert_ne!(&ct[..17], b"plaintext message");
    assert_eq!(decrypt_aes_gcm(&ct, &key, &nonce), Ok(b"plaintext message".to_vec()));
    let mut bad = ct.clone();
    bad[0] ^= 1;
    assert_eq!(decrypt_aes_gcm(&bad, &key, &nonce), Err(CryptoError));
    assert_eq!(decrypt_aes_gcm(&ct[..10], &key, &nonce), Err(CryptoError));
}

#[test]
fn derive_key_is_pbkdf2_hmac_sha256() {
    let salt = [3u8; 16];
    let key = steg::crypto::derive_key("pw", &salt);
    let mut expected = [0u8; 32];
    pbkdf2::pbkdf2_hmac::<sha2::Sha256>(b"pw", &salt, 600_000, &mut expected);
    assert_eq!(key, expected);
    assert_ne!(key, [0u8; 32]);
}
