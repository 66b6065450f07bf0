use steg::crypto::{decrypt_payload, encrypt_payload, NONCE_LEN, SALT_LEN};

#[test]
fn encrypt_decrypt_round_trip() {
    let payload = b"secret audio payload";
    let password = "hunter2";

    let encrypted = encrypt_payload(payload, password).unwrap();
    let decrypted = decrypt_payload(&encrypted, password).unwrap();

    assert_eq!(decrypted, payload);
}

#[test]
fn wrong_password_fails_decryption() {
    let encrypted = encrypt_payload(b"data", "correct").unwrap();
    assert!(decrypt_payload(&encrypted, "wrong").is_err());
}

#[test]
fn truncated_blob_fails_decryption() {
    let blob = vec![0u8; SALT_LEN + NONCE_LEN - 1];
    assert!(decrypt_payload(&blob, "pw").is_err());
}

#[test]
fn each_encryption_produces_unique_ciphertext() {
    let payload = b"same data";
    let a = encrypt_payload(payload, "pw").unwrap();
    let b = encrypt_payload(payload, "pw").unwrap();
    assert_ne!(a, b);
}
