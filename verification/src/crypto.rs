//! Password-based sealing of payloads: PBKDF2-HMAC-SHA256 derives an
//! AES-256-GCM key from the password and a random salt; the blob is
//! `[salt (16)] [nonce (12)] [ciphertext with tag]`.
use vstd::prelude::*;
use vstd::string::StringSliceAdditionalSpecFns;

use aes_gcm::aead::{Aead, KeyInit};
use rand::RngCore;

verus! {

pub const SALT_LEN: usize = 16;
pub const NONCE_LEN: usize = 12;
pub const KEY_LEN: usize = 32;
pub const PBKDF2_ITERATIONS: u32 = 600_000;

/// Largest plaintext, in bytes, that AES-GCM encrypts (`aes_gcm::P_MAX`).
pub const AES_GCM_P_MAX: u64 = 0x10_0000_0000;

#[verifier::external_type_specification]
#[verifier::external_body]
pub struct ExAeadError(aes_gcm::Error);

/// The library's error for a failed encryption or decryption (too short,
/// wrong password, or damaged data); it carries no detail, as the
/// underlying AEAD error carries none.
#[derive(Debug, Clone, Copy, PartialEq, Eq)]
pub struct CryptoError;

/// The `len`-byte key PBKDF2-HMAC-SHA256 derives from `password` and
/// `salt` in `rounds` rounds.
pub uninterp spec fn pbkdf2_sha256(password: Seq<u8>, salt: Seq<u8>, rounds: u32, len: nat) -> Seq<u8>;

/// The AES-256-GCM ciphertext (with its 16-byte tag appended) of
/// `plaintext` under `key` and `nonce`, with no associated data.
pub uninterp spec fn aes256gcm_seal(key: Seq<u8>, nonce: Seq<u8>, plaintext: Seq<u8>) -> Seq<u8>;

/// The plaintext AES-256-GCM recovers from `ciphertext` under `key` and
/// `nonce` (no associated data), or `None` when the tag does not verify.
pub uninterp spec fn aes256gcm_open(key: Seq<u8>, nonce: Seq<u8>, ciphertext: Seq<u8>) -> Option<Seq<u8>>;

/// Fills `buf` from the operating system's random source (`OsRng` of
/// `aes_gcm::aead`, through rand's `RngCore::fill_bytes`). Claimed: the
/// length stays; the bytes are random, so nothing is claimed of them.
#[verifier::external_body]
fn fill_os_random(buf: &mut [u8])
    ensures
        final(buf)@.len() == old(buf)@.len(),
{
    aes_gcm::aead::OsRng.fill_bytes(buf)
}

/// Runs pbkdf2's `pbkdf2_hmac::<Sha256>` into `key`. Claimed: `key` then
/// holds `pbkdf2_sha256(password, salt, rounds, key.len())`.
#[verifier::external_body]
fn pbkdf2_hmac_sha256(password: &[u8], salt: &[u8], rounds: u32, key: &mut [u8])
    ensures
        final(key)@ == pbkdf2_sha256(password@, salt@, rounds, old(key)@.len()),
{
    pbkdf2::pbkdf2_hmac::<sha2::Sha256>(password, salt, rounds, key)
}

/// Encrypts with aes-gcm's `Aes256Gcm` (`encrypt` of `Aead`, no associated
/// data). Claimed, as aes-gcm's source shows: it fails exactly when the
/// plaintext exceeds `P_MAX` bytes; otherwise the ciphertext is
/// `aes256gcm_seal(key, nonce, plaintext)`, 16 bytes longer than the
/// plaintext, and decrypting it with the same key and nonce gives the
/// plaintext back.
#[verifier::external_body]
fn aes256gcm_encrypt(plaintext: &[u8], key: &[u8; 32], nonce: &[u8; 12]) -> (ciphertext: Result<Vec<u8>, aes_gcm::Error>)
    ensures
        match ciphertext {
            Ok(c) => plaintext@.len() <= AES_GCM_P_MAX && c@ == aes256gcm_seal(key@, nonce@, plaintext@)
                && c@.len() == plaintext@.len() + 16 && aes256gcm_open(key@, nonce@, c@) == Some(plaintext@),
            Err(_) => plaintext@.len() > AES_GCM_P_MAX,
        },
{
    let cipher = aes_gcm::Aes256Gcm::new_from_slice(key).expect("a 32-byte key");
    cipher.encrypt(aes_gcm::Nonce::from_slice(nonce), plaintext)
}

/// Decrypts with aes-gcm's `Aes256Gcm` (`decrypt` of `Aead`, no associated
/// data). Claimed: the result is `aes256gcm_open(key, nonce, ciphertext)`.
#[verifier::external_body]
fn aes256gcm_decrypt(ciphertext: &[u8], key: &[u8; 32], nonce: &[u8; 12]) -> (plaintext: Result<Vec<u8>, aes_gcm::Error>)
    ensures
        match plaintext {
            Ok(p) => aes256gcm_open(key@, nonce@, ciphertext@) == Some(p@),
            Err(_) => aes256gcm_open(key@, nonce@, ciphertext@) is None,
        },
{
    let cipher = aes_gcm::Aes256Gcm::new_from_slice(key).expect("a 32-byte key");
    cipher.decrypt(aes_gcm::Nonce::from_slice(nonce), ciphertext)
}

/// A fresh random salt.
pub fn generate_salt() -> [u8; 16] {
    let mut salt = [0u8; 16];
    fill_os_random(&mut salt);
    salt
}

/// A fresh random nonce.
pub fn generate_nonce() -> [u8; 12] {
    let mut nonce = [0u8; 12];
    fill_os_random(&mut nonce);
    nonce
}

/// The key for a password and salt.
pub open spec fn key_for(password: Seq<u8>, salt: Seq<u8>) -> Seq<u8> {
    pbkdf2_sha256(password, salt, PBKDF2_ITERATIONS, 32)
}

/// Derives the 256-bit key from a password and salt with
/// PBKDF2-HMAC-SHA256 (600,000 rounds).
pub fn derive_key(password: &str, salt: &[u8]) -> (key: [u8; 32])
    ensures
        key@ == key_for(password.spec_bytes(), salt@),
{
    let mut key = [0u8; 32];
    pbkdf2_hmac_sha256(password.as_bytes(), salt, PBKDF2_ITERATIONS, &mut key);
    key
}

/// Encrypts with AES-256-GCM; fails only for a plaintext beyond `P_MAX`
/// bytes.
pub fn encrypt_aes_gcm(plaintext: &[u8], key: &[u8; 32], nonce: &[u8; 12]) -> (r: Result<Vec<u8>, CryptoError>)
    ensures
        r is Ok <==> plaintext@.len() <= AES_GCM_P_MAX,
        r matches Ok(c) ==> c@ == aes256gcm_seal(key@, nonce@, plaintext@) && c@.len() == plaintext@.len() + 16
            && aes256gcm_open(key@, nonce@, c@) == Some(plaintext@),
{
    match aes256gcm_encrypt(plaintext, key, nonce) {
        Ok(c) => Ok(c),
        Err(_) => Err(CryptoError),
    }
}

/// Decrypts with AES-256-GCM; fails when the tag does not verify.
pub fn decrypt_aes_gcm(ciphertext: &[u8], key: &[u8; 32], nonce: &[u8; 12]) -> (r: Result<Vec<u8>, CryptoError>)
    ensures
        match r {
            Ok(p) => aes256gcm_open(key@, nonce@, ciphertext@) == Some(p@),
            Err(_) => aes256gcm_open(key@, nonce@, ciphertext@) is None,
        },
{
    match aes256gcm_decrypt(ciphertext, key, nonce) {
        Ok(p) => Ok(p),
        Err(_) => Err(CryptoError),
    }
}

/// The blob for `payload` under `password`, given the salt and nonce.
pub open spec fn sealed_blob(payload: Seq<u8>, password: Seq<u8>, salt: Seq<u8>, nonce: Seq<u8>) -> Seq<u8> {
    salt + nonce + aes256gcm_seal(key_for(password, salt), nonce, payload)
}

/// What `decrypt_payload` recovers from a blob, or `None`.
pub open spec fn open_blob(packed: Seq<u8>, password: Seq<u8>) -> Option<Seq<u8>> {
    if packed.len() < 28 {
        None
    } else {
        aes256gcm_open(
            key_for(password, packed.subrange(0, 16)),
            packed.subrange(16, 28),
            packed.subrange(28, packed.len() as int),
        )
    }
}

/// Seals `payload` under `password` with the given salt and nonce; fails
/// only for a payload beyond `P_MAX` bytes. What comes back opens to the
/// payload with the same password.
pub fn seal_payload(payload: &[u8], password: &str, salt: [u8; 16], nonce: [u8; 12]) -> (r: Result<Vec<u8>, CryptoError>)
    ensures
        r is Ok <==> payload@.len() <= AES_GCM_P_MAX,
        r matches Ok(blob) ==> blob@ == sealed_blob(payload@, password.spec_bytes(), salt@, nonce@)
            && blob@.len() == 28 + payload@.len() + 16
            && open_blob(blob@, password.spec_bytes()) == Some(payload@),
{
    let key = derive_key(password, &salt);
    let ciphertext = match encrypt_aes_gcm(payload, &key, &nonce) {
        Ok(c) => c,
        Err(e) => return Err(e),
    };
    let mut packed: Vec<u8> = Vec::new();
    packed.extend_from_slice(&salt);
    packed.extend_from_slice(&nonce);
    packed.extend_from_slice(ciphertext.as_slice());
    assert(packed@ =~= salt@ + nonce@ + ciphertext@);
    assert(packed@.subrange(0, 16) =~= salt@);
    assert(packed@.subrange(16, 28) =~= nonce@);
    assert(packed@.subrange(28, packed@.len() as int) =~= ciphertext@);
    Ok(packed)
}

/// Encrypts `payload` with a key derived from `password` and a fresh random
/// salt, under a fresh random nonce. The blob is
/// `[salt (16)] [nonce (12)] [ciphertext]`, self-contained for decryption;
/// it opens to the payload with the same password.
pub fn encrypt_payload(payload: &[u8], password: &str) -> (r: Result<Vec<u8>, CryptoError>)
    ensures
        r is Ok <==> payload@.len() <= AES_GCM_P_MAX,
        r matches Ok(blob) ==> blob@ == sealed_blob(
            payload@,
            password.spec_bytes(),
            blob@.subrange(0, 16),
            blob@.subrange(16, 28),
        ) && blob@.len() == 28 + payload@.len() + 16 && open_blob(blob@, password.spec_bytes()) == Some(payload@),
{
    let salt = generate_salt();
    let nonce = generate_nonce();
    let r = seal_payload(payload, password, salt, nonce);
    proof {
        if r is Ok {
            let blob = r->Ok_0;
            assert(blob@.subrange(0, 16) =~= salt@);
            assert(blob@.subrange(16, 28) =~= nonce@);
        }
    }
    r
}

/// Decrypts a blob made by `encrypt_payload`. Fails when the blob is
/// shorter than salt and nonce, or when the tag does not verify (wrong
/// password, damaged blob).
pub fn decrypt_payload(packed: &[u8], password: &str) -> (r: Result<Vec<u8>, CryptoError>)
    ensures
        match r {
            Ok(p) => open_blob(packed@, password.spec_bytes()) == Some(p@),
            Err(_) => open_blob(packed@, password.spec_bytes()) is None,
        },
{
    if packed.len() < SALT_LEN + NONCE_LEN {
        return Err(CryptoError);
    }
    let mut salt = [0u8; 16];
    let mut i: usize = 0;
    while i < 16
        invariant
            packed@.len() >= 28,
            i <= 16,
            forall|k: int| 0 <= k < i ==> salt@[k] == packed@[k],
        decreases 16 - i,
    {
        salt[i] = packed[i];
        i = i + 1;
    }
    let mut nonce = [0u8; 12];
    let mut j: usize = 0;
    while j < 12
        invariant
            packed@.len() >= 28,
            j <= 12,
            forall|k: int| 0 <= k < j ==> nonce@[k] == packed@[16 + k],
        decreases 12 - j,
    {
        nonce[j] = packed[16 + j];
        j = j + 1;
    }
    assert(salt@ =~= packed@.subrange(0, 16));
    assert(nonce@ =~= packed@.subrange(16, 28));
    let ciphertext = &packed[SALT_LEN + NONCE_LEN..packed.len()];
    let key = derive_key(password, &salt);
    decrypt_aes_gcm(ciphertext, &key, &nonce)
}

} // verus!
