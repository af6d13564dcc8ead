use sex_cli::crypto::{decrypt, encrypt, NONCE_LEN};
use sex_cli::errors::{CryptoError, StoreError};
use sex_cli::secret_store::{get_or_create_key, SecretStore};

fn fresh_key() -> Vec<u8> {
    let mut store = SecretStore::new_memory();
    get_or_create_key(&mut store).unwrap()
}

#[test]
fn test_encrypt_decrypt_round_trip() {
    let key = fresh_key();
    for name in ["", "Web App", "päivä 日本語 🎉", "with \"quotes\" and \\slashes\\\n"] {
        let blob = encrypt(&key, name);
        assert_eq!(decrypt(&key, &blob).unwrap(), name);
    }
}

#[test]
fn test_encrypt_fresh_nonce() {
    let key = fresh_key();
    let a = encrypt(&key, "same text");
    let b = encrypt(&key, "same text");
    assert_ne!(a, b);
    assert_eq!(decrypt(&key, &a).unwrap(), "same text");
    assert_eq!(decrypt(&key, &b).unwrap(), "same text");
}

#[test]
fn test_tamper_detection_every_bit() {
    let key = fresh_key();
    let blob = encrypt(&key, "tamper me");
    for byte_idx in NONCE_LEN..blob.len() {
        for bit in 0..8 {
            let mut tampered = blob.clone();
            tampered[byte_idx] ^= 1u8 << bit;
            match decrypt(&key, &tampered) {
                Err(CryptoError::AuthenticationFailed) => {}
                other => panic!("tampered blob accepted: {:?}", other),
            }
        }
    }
}

#[test]
fn test_wrong_key_fails_auth() {
    let key = fresh_key();
    let other_key = fresh_key();
    let blob = encrypt(&key, "secret name");
    assert_eq!(decrypt(&other_key, &blob).unwrap_err(), CryptoError::AuthenticationFailed);
}

#[test]
fn test_malformed_short_blob() {
    let key = fresh_key();
    let blob = encrypt(&key, "anything");
    assert_eq!(decrypt(&key, &blob[..NONCE_LEN - 1]).unwrap_err(), CryptoError::Malformed);
    assert_eq!(decrypt(&key, &[]).unwrap_err(), CryptoError::Malformed);
}

#[test]
fn test_invalid_encoding_plaintext() {
    let mut store = SecretStore::new_memory();
    let key_bytes = get_or_create_key(&mut store).unwrap();
    let key = sodiumoxide::crypto::secretbox::Key::from_slice(&key_bytes).unwrap();
    let nonce = sodiumoxide::crypto::secretbox::gen_nonce();
    let ct = sodiumoxide::crypto::secretbox::seal(&[0xff, 0xfe, 0xff], &nonce, &key);
    let mut blob = nonce.0.to_vec();
    blob.extend(ct);
    assert_eq!(decrypt(&key_bytes, &blob).unwrap_err(), CryptoError::InvalidEncoding);
}

#[test]
fn test_key_stability() {
    let mut store = SecretStore::new_memory();
    let k1 = get_or_create_key(&mut store).unwrap();
    let k2 = get_or_create_key(&mut store).unwrap();
    assert_eq!(k1, k2);
    assert_eq!(k1.len(), 32);
}

#[test]
fn test_key_malformed_entry() {
    let mut store = SecretStore::new_memory();
    store.set("sex-cli", "project-encryption-key", "@@@ not base64 @@@").unwrap();
    assert_eq!(
        get_or_create_key(&mut store).unwrap_err(),
        StoreError::Crypto(CryptoError::Malformed)
    );
}

#[test]
fn test_key_wrong_length_entry() {
    let mut store = SecretStore::new_memory();
    store.set("sex-cli", "project-encryption-key", "AAAA").unwrap();
    assert_eq!(
        get_or_create_key(&mut store).unwrap_err(),
        StoreError::Crypto(CryptoError::Malformed)
    );
}
