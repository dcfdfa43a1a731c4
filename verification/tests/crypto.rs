//! Keys from passwords, and authenticated encryption.

use keyquorum::crypto::{
    decrypt, derive_key, encrypt, key_of, nonce_of, random_key, random_nonce, random_salt, salt_of,
};
use keyquorum::error::Error;

#[test]
fn derive_key_is_deterministic_for_same_password_and_salt() {
    let salt = random_salt();
    let a = derive_key("correct horse battery staple", &salt).unwrap();
    let b = derive_key("correct horse battery staple", &salt).unwrap();
    assert_eq!(a, b);
}

#[test]
fn random_key_differs_across_calls() {
    let a = random_key();
    let b = random_key();
    assert_ne!(a, b);
}

#[test]
fn derive_key_differs_for_different_passwords() {
    let salt = random_salt();
    let a = derive_key("password-one", &salt).unwrap();
    let b = derive_key("password-two", &salt).unwrap();
    assert_ne!(a, b);
}

#[test]
fn encrypt_decrypt_roundtrip() {
    let key = derive_key("hunter2", &random_salt()).unwrap();
    let nonce = random_nonce();
    let plaintext = b"the quorum has been reached";

    let ciphertext = encrypt(&key, &nonce, plaintext);
    let decrypted = decrypt(&key, &nonce, &ciphertext).unwrap();

    assert_eq!(decrypted, plaintext);
}

#[test]
fn decrypt_fails_with_wrong_key() {
    let salt = random_salt();
    let nonce = random_nonce();
    let key = derive_key("hunter2", &salt).unwrap();
    let wrong_key = derive_key("not-hunter2", &salt).unwrap();

    let ciphertext = encrypt(&key, &nonce, b"top secret");

    assert!(decrypt(&wrong_key, &nonce, &ciphertext).is_err());
}

#[test]
fn a_short_salt_gives_no_key() {
    assert_eq!(derive_key("hunter2", &[0u8; 7]), Err(Error::KeyDerivationFailed));
    assert!(derive_key("hunter2", &[0u8; 8]).is_ok());
}

#[test]
fn a_key_is_the_one_that_argon2_derives() {
    let mut expected = [0u8; 32];
    argon2::Argon2::default()
        .hash_password_into(b"hunter2", &[7u8; 16], &mut expected)
        .expect("a password and a salt in range");
    assert_eq!(derive_key("hunter2", &[7u8; 16]), Ok(expected));
}

#[test]
fn a_changed_ciphertext_is_refused() {
    let key = random_key();
    let nonce = random_nonce();
    let mut ciphertext = encrypt(&key, &nonce, b"top secret");
    assert_eq!(ciphertext.len(), 26);
    assert_ne!(&ciphertext[..10], b"top secret");
    ciphertext[0] ^= 1;
    let refused = decrypt(&key, &nonce, &ciphertext).unwrap_err();
    assert_eq!(refused.message(), "decryption failed: wrong key or corrupted ciphertext");
}

#[test]
fn drawn_bytes_are_taken_as_they_are() {
    let drawn: Vec<u8> = (1u8..=32).collect();
    assert_eq!(salt_of(&drawn[..16]).as_slice(), &drawn[..16]);
    assert_eq!(nonce_of(&drawn[4..16]).as_slice(), &drawn[4..16]);
    assert_eq!(key_of(&drawn).as_slice(), drawn.as_slice());
}

#[test]
fn salts_and_nonces_differ_across_calls() {
    assert_ne!(random_salt(), random_salt());
    assert_ne!(random_nonce(), random_nonce());
}
