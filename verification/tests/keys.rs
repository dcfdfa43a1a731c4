//! The registry of hardware keys, and the forms in which keys are read.

use base64::Engine;
use keyquorum::error::{Error, StoreError};
use keyquorum::key_tree::{split, NodeSpec, TreeStore};
use keyquorum::keys::{
    encryption_public_from_secret, fingerprint, generate_encryption_keypair,
    generate_signing_keypair, get_active_encryption_key, get_key, get_key_by_public_key, list_keys,
    parse_key_text, register_key, remove_key, revoke_key, KeyRegistry, KeyType,
};

const CREATED: &str = "2026-01-01 00:00:00";

/// What stands before an X25519 public key in its standard encoding.
const SPKI_X25519: [u8; 12] = [
    0x30, 0x2a, 0x30, 0x05, 0x06, 0x03, 0x2b, 0x65, 0x6e, 0x03, 0x21, 0x00,
];

#[test]
fn keys_keypair_generation_is_distinct_across_calls() {
    let (sk_a, pk_a) = generate_encryption_keypair();
    let (sk_b, pk_b) = generate_encryption_keypair();
    assert_ne!(sk_a, sk_b);
    assert_ne!(pk_a, pk_b);

    let (sign_sk_a, sign_pk_a) = generate_signing_keypair();
    let (sign_sk_b, sign_pk_b) = generate_signing_keypair();
    assert_ne!(sign_sk_a, sign_sk_b);
    assert_ne!(sign_pk_a, sign_pk_b);
}

#[test]
fn keys_register_and_list_roundtrip() {
    let mut registry = KeyRegistry::new();
    let (_, public_key) = generate_encryption_keypair();
    let id = register_key(&mut registry, "Alice", KeyType::Encryption, &public_key, CREATED)
        .expect("register_key should succeed");

    let key = get_key(&registry, id).expect("get_key should succeed");
    assert_eq!(key.label, "Alice");
    assert_eq!(key.key_type, KeyType::Encryption);
    assert_eq!(key.public_key, public_key);
    assert_eq!(key.fingerprint, fingerprint(&public_key));
    assert!(key.revoked_at.is_none());

    let keys = list_keys(&registry);
    assert_eq!(keys.len(), 1);
    assert_eq!(keys[0].id, id);
}

#[test]
fn keys_register_key_rejects_wrong_length_public_key() {
    let mut registry = KeyRegistry::new();
    let result = register_key(&mut registry, "Alice", KeyType::Encryption, &[0u8; 31], CREATED);
    assert!(matches!(result, Err(Error::InvalidPublicKey)));

    let keys = list_keys(&registry);
    assert!(keys.is_empty());
}

#[test]
fn keys_duplicate_fingerprint_is_rejected() {
    let mut registry = KeyRegistry::new();
    let (_, public_key) = generate_encryption_keypair();
    register_key(&mut registry, "Alice", KeyType::Encryption, &public_key, CREATED)
        .expect("first register_key should succeed");

    let result = register_key(&mut registry, "Alice (copy)", KeyType::Encryption, &public_key, CREATED);
    assert!(matches!(result, Err(Error::Db(_))));
}

#[test]
fn keys_revoke_sets_revoked_at() {
    let mut registry = KeyRegistry::new();
    let (_, public_key) = generate_encryption_keypair();
    let id = register_key(&mut registry, "Alice", KeyType::Encryption, &public_key, CREATED)
        .expect("register_key should succeed");

    revoke_key(&mut registry, id, CREATED);
    let key = get_key(&registry, id).expect("get_key should succeed");
    assert!(key.revoked_at.is_some());
}

#[test]
fn keys_remove_key_succeeds_when_unused() {
    let mut registry = KeyRegistry::new();
    let (_, public_key) = generate_encryption_keypair();
    let id = register_key(&mut registry, "Alice", KeyType::Encryption, &public_key, CREATED)
        .expect("register_key should succeed");

    remove_key(&mut registry, &TreeStore::new(), id).expect("remove_key should succeed");
    assert!(get_key(&registry, id).is_err());
}

#[test]
fn keys_get_active_encryption_key_rejects_revoked_key() {
    let mut registry = KeyRegistry::new();
    let (_, public_key) = generate_encryption_keypair();
    let id = register_key(&mut registry, "Alice", KeyType::Encryption, &public_key, CREATED)
        .expect("register_key should succeed");
    revoke_key(&mut registry, id, CREATED);

    let result = get_active_encryption_key(&registry, id);
    assert!(matches!(result, Err(Error::KeyRevoked)));
}

#[test]
fn keys_get_active_encryption_key_rejects_signing_key() {
    let mut registry = KeyRegistry::new();
    let (_, public_key) = generate_signing_keypair();
    let id = register_key(&mut registry, "Alice", KeyType::Signing, &public_key, CREATED)
        .expect("register_key should succeed");

    let result = get_active_encryption_key(&registry, id);
    assert!(matches!(result, Err(Error::WrongKeyType)));
}

#[test]
fn keys_get_active_encryption_key_accepts_active_encryption_key() {
    let mut registry = KeyRegistry::new();
    let (_, public_key) = generate_encryption_keypair();
    let id = register_key(&mut registry, "Alice", KeyType::Encryption, &public_key, CREATED)
        .expect("register_key should succeed");

    let key = get_active_encryption_key(&registry, id).expect("key should be active");
    assert_eq!(key.id, id);
}

#[test]
fn keys_get_key_by_public_key_finds_the_registered_row() {
    let mut registry = KeyRegistry::new();
    let (_, public_key) = generate_encryption_keypair();
    let id = register_key(&mut registry, "Alice", KeyType::Encryption, &public_key, CREATED)
        .expect("register_key should succeed");

    let key = get_key_by_public_key(&registry, &public_key).expect("lookup should succeed");
    assert_eq!(key.id, id);
    assert!(get_key_by_public_key(&registry, &[0u8; 32]).is_err());
}

#[test]
fn keys_parse_key_text_accepts_hex_pem_and_openssh() {
    let raw = [0x11u8; 32];
    assert_eq!(parse_key_text(&hex::encode(raw)).unwrap(), raw);

    let pem_body = Engine::encode(&base64::engine::general_purpose::STANDARD, raw);
    let pem = format!("-----BEGIN PUBLIC KEY-----\n{pem_body}\n-----END PUBLIC KEY-----\n");
    assert_eq!(parse_key_text(&pem).unwrap(), raw);

    let mut spki = SPKI_X25519.to_vec();
    spki.extend_from_slice(&raw);
    let spki_pem = format!(
        "-----BEGIN PUBLIC KEY-----\n{}\n-----END PUBLIC KEY-----\n",
        Engine::encode(&base64::engine::general_purpose::STANDARD, spki)
    );
    assert_eq!(parse_key_text(&spki_pem).unwrap(), raw);

    let mut openssh_blob = Vec::from(*b"\x00\x00\x00\x0bssh-ed25519\x00\x00\x00\x20");
    openssh_blob.extend_from_slice(&raw);
    let line = format!(
        "ssh-ed25519 {} alice@host",
        Engine::encode(&base64::engine::general_purpose::STANDARD, openssh_blob)
    );
    assert_eq!(parse_key_text(&line).unwrap(), raw);
}

#[test]
fn keys_parse_key_text_rejects_non_curve_pem_and_openssh() {
    let raw = [0x22u8; 40];
    let rsa_pem = format!(
        "-----BEGIN RSA PUBLIC KEY-----\n{}\n-----END RSA PUBLIC KEY-----\n",
        Engine::encode(&base64::engine::general_purpose::STANDARD, raw)
    );
    assert!(parse_key_text(&rsa_pem).is_err());

    let public_pem = format!(
        "-----BEGIN PUBLIC KEY-----\n{}\n-----END PUBLIC KEY-----\n",
        Engine::encode(&base64::engine::general_purpose::STANDARD, raw)
    );
    assert!(parse_key_text(&public_pem).is_err());

    let mut ssh_rsa = Vec::from(*b"\x00\x00\x00\x07ssh-rsa\x00\x00\x00\x20");
    ssh_rsa.extend_from_slice(&[0x33u8; 32]);
    let line = format!(
        "ssh-rsa {} alice@host",
        Engine::encode(&base64::engine::general_purpose::STANDARD, ssh_rsa)
    );
    assert!(parse_key_text(&line).is_err());
}

#[test]
fn keys_encryption_public_from_secret_matches_generated_pair() {
    let (secret, public) = generate_encryption_keypair();
    assert_eq!(encryption_public_from_secret(&secret), public);
}

#[test]
fn register_keypair_generation_is_distinct_across_calls() {
    let (sk_a, pk_a) = generate_encryption_keypair();
    let (sk_b, pk_b) = generate_encryption_keypair();
    assert_ne!(sk_a, sk_b);
    assert_ne!(pk_a, pk_b);

    let (sign_sk_a, sign_pk_a) = generate_signing_keypair();
    let (sign_sk_b, sign_pk_b) = generate_signing_keypair();
    assert_ne!(sign_sk_a, sign_sk_b);
    assert_ne!(sign_pk_a, sign_pk_b);
}

#[test]
fn register_register_and_list_roundtrip() {
    let mut registry = KeyRegistry::new();
    let (_, public_key) = generate_encryption_keypair();
    let id = register_key(&mut registry, "Alice", KeyType::Encryption, &public_key, CREATED)
        .expect("register_key should succeed");

    let key = get_key(&registry, id).expect("get_key should succeed");
    assert_eq!(key.label, "Alice");
    assert_eq!(key.key_type, KeyType::Encryption);
    assert_eq!(key.public_key, public_key);
    assert_eq!(key.fingerprint, fingerprint(&public_key));
    assert!(key.revoked_at.is_none());

    let keys = list_keys(&registry);
    assert_eq!(keys.len(), 1);
    assert_eq!(keys[0].id, id);
}

#[test]
fn register_register_key_rejects_wrong_length_public_key() {
    let mut registry = KeyRegistry::new();
    let result = register_key(&mut registry, "Alice", KeyType::Encryption, &[0u8; 31], CREATED);
    assert!(matches!(result, Err(Error::InvalidPublicKey)));

    let keys = list_keys(&registry);
    assert!(keys.is_empty());
}

#[test]
fn register_duplicate_fingerprint_is_rejected() {
    let mut registry = KeyRegistry::new();
    let (_, public_key) = generate_encryption_keypair();
    register_key(&mut registry, "Alice", KeyType::Encryption, &public_key, CREATED)
        .expect("first register_key should succeed");

    let result = register_key(&mut registry, "Alice (copy)", KeyType::Encryption, &public_key, CREATED);
    assert!(matches!(result, Err(Error::Db(_))));
}

#[test]
fn register_revoke_sets_revoked_at() {
    let mut registry = KeyRegistry::new();
    let (_, public_key) = generate_encryption_keypair();
    let id = register_key(&mut registry, "Alice", KeyType::Encryption, &public_key, CREATED)
        .expect("register_key should succeed");

    revoke_key(&mut registry, id, CREATED);
    let key = get_key(&registry, id).expect("get_key should succeed");
    assert!(key.revoked_at.is_some());
}

#[test]
fn register_remove_key_succeeds_when_unused() {
    let mut registry = KeyRegistry::new();
    let (_, public_key) = generate_encryption_keypair();
    let id = register_key(&mut registry, "Alice", KeyType::Encryption, &public_key, CREATED)
        .expect("register_key should succeed");

    remove_key(&mut registry, &TreeStore::new(), id).expect("remove_key should succeed");
    assert!(get_key(&registry, id).is_err());
}

#[test]
fn register_get_active_encryption_key_rejects_revoked_key() {
    let mut registry = KeyRegistry::new();
    let (_, public_key) = generate_encryption_keypair();
    let id = register_key(&mut registry, "Alice", KeyType::Encryption, &public_key, CREATED)
        .expect("register_key should succeed");
    revoke_key(&mut registry, id, CREATED);

    let result = get_active_encryption_key(&registry, id);
    assert!(matches!(result, Err(Error::KeyRevoked)));
}

#[test]
fn register_get_active_encryption_key_rejects_signing_key() {
    let mut registry = KeyRegistry::new();
    let (_, public_key) = generate_signing_keypair();
    let id = register_key(&mut registry, "Alice", KeyType::Signing, &public_key, CREATED)
        .expect("register_key should succeed");

    let result = get_active_encryption_key(&registry, id);
    assert!(matches!(result, Err(Error::WrongKeyType)));
}

#[test]
fn register_get_active_encryption_key_accepts_active_encryption_key() {
    let mut registry = KeyRegistry::new();
    let (_, public_key) = generate_encryption_keypair();
    let id = register_key(&mut registry, "Alice", KeyType::Encryption, &public_key, CREATED)
        .expect("register_key should succeed");

    let key = get_active_encryption_key(&registry, id).expect("key should be active");
    assert_eq!(key.id, id);
}

#[test]
fn register_get_key_by_public_key_finds_the_registered_row() {
    let mut registry = KeyRegistry::new();
    let (_, public_key) = generate_encryption_keypair();
    let id = register_key(&mut registry, "Alice", KeyType::Encryption, &public_key, CREATED)
        .expect("register_key should succeed");

    let key = get_key_by_public_key(&registry, &public_key).expect("lookup should succeed");
    assert_eq!(key.id, id);
    assert!(get_key_by_public_key(&registry, &[0u8; 32]).is_err());
}

#[test]
fn parse_parse_key_text_accepts_hex_pem_and_openssh() {
    let raw = [0x11u8; 32];
    assert_eq!(parse_key_text(&hex::encode(raw)).unwrap(), raw);

    let pem_body = Engine::encode(&base64::engine::general_purpose::STANDARD, raw);
    let pem = format!("-----BEGIN PUBLIC KEY-----\n{pem_body}\n-----END PUBLIC KEY-----\n");
    assert_eq!(parse_key_text(&pem).unwrap(), raw);

    let mut spki = SPKI_X25519.to_vec();
    spki.extend_from_slice(&raw);
    let spki_pem = format!(
        "-----BEGIN PUBLIC KEY-----\n{}\n-----END PUBLIC KEY-----\n",
        Engine::encode(&base64::engine::general_purpose::STANDARD, spki)
    );
    assert_eq!(parse_key_text(&spki_pem).unwrap(), raw);

    let mut openssh_blob = Vec::from(*b"\x00\x00\x00\x0bssh-ed25519\x00\x00\x00\x20");
    openssh_blob.extend_from_slice(&raw);
    let line = format!(
        "ssh-ed25519 {} alice@host",
        Engine::encode(&base64::engine::general_purpose::STANDARD, openssh_blob)
    );
    assert_eq!(parse_key_text(&line).unwrap(), raw);
}

#[test]
fn parse_parse_key_text_rejects_non_curve_pem_and_openssh() {
    let raw = [0x22u8; 40];
    let rsa_pem = format!(
        "-----BEGIN RSA PUBLIC KEY-----\n{}\n-----END RSA PUBLIC KEY-----\n",
        Engine::encode(&base64::engine::general_purpose::STANDARD, raw)
    );
    assert!(parse_key_text(&rsa_pem).is_err());

    let public_pem = format!(
        "-----BEGIN PUBLIC KEY-----\n{}\n-----END PUBLIC KEY-----\n",
        Engine::encode(&base64::engine::general_purpose::STANDARD, raw)
    );
    assert!(parse_key_text(&public_pem).is_err());

    let mut ssh_rsa = Vec::from(*b"\x00\x00\x00\x07ssh-rsa\x00\x00\x00\x20");
    ssh_rsa.extend_from_slice(&[0x33u8; 32]);
    let line = format!(
        "ssh-rsa {} alice@host",
        Engine::encode(&base64::engine::general_purpose::STANDARD, ssh_rsa)
    );
    assert!(parse_key_text(&line).is_err());
}

#[test]
fn parse_encryption_public_from_secret_matches_generated_pair() {
    let (secret, public) = generate_encryption_keypair();
    assert_eq!(encryption_public_from_secret(&secret), public);
}

#[test]
fn a_fingerprint_is_the_digest_in_hexadecimal() {
    assert_eq!(
        fingerprint(b"abc"),
        "ba7816bf8f01cfea414140de5dae2223b00361a396177a9cb410ff61f20015ad"
    );
}

#[test]
fn key_types_are_read_back() {
    assert_eq!(KeyType::from_db_str(KeyType::Encryption.as_str()), KeyType::Encryption);
    assert_eq!(KeyType::from_db_str(KeyType::Signing.as_str()), KeyType::Signing);
    assert_eq!(KeyType::Signing.as_str(), "signing");
}

#[test]
fn a_key_in_use_stays() {
    let mut registry = KeyRegistry::new();
    let mut trees = TreeStore::new();
    let (_, public_key) = generate_encryption_keypair();
    let id = register_key(&mut registry, "Alice", KeyType::Encryption, &public_key, CREATED)
        .expect("register_key should succeed");
    let leaf = NodeSpec::Leaf { label: "a".into(), hardware_key_id: id, allowed_bridges: vec![] };
    split(&mut trees, &registry, "lone", b"secret", &leaf).expect("split should succeed");
    assert_eq!(
        remove_key(&mut registry, &trees, id),
        Err(Error::Db(StoreError::ForeignKey))
    );
    let again = register_key(&mut registry, "Bob", KeyType::Encryption, &public_key, CREATED);
    assert_eq!(again, Err(Error::Db(StoreError::HardwareKeyFingerprint)));
    assert_eq!(list_keys(&registry).len(), 1);
}

#[test]
fn revoking_again_notes_the_later_moment() {
    let mut registry = KeyRegistry::new();
    let (_, public_key) = generate_encryption_keypair();
    let id = register_key(&mut registry, "Alice", KeyType::Encryption, &public_key, CREATED)
        .expect("register_key should succeed");
    revoke_key(&mut registry, id, "2026-02-01 00:00:00");
    revoke_key(&mut registry, id, "2026-03-01 00:00:00");
    assert_eq!(
        get_key(&registry, id).unwrap().revoked_at.as_deref(),
        Some("2026-03-01 00:00:00")
    );
}

#[test]
fn key_text_of_another_length_is_refused() {
    assert!(matches!(parse_key_text("abcd"), Err(Error::InvalidPublicKey)));
    assert!(matches!(parse_key_text(""), Err(Error::InvalidPublicKey)));
    assert!(matches!(parse_key_text(&"00".repeat(31)), Err(Error::InvalidPublicKey)));
    assert!(matches!(parse_key_text(&"00".repeat(33)), Err(Error::InvalidPublicKey)));
    assert_eq!(parse_key_text(&"07".repeat(32)).unwrap(), vec![7u8; 32]);
}

#[test]
fn white_space_around_a_key_does_not_matter() {
    let raw: Vec<u8> = (0u8..32).collect();
    let encode = |bytes: &[u8]| Engine::encode(&base64::engine::general_purpose::STANDARD, bytes);
    let mut blob = Vec::from(*b"\x00\x00\x00\x0bssh-ed25519\x00\x00\x00\x20");
    blob.extend_from_slice(&raw);
    let forms = [
        hex::encode(&raw),
        format!("-----BEGIN X25519 PRIVATE KEY-----\n{}\n-----END X25519 PRIVATE KEY-----", encode(&raw)),
        format!("ssh-ed25519 {}", encode(&blob)),
        format!("ssh-ed25519 {} a comment  of words", encode(&blob)),
    ];
    for form in &forms {
        assert_eq!(parse_key_text(form).unwrap(), raw);
        assert_eq!(parse_key_text(&format!(" \r\n\t{form}\n \n")).unwrap(), raw);
    }
}
