//! Bundles, stored bearers, addresses and times.

use keyquorum::clock::{after, instant_text, utc_text};
use keyquorum::encoding::{parse_hex, parse_hex_32, parse_hex_64};
use keyquorum::error::{Error, StoreError};
use keyquorum::export::{encode_len_prefixed, export_credential, export_file, frame_bundle};
use keyquorum::keys::generate_encryption_keypair;
use keyquorum::locked_files::{lock_file, LockedFiles};
use keyquorum::relay::client::{
    authorization, inbox_url, join_url, tree_context_url, urlencoding_label,
};
use keyquorum::relay::credential::{
    delete, get, get_for_scope, normalize_url, save, touch_checked, RelayKeys, StoredRelayKey,
};
use keyquorum::vault::{add_credential, Vault};

const NOW: i64 = 1_767_225_600;

fn unsealed(bundle: &[u8], kind: u8, public: &[u8; 32], secret: &[u8; 32]) -> Vec<u8> {
    assert_eq!(&bundle[..4], b"KQXB");
    assert_eq!(bundle[5], kind);
    assert_eq!(&bundle[6..38], public);
    let len = u32::from_be_bytes([bundle[38], bundle[39], bundle[40], bundle[41]]);
    assert_eq!(bundle.len(), 42 + len as usize);
    crypto_box::SecretKey::from(*secret)
        .unseal(&bundle[42..])
        .expect("sealed to the recipient")
}

#[test]
fn an_exported_credential_opens_for_its_recipient() {
    let mut vault = Vault::new();
    let id = add_credential(&mut vault, "Email", Some("bailey"), "s3cr3t", "master-pw").unwrap();
    let (secret, public) = generate_encryption_keypair();
    let bundle = export_credential(&vault, id, "master-pw", &public).unwrap();
    let payload = unsealed(&bundle, 1, &public, &secret);
    let mut expected = Vec::new();
    for field in [&b"Email"[..], b"bailey", b"s3cr3t"] {
        encode_len_prefixed(&mut expected, field).unwrap();
    }
    assert_eq!(payload, expected);
    assert_eq!(
        export_credential(&vault, id, "wrong", &public),
        Err(Error::InvalidPassword)
    );
}

#[test]
fn nothing_is_exported_to_a_weak_key() {
    let mut vault = Vault::new();
    let id = add_credential(&mut vault, "Email", None, "s3cr3t", "master-pw").unwrap();
    assert_eq!(
        export_credential(&vault, id, "master-pw", &[0u8; 32]),
        Err(Error::InvalidPublicKey)
    );
}

#[test]
fn an_exported_file_opens_for_its_recipient() {
    let mut files = LockedFiles::new();
    let (id, ciphertext) = lock_file(&mut files, "a.txt", "a.kqenc", b"text", "hunter2").unwrap();
    let (secret, public) = generate_encryption_keypair();
    let bundle = export_file(&files, id, &ciphertext, "hunter2", &public).unwrap();
    let payload = unsealed(&bundle, 2, &public, &secret);
    assert_eq!(payload, b"\x00\x05a.txttext");
    assert_eq!(
        export_file(&files, 9, &ciphertext, "hunter2", &public),
        Err(Error::Db(StoreError::NoRows))
    );
}

#[test]
fn a_frame_is_laid_out_byte_by_byte() {
    let framed = frame_bundle(1, &[7u8; 32], b"abc").unwrap();
    let mut expected = b"KQXB".to_vec();
    expected.push(1);
    expected.push(1);
    expected.extend_from_slice(&[7u8; 32]);
    expected.extend_from_slice(&[0, 0, 0, 3]);
    expected.extend_from_slice(b"abc");
    assert_eq!(framed, expected);
    let mut out = vec![9];
    encode_len_prefixed(&mut out, b"ab").unwrap();
    assert_eq!(out, vec![9, 0, 2, 0x61, 0x62]);
    assert_eq!(
        encode_len_prefixed(&mut out, &[0u8; 0x10000]),
        Err(Error::BundleFieldTooLarge)
    );
    assert_eq!(out.len(), 5);
}

fn bearer(url: &str, scope: &str, token: &str) -> StoredRelayKey {
    StoredRelayKey {
        relay_url: url.into(),
        scope: scope.into(),
        key_hash: "ab".repeat(32),
        token: token.into(),
        remote_id: Some(4),
        label: None,
    }
}

#[test]
fn a_stored_bearer_is_read_back_and_kept_sealed() {
    let mut held = RelayKeys::new();
    save(&mut held, &bearer("http://relay/", "inbox.push", "kq_one"), NOW);
    save(&mut held, &bearer("http://relay", "inbox.pull", "kq_two"), NOW);
    assert_ne!(held.rows[0].wrapped_token, b"kq_one");
    let read = get(&held, "http://relay", "inbox.push").unwrap().expect("held");
    assert_eq!((read.token.as_str(), read.remote_id), ("kq_one", Some(4)));
    assert_eq!(get_for_scope(&held, "inbox.pull").unwrap().len(), 1);

    save(&mut held, &bearer("http://relay", "inbox.push", "kq_three"), NOW + 1);
    assert_eq!(held.rows.len(), 2);
    let read = get(&held, "http://relay/", "inbox.push").unwrap().expect("held");
    assert_eq!(read.token, "kq_three");

    touch_checked(&mut held, "http://relay", "inbox.push", NOW + 9);
    assert!(held.rows.iter().any(|row| row.last_checked_at == NOW + 9));
    delete(&mut held, "http://relay", "inbox.push");
    assert!(get(&held, "http://relay", "inbox.push").unwrap().is_none());
    assert_eq!(held.rows.len(), 1);
}

#[test]
fn a_spoiled_bearer_fails_the_integrity_check() {
    let mut held = RelayKeys::new();
    save(&mut held, &bearer("http://relay", "inbox.push", "kq_one"), NOW);
    held.rows[0].wrapped_token[0] ^= 1;
    assert_eq!(
        get(&held, "http://relay", "inbox.push").unwrap_err(),
        Error::IntegrityCheckFailed
    );
}

#[test]
fn addresses_are_put_together() {
    assert_eq!(join_url("http://relay//", "/health"), "http://relay/health");
    assert_eq!(inbox_url("http://relay/", Some(7)), "http://relay/inbox?after=7");
    assert_eq!(inbox_url("http://relay", None), "http://relay/inbox");
    assert_eq!(authorization("kq_a"), "Bearer kq_a");
    assert_eq!(urlencoding_label("a b/\u{e9}~"), "a%20b%2F%C3%A9~");
    assert_eq!(
        tree_context_url("http://relay", "my org"),
        "http://relay/trees/my%20org/context"
    );
    assert_eq!(normalize_url("http://relay//"), "http://relay");
}

#[test]
fn times_are_written_in_universal_time() {
    assert_eq!(utc_text(0), "1970-01-01 00:00:00");
    assert_eq!(utc_text(NOW), "2026-01-01 00:00:00");
    assert_eq!(utc_text(951_782_399), "2000-02-28 23:59:59");
    assert_eq!(utc_text(951_782_400), "2000-02-29 00:00:00");
    assert_eq!(utc_text(-1), "1969-12-31 23:59:59");
    assert_eq!(utc_text(-2_203_891_200), "1900-03-01 00:00:00");
    assert_eq!(utc_text(253_402_300_799), "9999-12-31 23:59:59");
    assert_eq!(instant_text(NOW), utc_text(NOW));
    assert_eq!(after(NOW, 60), Some(NOW + 60));
    assert_eq!(after(NOW, i64::MAX), None);
    assert_eq!(after(NOW, i64::MIN), None);
}

#[test]
fn hexadecimal_is_read_in_either_case() {
    assert_eq!(parse_hex("0aFf"), Ok(vec![0x0a, 0xff]));
    assert!(parse_hex("0a0").is_err());
    assert_eq!(parse_hex_32(&"0b".repeat(32)), Ok([0x0b; 32]));
    assert!(parse_hex_32("0b").is_err());
    assert_eq!(parse_hex_64(&"0c".repeat(64)), Ok([0x0c; 64]));
    assert!(parse_hex_64("0c").is_err());
}

#[test]
fn every_error_has_its_own_message() {
    let messages = [
        (Error::InvalidPath, "path is not valid UTF-8"),
        (Error::InvalidPassword, "incorrect password"),
        (Error::Db(StoreError::NoRows), "database error: Query returned no rows"),
        (Error::Db(StoreError::ForeignKey), "database error: FOREIGN KEY constraint failed"),
        (
            Error::Db(StoreError::HardwareKeyFingerprint),
            "database error: UNIQUE constraint failed: hardware_keys.fingerprint",
        ),
        (
            Error::Db(StoreError::ApiKeyHash),
            "database error: UNIQUE constraint failed: api_keys.key_hash",
        ),
        (
            Error::Db(StoreError::QuorumFilePath),
            "database error: UNIQUE constraint failed: files.encrypted_path",
        ),
        (
            Error::Db(StoreError::LockedFilePath),
            "database error: UNIQUE constraint failed: password_locked_files.encrypted_path",
        ),
        (
            Error::Db(StoreError::NodePeer),
            "database error: UNIQUE constraint failed: \
             key_node_bridges.node_id, key_node_bridges.peer_label",
        ),
        (Error::PinMismatch, "incorrect PIN"),
        (Error::QuorumNotMet, "not enough valid shares to reconstruct this key"),
        (Error::ShareExhausted, "share link has reached its use limit"),
        (Error::WrongKeyType, "hardware key is not the required type"),
    ];
    for (error, message) in messages {
        assert_eq!(error.message(), message);
    }
}
