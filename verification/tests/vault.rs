//! Credentials under a master password.

use keyquorum::error::{Error, StoreError};
use keyquorum::vault::{add_credential, get_credential, password_of, Vault};

#[test]
fn vault_add_and_get_credential_roundtrip() {
    let mut vault = Vault::new();
    let id = add_credential(&mut vault, "Email", Some("bailey"), "s3cr3t", "master-pw")
        .expect("add_credential should succeed");

    let credential =
        get_credential(&vault, id, "master-pw").expect("get_credential should succeed");

    assert_eq!(credential.label, "Email");
    assert_eq!(credential.username.as_deref(), Some("bailey"));
    assert_eq!(credential.password, "s3cr3t");
}

#[test]
fn vault_get_credential_fails_with_wrong_master_password() {
    let mut vault = Vault::new();
    let id = add_credential(&mut vault, "Email", None, "s3cr3t", "master-pw")
        .expect("add_credential should succeed");

    let result = get_credential(&vault, id, "wrong-master-pw");
    assert!(matches!(result, Err(Error::InvalidPassword)));
}

#[test]
fn tests_add_and_get_credential_roundtrip() {
    let mut vault = Vault::new();
    let id = add_credential(&mut vault, "Email", Some("bailey"), "s3cr3t", "master-pw")
        .expect("add_credential should succeed");

    let credential = get_credential(&vault, id, "master-pw").expect("get_credential should succeed");

    assert_eq!(credential.label, "Email");
    assert_eq!(credential.username.as_deref(), Some("bailey"));
    assert_eq!(credential.password, "s3cr3t");
}

#[test]
fn tests_get_credential_fails_with_wrong_master_password() {
    let mut vault = Vault::new();
    let id = add_credential(&mut vault, "Email", None, "s3cr3t", "master-pw")
        .expect("add_credential should succeed");

    let result = get_credential(&vault, id, "wrong-master-pw");
    assert!(matches!(result, Err(Error::InvalidPassword)));
}

#[test]
fn a_password_is_kept_sealed() {
    let mut vault = Vault::new();
    let first = add_credential(&mut vault, "Email", None, "s3cr3t", "master-pw").unwrap();
    let second = add_credential(&mut vault, "Bank", None, "s3cr3t", "master-pw").unwrap();
    assert_eq!((first, second), (1, 2));
    assert_ne!(vault.rows[0].ciphertext, b"s3cr3t");
    assert_ne!(vault.rows[0].ciphertext, vault.rows[1].ciphertext);
    assert_eq!(get_credential(&vault, second, "master-pw").unwrap().label, "Bank");
}

#[test]
fn an_unknown_credential_is_no_row() {
    let vault = Vault::new();
    assert_eq!(
        get_credential(&vault, 1, "master-pw").unwrap_err(),
        Error::Db(StoreError::NoRows)
    );
}

#[test]
fn bytes_that_are_no_text_fail_the_integrity_check() {
    assert_eq!(password_of(Ok(vec![0xff, 0xfe])), Err(Error::IntegrityCheckFailed));
    assert_eq!(password_of(Ok(vec![0x73, 0x33])), Ok("s3".to_string()));
}
