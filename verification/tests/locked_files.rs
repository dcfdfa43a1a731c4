//! Files under a password.

use keyquorum::error::{Error, StoreError};
use keyquorum::locked_files::{lock_file, unlock_file, LockedFiles};

#[test]
fn lock_and_unlock_roundtrip() {
    let mut files = LockedFiles::new();
    let (id, ciphertext) = lock_file(
        &mut files,
        "secret.txt",
        "secret.txt.kqenc",
        b"the quorum has been reached",
        "hunter2",
    )
    .expect("lock_file should succeed");
    let plaintext =
        unlock_file(&files, id, &ciphertext, "hunter2").expect("unlock_file should succeed");

    assert_eq!(plaintext, b"the quorum has been reached");
}

#[test]
fn unlock_fails_with_wrong_password() {
    let mut files = LockedFiles::new();
    let (id, ciphertext) = lock_file(
        &mut files,
        "secret.txt",
        "secret.txt.kqenc",
        b"the quorum has been reached",
        "hunter2",
    )
    .expect("lock_file should succeed");
    let result = unlock_file(&files, id, &ciphertext, "not-hunter2");

    assert!(matches!(result, Err(Error::InvalidPassword)));
}

#[test]
fn reusing_an_encrypted_path_fails_without_touching_the_original() {
    let mut files = LockedFiles::new();
    let (_, ciphertext) = lock_file(
        &mut files,
        "secret.txt",
        "secret.txt.kqenc",
        b"the quorum has been reached",
        "hunter2",
    )
    .expect("first lock_file should succeed");

    let second = lock_file(
        &mut files,
        "other.txt",
        "secret.txt.kqenc",
        b"a different secret",
        "different-pw",
    );
    assert!(second.is_err());

    let kept: Vec<_> = files
        .rows
        .iter()
        .filter(|row| row.encrypted_path == "secret.txt.kqenc")
        .collect();
    assert_eq!(kept.len(), 1, "original row should still exist");
    let plaintext = unlock_file(&files, kept[0].id, &ciphertext, "hunter2")
        .expect("original file should remain decryptable with its original password");
    assert_eq!(plaintext, b"the quorum has been reached");
}

#[test]
fn a_locked_file_is_recorded_with_what_opens_it() {
    let mut files = LockedFiles::new();
    let (id, ciphertext) = lock_file(&mut files, "a.txt", "a.kqenc", b"text", "hunter2").unwrap();
    assert_eq!(id, 1);
    assert_eq!(ciphertext.len(), 4 + 16);
    assert_ne!(&ciphertext[..4], b"text");
    assert_eq!(files.rows[0].name, "a.txt");
    assert_eq!(files.rows[0].kdf_salt.len(), 16);
    assert_eq!(files.rows[0].nonce.len(), 12);
    assert_eq!(
        lock_file(&mut files, "b.txt", "a.kqenc", b"text", "hunter2").unwrap_err(),
        Error::Db(StoreError::LockedFilePath)
    );
}

#[test]
fn an_unknown_file_is_no_row() {
    let files = LockedFiles::new();
    assert_eq!(
        unlock_file(&files, 1, b"", "hunter2").unwrap_err(),
        Error::Db(StoreError::NoRows)
    );
}
