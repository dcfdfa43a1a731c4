//! Share links.

use keyquorum::error::{Error, StoreError};
use keyquorum::locked_files::{lock_file, LockedFiles};
use keyquorum::sharing::{
    add_share, create_credential_share, create_file_share, credential_share_id_for_token,
    file_share_id_for_token, hash_token, redeem_credential_share, redeem_file_share,
    revoke_credential_share, revoke_file_share, ShareKind, ShareTable,
};
use keyquorum::vault::{add_credential, Vault};

const NOW: i64 = 1_700_000_000;

fn seed_credential(vault: &mut Vault) -> i64 {
    add_credential(vault, "Email", None, "s3cr3t", "master-pw")
        .expect("add_credential should succeed")
}

#[test]
fn redeem_immediately_after_create_succeeds() {
    let mut vault = Vault::new();
    let mut shares = ShareTable::new();
    let credential_id = seed_credential(&mut vault);

    let share = create_credential_share(&mut shares, &vault, credential_id, 3600, None, NOW)
        .expect("create_credential_share should succeed");
    let resolved = redeem_credential_share(&mut shares, &share.token, NOW)
        .expect("redeem_credential_share should succeed");

    assert_eq!(resolved, credential_id);
}

#[test]
fn redeem_rejects_unknown_token() {
    let mut shares = ShareTable::new();
    let result = redeem_credential_share(&mut shares, "not-a-real-token", NOW);
    assert!(matches!(result, Err(Error::InvalidShareToken)));
}

#[test]
fn share_id_for_token_resolves_without_consuming_a_use() {
    let mut vault = Vault::new();
    let mut shares = ShareTable::new();
    let credential_id = seed_credential(&mut vault);
    let share = create_credential_share(&mut shares, &vault, credential_id, 3600, Some(1), NOW)
        .expect("create_credential_share should succeed");

    let peeked = credential_share_id_for_token(&shares, &share.token)
        .expect("credential_share_id_for_token should succeed");
    assert_eq!(peeked, share.id);

    // Peeking didn't consume the single allowed use.
    let resolved = redeem_credential_share(&mut shares, &share.token, NOW)
        .expect("redeem_credential_share should still succeed");
    assert_eq!(resolved, credential_id);
}

#[test]
fn redeem_rejects_expired_share() {
    let mut vault = Vault::new();
    let mut shares = ShareTable::new();
    let credential_id = seed_credential(&mut vault);

    let share = create_credential_share(&mut shares, &vault, credential_id, -1, None, NOW)
        .expect("create_credential_share should succeed");
    let result = redeem_credential_share(&mut shares, &share.token, NOW);

    assert!(matches!(result, Err(Error::ShareExpired)));
}

#[test]
fn redeem_rejects_revoked_share() {
    let mut vault = Vault::new();
    let mut shares = ShareTable::new();
    let credential_id = seed_credential(&mut vault);

    let share = create_credential_share(&mut shares, &vault, credential_id, 3600, None, NOW)
        .expect("create_credential_share should succeed");
    revoke_credential_share(&mut shares, share.id, NOW);
    let result = redeem_credential_share(&mut shares, &share.token, NOW);

    assert!(matches!(result, Err(Error::ShareRevoked)));
}

#[test]
fn redeem_enforces_max_uses() {
    let mut vault = Vault::new();
    let mut shares = ShareTable::new();
    let credential_id = seed_credential(&mut vault);

    let share = create_credential_share(&mut shares, &vault, credential_id, 3600, Some(1), NOW)
        .expect("create_credential_share should succeed");

    redeem_credential_share(&mut shares, &share.token, NOW).expect("first redemption should succeed");
    let second = redeem_credential_share(&mut shares, &share.token, NOW);

    assert!(matches!(second, Err(Error::ShareExhausted)));
}

#[test]
fn a_share_names_its_expiry_and_keeps_only_a_digest() {
    let mut vault = Vault::new();
    let mut shares = ShareTable::new();
    let id = seed_credential(&mut vault);
    let share = create_credential_share(&mut shares, &vault, id, 60, Some(2), NOW).unwrap();
    assert_eq!(share.expires_at, "2023-11-14 22:14:20");
    assert_eq!(shares.rows[0].expires_at, NOW + 60);
    assert_eq!(share.token.len(), 43);
    assert_ne!(shares.rows[0].token_hash, share.token);
    assert_eq!(Ok(shares.rows[0].token_hash.clone()), hash_token(&share.token));
    let other = create_credential_share(&mut shares, &vault, id, 60, Some(2), NOW).unwrap();
    assert_ne!(other.token, share.token);
}

#[test]
fn a_share_lasts_up_to_its_expiry() {
    let mut vault = Vault::new();
    let mut shares = ShareTable::new();
    let id = seed_credential(&mut vault);
    let share = create_credential_share(&mut shares, &vault, id, 60, None, NOW).unwrap();
    assert_eq!(redeem_credential_share(&mut shares, &share.token, NOW + 59), Ok(id));
    assert_eq!(
        redeem_credential_share(&mut shares, &share.token, NOW + 60),
        Err(Error::ShareExpired)
    );
    assert_eq!(shares.rows[0].use_count, 1);
}

#[test]
fn a_share_of_nothing_is_refused() {
    let vault = Vault::new();
    let mut shares = ShareTable::new();
    assert_eq!(
        create_credential_share(&mut shares, &vault, 1, 60, None, NOW).unwrap_err(),
        Error::Db(StoreError::ForeignKey)
    );
    assert!(shares.rows.is_empty());
}

#[test]
fn a_file_share_opens_its_file_until_revoked() {
    let mut files = LockedFiles::new();
    let mut shares = ShareTable::new();
    let (id, _) = lock_file(&mut files, "a.txt", "a.kqenc", b"text", "hunter2").unwrap();
    let share = create_file_share(&mut shares, &files, id, 60, None, NOW).unwrap();
    assert_eq!(file_share_id_for_token(&shares, &share.token), Ok(share.id));
    assert_eq!(redeem_file_share(&mut shares, &share.token, NOW), Ok(id));
    revoke_file_share(&mut shares, share.id, NOW);
    assert_eq!(
        redeem_file_share(&mut shares, &share.token, NOW),
        Err(Error::ShareRevoked)
    );
    assert_eq!(shares.rows[0].revoked_at, Some(NOW));
}

#[test]
fn each_refusal_of_a_share_names_its_constraint() {
    let mut shares = ShareTable::new();
    let add = |shares: &mut ShareTable, kind: ShareKind, known: bool, ttl: i64| {
        add_share(shares, kind, known, 7, "00".repeat(32), ttl, None, NOW)
    };
    let far = i64::MAX;
    assert_eq!(
        add(&mut shares, ShareKind::Credential, false, far).unwrap_err().message(),
        "database error: NOT NULL constraint failed: credential_shares.expires_at"
    );
    assert_eq!(
        add(&mut shares, ShareKind::File, true, far).unwrap_err().message(),
        "database error: NOT NULL constraint failed: file_shares.expires_at"
    );
    assert_eq!(
        add(&mut shares, ShareKind::File, false, 60).unwrap_err().message(),
        "database error: FOREIGN KEY constraint failed"
    );
    assert!(shares.rows.is_empty());
    assert_eq!(add(&mut shares, ShareKind::Credential, true, 60).unwrap().0, 1);
    assert_eq!(
        add(&mut shares, ShareKind::Credential, false, 60).unwrap_err().message(),
        "database error: UNIQUE constraint failed: credential_shares.token_hash"
    );
    assert_eq!(
        add(&mut shares, ShareKind::File, true, 60).unwrap_err().message(),
        "database error: UNIQUE constraint failed: file_shares.token_hash"
    );
    assert_eq!(shares.rows.len(), 1);
}

#[test]
fn a_share_beyond_the_calendar_is_refused_before_its_resource_is_missed() {
    let vault = Vault::new();
    let mut shares = ShareTable::new();
    assert_eq!(
        create_credential_share(&mut shares, &vault, 1, i64::MAX, None, NOW).unwrap_err(),
        Error::Db(StoreError::CredentialShareEnd)
    );
}
