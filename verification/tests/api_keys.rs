//! Bearers of the relay: made, checked, rotated and revoked.

use keyquorum::cli::host::{list_api_keys, run_keys, KeysCommand};
use keyquorum::error::{Error, StoreError};
use keyquorum::keys::{fingerprint, generate_encryption_keypair};
use keyquorum::relay::api_key::{create, list, revoke, rotate, rotate_to};
use keyquorum::relay::{
    authenticate, authenticate_licensee, authorize_licensee_or_bootstrap, bootstrap_admin_if_empty,
    bootstrap_licensee_if_empty, check_hash, check_token, hash_bearer, ApiKeyScope, ApiKeys,
    Licensees, NewApiKey,
};

const NOW: i64 = 1_767_225_600;

const CREATED: &str = "2026-01-01 00:00:00";

#[test]
fn api_key_lifecycle_create_validate_rotate_revoke() {
    let mut keys = ApiKeys::new();
    let created = create(
        &mut keys,
        &NewApiKey {
            scope: ApiKeyScope::InboxPush,
            recipient_fingerprint: None,
            label: Some("ops".into()),
            ttl_seconds: None,
        },
        CREATED,
        NOW,
    )
    .expect("create");

    authenticate(&mut keys, &created.token, ApiKeyScope::InboxPush, NOW).expect("valid");
    assert!(matches!(
        authenticate(&mut keys, &created.token, ApiKeyScope::InboxPull, NOW),
        Err(Error::ApiKeyScopeDenied)
    ));

    let rotated = rotate(&mut keys, created.id, CREATED, NOW).expect("rotate");
    assert!(matches!(
        authenticate(&mut keys, &created.token, ApiKeyScope::InboxPush, NOW),
        Err(Error::ApiKeyRevoked)
    ));
    authenticate(&mut keys, &rotated.token, ApiKeyScope::InboxPush, NOW).expect("new key");

    revoke(&mut keys, rotated.id, NOW).expect("revoke");
    assert!(matches!(
        authenticate(&mut keys, &rotated.token, ApiKeyScope::InboxPush, NOW),
        Err(Error::ApiKeyRevoked)
    ));
}

#[test]
fn api_key_rejects_expired_and_unknown() {
    let mut keys = ApiKeys::new();
    let created = create(
        &mut keys,
        &NewApiKey {
            scope: ApiKeyScope::Admin,
            recipient_fingerprint: None,
            label: None,
            ttl_seconds: Some(-1),
        },
        CREATED,
        NOW,
    )
    .expect("create expired");
    assert!(matches!(
        authenticate(&mut keys, &created.token, ApiKeyScope::Admin, NOW),
        Err(Error::ApiKeyExpired)
    ));
    assert!(matches!(
        authenticate(&mut keys, "kq_notarealtokenvalue0123456789ABCD", ApiKeyScope::Admin, NOW),
        Err(Error::InvalidApiKey)
    ));
}

#[test]
fn api_key_rejects_ttl_that_sqlite_cannot_represent() {
    let mut keys = ApiKeys::new();
    for ttl in [0, i64::MIN, i64::MAX] {
        assert!(
            matches!(
                create(
                    &mut keys,
                    &NewApiKey {
                        scope: ApiKeyScope::Admin,
                        recipient_fingerprint: None,
                        label: None,
                        ttl_seconds: Some(ttl),
                    },
                    CREATED,
                    NOW,
                ),
                Err(Error::InvalidApiKeyRequest)
            ),
            "ttl {ttl} must not mint a key"
        );
    }
    assert!(keys.rows.is_empty());
}

#[test]
fn pull_key_requires_fingerprint_and_cannot_bind_push() {
    let mut keys = ApiKeys::new();
    assert!(matches!(
        create(
            &mut keys,
            &NewApiKey {
                scope: ApiKeyScope::InboxPull,
                recipient_fingerprint: None,
                label: None,
                ttl_seconds: None,
            },
            CREATED,
            NOW,
        ),
        Err(Error::InvalidApiKeyRequest)
    ));
    let (_sk, pk) = generate_encryption_keypair();
    let fp = fingerprint(&pk);
    assert!(matches!(
        create(
            &mut keys,
            &NewApiKey {
                scope: ApiKeyScope::InboxPush,
                recipient_fingerprint: Some(fp),
                label: None,
                ttl_seconds: None,
            },
            CREATED,
            NOW,
        ),
        Err(Error::InvalidApiKeyRequest)
    ));
}

#[test]
fn keycheck_accepts_live_token_and_hash_without_stamping_use() {
    let mut keys = ApiKeys::new();
    let created = create(
        &mut keys,
        &NewApiKey {
            scope: ApiKeyScope::InboxPush,
            recipient_fingerprint: None,
            label: Some("ops".into()),
            ttl_seconds: None,
        },
        CREATED,
        NOW,
    )
    .expect("create");
    let check = check_token(&keys, &created.token, NOW);
    assert!(check.valid);
    assert_eq!(check.scope.as_deref(), Some("inbox.push"));
    assert_eq!(check.label.as_deref(), Some("ops"));
    let hash = hash_bearer(&created.token).expect("hash");
    let by_hash = check_hash(&keys, &hash, NOW);
    assert_eq!(by_hash, check);
    assert!(keys.rows[0].last_used_at.is_none());
    assert!(
        !check_token(&keys, "kq_notarealtokenvalue0123456789ABCD", NOW)
            .valid
    );
}

#[test]
fn keycheck_treats_expired_and_revoked_as_invalid() {
    let mut keys = ApiKeys::new();
    let expired = create(
        &mut keys,
        &NewApiKey {
            scope: ApiKeyScope::Admin,
            recipient_fingerprint: None,
            label: None,
            ttl_seconds: Some(-1),
        },
        CREATED,
        NOW,
    )
    .expect("expired");
    assert!(
        !check_token(&keys, &expired.token, NOW)
            .valid
    );

    let live = create(
        &mut keys,
        &NewApiKey {
            scope: ApiKeyScope::Admin,
            recipient_fingerprint: None,
            label: Some("keep".into()),
            ttl_seconds: None,
        },
        CREATED,
        NOW,
    )
    .expect("live");
    revoke(&mut keys, live.id, NOW).expect("revoke");
    assert!(
        !check_token(&keys, &live.token, NOW)
            .valid
    );
}

#[test]
fn bootstrap_licensee_only_when_empty() {
    let mut licensees = Licensees::new();
    let first = bootstrap_licensee_if_empty(&mut licensees, CREATED).expect("created");
    assert!(first.token.starts_with("kql_"));
    assert_eq!(licensees.rows[0].created_at, CREATED);
    assert!(bootstrap_licensee_if_empty(&mut licensees, CREATED).is_none());
    authenticate_licensee(&licensees, &first.token).expect("licensee works");
    assert!(matches!(
        authenticate_licensee(&licensees, "kq_notarealtokenvalue0123456789ABCD"),
        Err(Error::InvalidLicenseeKey)
    ));
}

#[test]
fn a_licensee_shows_a_key_once_there_is_one() {
    let mut licensees = Licensees::new();
    let made = authorize_licensee_or_bootstrap(&mut licensees, None, CREATED)
        .expect("the first caller")
        .expect("created");
    assert!(authorize_licensee_or_bootstrap(&mut licensees, Some(&made.token), CREATED)
        .expect("its key")
        .is_none());
    assert_eq!(
        authorize_licensee_or_bootstrap(&mut licensees, Some("kql_other"), CREATED).unwrap_err(),
        Error::InvalidLicenseeKey
    );
    assert_eq!(licensees.rows.len(), 1);
}

#[test]
fn an_admin_is_made_only_for_an_empty_relay() {
    let mut keys = ApiKeys::new();
    let admin = bootstrap_admin_if_empty(&mut keys, CREATED, NOW).expect("created");
    assert!(admin.token.starts_with("kq_"));
    assert!(bootstrap_admin_if_empty(&mut keys, CREATED, NOW).is_none());
    assert!(authenticate(&mut keys, &admin.token, ApiKeyScope::Admin, NOW).is_ok());
    assert_eq!(keys.rows[0].last_used_at, Some(NOW));
}

#[test]
fn scopes_are_named() {
    assert_eq!(ApiKeyScope::parse("inbox.push"), Ok(ApiKeyScope::InboxPush));
    assert_eq!(ApiKeyScope::parse("inbox.pull"), Ok(ApiKeyScope::InboxPull));
    assert_eq!(ApiKeyScope::parse("admin"), Ok(ApiKeyScope::Admin));
    assert_eq!(ApiKeyScope::parse("root"), Err(Error::InvalidApiKeyRequest));
    assert_eq!(ApiKeyScope::InboxPull.as_str(), "inbox.pull");
}

#[test]
fn a_rotated_key_keeps_what_it_may_do() {
    let mut keys = ApiKeys::new();
    let digest = "ab".repeat(32);
    let request = NewApiKey {
        scope: ApiKeyScope::InboxPull,
        recipient_fingerprint: Some(digest.clone()),
        label: Some("device".into()),
        ttl_seconds: Some(60),
    };
    let made = create(&mut keys, &request, CREATED, NOW).unwrap();
    let next = rotate(&mut keys, made.id, CREATED, NOW + 10).unwrap();
    let told = list(&keys);
    assert_eq!((told[0].id, told[1].id), (made.id, next.id));
    assert_eq!(told[0].revoked_at, Some(NOW + 10));
    assert_eq!(told[1].scope, ApiKeyScope::InboxPull);
    assert_eq!(told[1].recipient_fingerprint, Some(digest));
    assert_eq!(told[1].label.as_deref(), Some("device"));
    assert_eq!(told[1].expires_at, Some(NOW + 60));
    assert_eq!(revoke(&mut keys, 9, NOW), Err(Error::ApiKeyNotFound));
    assert_eq!(rotate(&mut keys, 9, CREATED, NOW).unwrap_err(), Error::ApiKeyNotFound);
}

#[test]
fn keys_are_told_line_by_line() {
    let mut keys = ApiKeys::new();
    let create_push = KeysCommand::Create {
        scope: "inbox.push".into(),
        fingerprint: None,
        label: Some("ops".into()),
        ttl_seconds: None,
    };
    let made = run_keys(&mut keys, &create_push, CREATED, NOW).unwrap();
    assert!(made.iter().any(|line| line.contains("kq_")));
    assert_eq!(list_api_keys(&keys), run_keys(&mut keys, &KeysCommand::List, CREATED, NOW).unwrap());
    assert_eq!(list_api_keys(&keys).len(), 1);
    assert!(list_api_keys(&keys)[0].contains("inbox.push"));
    assert_eq!(
        run_keys(&mut keys, &KeysCommand::Revoke { id: 9 }, CREATED, NOW),
        Err(Error::ApiKeyNotFound)
    );
    let nonsense = KeysCommand::Create {
        scope: "root".into(),
        fingerprint: None,
        label: None,
        ttl_seconds: None,
    };
    assert_eq!(
        run_keys(&mut keys, &nonsense, CREATED, NOW),
        Err(Error::InvalidApiKeyRequest)
    );
    run_keys(&mut keys, &KeysCommand::Revoke { id: 1 }, CREATED, NOW).unwrap();
    assert_eq!(keys.rows[0].revoked_at, Some(NOW));
}

#[test]
fn a_check_tells_what_a_use_would() {
    let scopes = [ApiKeyScope::InboxPush, ApiKeyScope::InboxPull, ApiKeyScope::Admin];
    for ttl_seconds in [None, Some(60), Some(-1)] {
        let mut keys = ApiKeys::new();
        let created = create(
            &mut keys,
            &NewApiKey {
                scope: ApiKeyScope::InboxPush,
                recipient_fingerprint: None,
                label: None,
                ttl_seconds,
            },
            CREATED,
            NOW,
        )
        .expect("create");
        let valid = check_token(&keys, &created.token, NOW).valid;
        let used = scopes
            .iter()
            .any(|scope| authenticate(&mut keys, &created.token, *scope, NOW).is_ok());
        assert_eq!(valid, used);
        assert_eq!(valid, ttl_seconds != Some(-1));
        revoke(&mut keys, created.id, NOW).expect("revoke");
        assert!(!check_token(&keys, &created.token, NOW).valid);
    }
}

#[test]
fn a_key_is_rotated_to_a_digest_unless_it_is_taken() {
    let mut keys = ApiKeys::new();
    let request = NewApiKey {
        scope: ApiKeyScope::InboxPush,
        recipient_fingerprint: None,
        label: Some("ops".into()),
        ttl_seconds: Some(60),
    };
    let first = create(&mut keys, &request, CREATED, NOW).unwrap();
    let taken = keys.rows[0].key_hash.clone();
    assert_eq!(
        rotate_to(&mut keys, first.id, &taken, "later", NOW).unwrap_err(),
        Error::Db(StoreError::ApiKeyHash)
    );
    assert_eq!(
        rotate_to(&mut keys, 9, "fresh", "later", NOW).unwrap_err(),
        Error::ApiKeyNotFound
    );
    assert_eq!(keys.rows.len(), 1);
    assert_eq!(keys.rows[0].revoked_at, None);
    let id = rotate_to(&mut keys, first.id, "fresh", "later", NOW + 5).unwrap();
    assert_eq!(id, 2);
    assert_eq!(keys.rows[0].revoked_at, Some(NOW + 5));
    assert_eq!(keys.rows[1].key_hash, "fresh");
    assert_eq!(keys.rows[1].created_at, "later");
    assert_eq!(keys.rows[1].label.as_deref(), Some("ops"));
    assert_eq!(keys.rows[1].expires_at, Some(NOW + 60));
    assert_eq!(keys.rows[1].revoked_at, None);
    assert_eq!(
        rotate_to(&mut keys, first.id, "another", "later", NOW).unwrap_err(),
        Error::ApiKeyRevoked
    );
}
