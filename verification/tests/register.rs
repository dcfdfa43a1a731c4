//! Registration with the relay.

use keyquorum::error::Error;
use keyquorum::keys::{fingerprint, generate_signing_keypair};
use keyquorum::relay::api_key::list;
use keyquorum::relay::register::{
    list_for_hardware, list_for_provider, receipt_preimage, register, register_preimage,
    sign_register_proof, verify_receipt, verify_register_proof, RegisterRequest, RegisterResponse,
    Registrations,
};
use keyquorum::relay::{hash_bearer, ApiKeys};
use keyquorum::signing::sign;

const NOW: i64 = 1_767_225_600;

const CREATED: &str = "2026-01-01 00:00:00";

struct Desk {
    keys: ApiKeys,
    registrations: Registrations,
}

impl Desk {
    fn new() -> Desk {
        Desk { keys: ApiKeys::new(), registrations: Registrations::new() }
    }
}

fn register_one(
    desk: &mut Desk,
    provider_id: &str,
    relay_private: &[u8; 32],
    hardware_private: &[u8; 32],
    scope: Option<&str>,
    label: Option<&str>,
) -> RegisterResponse {
    let (public, signature) = sign_register_proof(hardware_private, provider_id).expect("sign");
    register(
        &mut desk.keys,
        &mut desk.registrations,
        provider_id,
        provider_id,
        relay_private,
        &RegisterRequest {
            public_key: hex::encode(public),
            signature: hex::encode(signature),
            scope: scope.map(str::to_string),
            label: label.map(str::to_string),
        },
        CREATED,
        NOW,
    )
    .expect("register")
}

#[test]
fn register_mints_key_and_tracks_hardware() {
    let mut desk = Desk::new();
    let (relay_sk, relay_pk) = generate_signing_keypair();
    let (hw_sk, hw_pk) = generate_signing_keypair();
    let provider_id = "Acme Security Services";
    let receipt = register_one(&mut desk, provider_id, &relay_sk, &hw_sk, None, Some("desk"));
    assert!(receipt.token.starts_with("kq_"));
    assert_eq!(receipt.scope, "inbox.push");
    assert_eq!(receipt.provider_id, provider_id);
    assert_eq!(receipt.hardware_public_key, hex::encode(hw_pk));
    assert_eq!(receipt.hardware_fingerprint, fingerprint(&hw_pk));
    assert!(!receipt.registered_at.is_empty());

    let key_hash = hash_bearer(&receipt.token).expect("hash");
    verify_receipt(&relay_pk, &receipt, &key_hash, &hw_pk).expect("receipt");

    let rows = list_for_hardware(&desk.registrations, provider_id, &receipt.hardware_fingerprint);
    assert_eq!(rows.len(), 1);
    assert_eq!(rows[0].api_key_id, receipt.id);
    assert_eq!(rows[0].registered_at, receipt.registered_at);
    assert_eq!(rows[0].hardware_public_key, hex::encode(hw_pk));
}

#[test]
fn same_hardware_can_register_again_and_history_is_kept() {
    let mut desk = Desk::new();
    let (relay_sk, _) = generate_signing_keypair();
    let (hw_sk, _) = generate_signing_keypair();
    let provider_id = "acme";
    let first = register_one(&mut desk, provider_id, &relay_sk, &hw_sk, None, Some("a"));
    let second = register_one(&mut desk, provider_id, &relay_sk, &hw_sk, None, Some("b"));
    assert_ne!(first.id, second.id);
    assert_ne!(first.token, second.token);
    let rows = list_for_provider(&desk.registrations, provider_id);
    assert_eq!(rows.len(), 2);
    assert_eq!(rows[0].api_key_id, first.id);
    assert_eq!(rows[1].api_key_id, second.id);
}

#[test]
fn pull_scope_binds_recipient_to_hardware_fingerprint() {
    let mut desk = Desk::new();
    let (relay_sk, _) = generate_signing_keypair();
    let (hw_sk, hw_pk) = generate_signing_keypair();
    let receipt = register_one(&mut desk, "acme", &relay_sk, &hw_sk, Some("inbox.pull"), None);
    assert_eq!(receipt.scope, "inbox.pull");
    let info = list(&desk.keys);
    assert_eq!(
        info[0].recipient_fingerprint.as_deref(),
        Some(fingerprint(&hw_pk).as_str())
    );
}

#[test]
fn wrong_provider_path_is_rejected() {
    let mut desk = Desk::new();
    let (relay_sk, _) = generate_signing_keypair();
    let (hw_sk, _) = generate_signing_keypair();
    let (public, signature) = sign_register_proof(&hw_sk, "acme").expect("sign");
    assert!(matches!(
        register(
            &mut desk.keys,
            &mut desk.registrations,
            "other",
            "acme",
            &relay_sk,
            &RegisterRequest {
                public_key: hex::encode(public),
                signature: hex::encode(signature),
                scope: None,
                label: None,
            },
            CREATED,
            NOW,
        ),
        Err(Error::UnknownProvider)
    ));
}

#[test]
fn admin_scope_is_refused() {
    let mut desk = Desk::new();
    let (relay_sk, _) = generate_signing_keypair();
    let (hw_sk, _) = generate_signing_keypair();
    let (public, signature) = sign_register_proof(&hw_sk, "acme").expect("sign");
    assert!(matches!(
        register(
            &mut desk.keys,
            &mut desk.registrations,
            "acme",
            "acme",
            &relay_sk,
            &RegisterRequest {
                public_key: hex::encode(public),
                signature: hex::encode(signature),
                scope: Some("admin".into()),
                label: None,
            },
            CREATED,
            NOW,
        ),
        Err(Error::InvalidApiKeyRequest)
    ));
}

#[test]
fn forged_signature_is_rejected() {
    let mut desk = Desk::new();
    let (relay_sk, _) = generate_signing_keypair();
    let (hw_sk, _) = generate_signing_keypair();
    let (public, _) = sign_register_proof(&hw_sk, "acme").expect("sign");
    let (other_sk, _) = generate_signing_keypair();
    let forged = sign(&other_sk, &register_preimage("acme", &public).expect("pre"));
    assert!(matches!(
        register(
            &mut desk.keys,
            &mut desk.registrations,
            "acme",
            "acme",
            &relay_sk,
            &RegisterRequest {
                public_key: hex::encode(public),
                signature: hex::encode(forged),
                scope: None,
                label: None,
            },
            CREATED,
            NOW,
        ),
        Err(Error::SignatureVerificationFailed)
    ));
}

#[test]
fn a_name_that_cannot_be_signed_is_refused() {
    let (hw_sk, hw_pk) = generate_signing_keypair();
    assert_eq!(
        sign_register_proof(&hw_sk, "").unwrap_err(),
        Error::InvalidApiKeyRequest
    );
    assert_eq!(
        register_preimage("caf\u{e9}", &hw_pk).unwrap_err(),
        Error::InvalidApiKeyRequest
    );
}

#[test]
fn a_proof_names_the_fingerprint_of_its_key() {
    let (hw_sk, hw_pk) = generate_signing_keypair();
    let (public, signature) = sign_register_proof(&hw_sk, "acme").unwrap();
    assert_eq!(public, hw_pk);
    assert_eq!(verify_register_proof("acme", &public, &signature), Ok(fingerprint(&hw_pk)));
    assert_eq!(
        verify_register_proof("other", &public, &signature),
        Err(Error::SignatureVerificationFailed)
    );
    for name in ["", "acm\u{e9}"] {
        assert_eq!(
            verify_register_proof(name, &public, &signature),
            Err(Error::InvalidApiKeyRequest)
        );
    }
}

#[test]
fn a_receipt_holds_for_one_record_and_one_relay() {
    let mut desk = Desk::new();
    let (relay_sk, relay_pk) = generate_signing_keypair();
    let (_, other_pk) = generate_signing_keypair();
    let (hw_sk, hw_pk) = generate_signing_keypair();
    let mut receipt = register_one(&mut desk, "acme", &relay_sk, &hw_sk, None, None);
    let hash = hash_bearer(&receipt.token).unwrap();
    let failed = Err(Error::SignatureVerificationFailed);
    assert_eq!(verify_receipt(&relay_pk, &receipt, &hash, &hw_pk), Ok(()));
    assert_eq!(verify_receipt(&other_pk, &receipt, &hash, &hw_pk), failed);
    assert_eq!(verify_receipt(&relay_pk, &receipt, &hash, &other_pk), failed);
    let other_hash = "00".repeat(32);
    assert_eq!(verify_receipt(&relay_pk, &receipt, &other_hash, &hw_pk), failed);
    receipt.provider_id.push('x');
    assert_eq!(verify_receipt(&relay_pk, &receipt, &hash, &hw_pk), failed);
    receipt.provider_id.pop();
    let own = std::mem::replace(&mut receipt.hardware_fingerprint, fingerprint(&other_pk));
    assert_eq!(verify_receipt(&relay_pk, &receipt, &hash, &hw_pk), failed);
    receipt.hardware_fingerprint = own;
    receipt.registered_at.push('0');
    assert_eq!(verify_receipt(&relay_pk, &receipt, &hash, &hw_pk), failed);
    receipt.registered_at.pop();
    assert_eq!(verify_receipt(&relay_pk, &receipt, &hash, &hw_pk), Ok(()));
}

#[test]
fn an_altered_receipt_is_refused() {
    let mut desk = Desk::new();
    let (relay_sk, relay_pk) = generate_signing_keypair();
    let (hw_sk, hw_pk) = generate_signing_keypair();
    let mut receipt = register_one(&mut desk, "acme", &relay_sk, &hw_sk, None, None);
    let key_hash = hash_bearer(&receipt.token).unwrap();
    assert_eq!(verify_receipt(&relay_pk, &receipt, &key_hash, &hw_pk), Ok(()));
    receipt.id += 1;
    assert_eq!(
        verify_receipt(&relay_pk, &receipt, &key_hash, &hw_pk),
        Err(Error::SignatureVerificationFailed)
    );
    assert!(receipt_preimage("acme", &hw_pk, &receipt.hardware_fingerprint, 1, "zz", CREATED)
        .is_err());
}

#[test]
fn a_refused_registration_leaves_nothing() {
    let mut desk = Desk::new();
    let (relay_sk, _) = generate_signing_keypair();
    let (hw_sk, _) = generate_signing_keypair();
    let (public, signature) = sign_register_proof(&hw_sk, "acme").unwrap();
    let request = RegisterRequest {
        public_key: hex::encode(public),
        signature: hex::encode(signature),
        scope: Some("nonsense".into()),
        label: None,
    };
    let refused = register(
        &mut desk.keys,
        &mut desk.registrations,
        "acme",
        "acme",
        &relay_sk,
        &request,
        CREATED,
        NOW,
    );
    assert_eq!(refused.unwrap_err(), Error::InvalidApiKeyRequest);
    assert!(desk.keys.rows.is_empty());
    assert!(desk.registrations.rows.is_empty());
}
