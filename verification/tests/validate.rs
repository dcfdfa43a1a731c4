//! Which trees are taken, and what is told of them.

use keyquorum::error::Error;
use keyquorum::key_tree::{describe, split, validate, NodeSpec, TreeStore};
use keyquorum::keys::{register_key, revoke_key, KeyRegistry, KeyType};

const CREATED: &str = "2026-01-01 00:00:00";

fn register_encryption_key(
    registry: &mut KeyRegistry,
    label: &str,
) -> (i64, crypto_box::SecretKey) {
    let secret_key = crypto_box::SecretKey::generate(&mut rand::rngs::OsRng);
    let public_key = *secret_key.public_key().as_bytes();
    let id = register_key(registry, label, KeyType::Encryption, &public_key, CREATED)
        .expect("register_key should succeed");
    (id, secret_key)
}

#[test]
fn validate_validate_rejects_threshold_above_children_count() {
    let mut registry = KeyRegistry::new();
    let (id_a, _) = register_encryption_key(&mut registry, "a");

    let spec = NodeSpec::Split {
        label: "root".into(),
        threshold: 2,
        allowed_bridges: vec![],
        children: vec![NodeSpec::Leaf {
            label: "a".into(),
            hardware_key_id: id_a,
            allowed_bridges: vec![],
        }],
    };

    assert!(matches!(
        validate(&registry, &spec),
        Err(Error::InvalidQuorumThreshold)
    ));
}

#[test]
fn validate_validate_rejects_more_than_255_children() {
    let mut registry = KeyRegistry::new();
    let (id_a, _) = register_encryption_key(&mut registry, "a");

    let spec = NodeSpec::Split {
        label: "root".into(),
        threshold: 1,
        allowed_bridges: vec![],
        children: (0..256)
            .map(|i| NodeSpec::Leaf {
                label: format!("leaf-{i}"),
                hardware_key_id: id_a,
                allowed_bridges: vec![],
            })
            .collect(),
    };

    assert!(matches!(
        validate(&registry, &spec),
        Err(Error::InvalidQuorumThreshold)
    ));
}

#[test]
fn validate_validate_rejects_zero_threshold() {
    let mut registry = KeyRegistry::new();
    let (id_a, _) = register_encryption_key(&mut registry, "a");
    let (id_b, _) = register_encryption_key(&mut registry, "b");

    let spec = NodeSpec::Split {
        label: "root".into(),
        threshold: 0,
        allowed_bridges: vec![],
        children: vec![
            NodeSpec::Leaf {
                label: "a".into(),
                hardware_key_id: id_a,
                allowed_bridges: vec![],
            },
            NodeSpec::Leaf {
                label: "b".into(),
                hardware_key_id: id_b,
                allowed_bridges: vec![],
            },
        ],
    };

    assert!(matches!(
        validate(&registry, &spec),
        Err(Error::InvalidQuorumThreshold)
    ));
}

#[test]
fn validate_validate_rejects_signing_key_as_leaf() {
    let mut registry = KeyRegistry::new();
    let signing_key = ed25519_dalek::SigningKey::generate(&mut rand::rngs::OsRng);
    let public_key = signing_key.verifying_key().to_bytes();
    let id = register_key(&mut registry, "signer", KeyType::Signing, &public_key, CREATED)
        .expect("register_key should succeed");

    let spec = NodeSpec::Leaf {
        label: "leaf".into(),
        hardware_key_id: id,
        allowed_bridges: vec![],
    };
    assert!(matches!(validate(&registry, &spec), Err(Error::WrongKeyType)));
}

#[test]
fn validate_validate_rejects_revoked_key_as_leaf() {
    let mut registry = KeyRegistry::new();
    let (id, _) = register_encryption_key(&mut registry, "a");
    revoke_key(&mut registry, id, CREATED);

    let spec = NodeSpec::Leaf {
        label: "leaf".into(),
        hardware_key_id: id,
        allowed_bridges: vec![],
    };
    assert!(matches!(validate(&registry, &spec), Err(Error::KeyRevoked)));
}

#[test]
fn validate_describe_reports_labels_thresholds_and_leaf_key_labels() {
    let mut trees = TreeStore::new();
    let mut registry = KeyRegistry::new();
    let (id_a, _) = register_encryption_key(&mut registry, "alice");
    let (id_b, _) = register_encryption_key(&mut registry, "bob");

    let spec = NodeSpec::Split {
        label: "root".into(),
        threshold: 1,
        allowed_bridges: vec![],
        children: vec![
            NodeSpec::Leaf {
                label: "a".into(),
                hardware_key_id: id_a,
                allowed_bridges: vec![],
            },
            NodeSpec::Leaf {
                label: "b".into(),
                hardware_key_id: id_b,
                allowed_bridges: vec![],
            },
        ],
    };
    let secret = b"describe-me-describe-me-32bytes".to_vec();
    let key_id = split(&mut trees, &registry, "described", &secret, &spec).expect("split should succeed");

    let summary = describe(&trees, &registry, key_id).expect("describe should succeed");
    assert_eq!(summary.label, "described");
    assert_eq!(summary.root.threshold, Some(1));
    assert_eq!(summary.root.children.len(), 2);
    let labels: Vec<_> = summary
        .root
        .children
        .iter()
        .map(|c| c.hardware_key_label.clone().unwrap())
        .collect();
    assert!(labels.contains(&"alice".to_string()));
    assert!(labels.contains(&"bob".to_string()));
}

#[test]
fn validate_validate_rejects_duplicate_labels() {
    let mut registry = KeyRegistry::new();
    let (id_a, _) = register_encryption_key(&mut registry, "a");
    let spec = NodeSpec::Split {
        label: "root".into(),
        threshold: 1,
        allowed_bridges: vec![],
        children: vec![
            NodeSpec::Leaf {
                label: "dup".into(),
                hardware_key_id: id_a,
                allowed_bridges: vec![],
            },
            NodeSpec::Leaf {
                label: "dup".into(),
                hardware_key_id: id_a,
                allowed_bridges: vec![],
            },
        ],
    };
    assert!(matches!(
        validate(&registry, &spec),
        Err(Error::DuplicateNodeLabel)
    ));
}
