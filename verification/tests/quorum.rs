//! Files that a quorum of keys opens.

use std::collections::HashMap;

use keyquorum::error::{Error, StoreError};
use keyquorum::key_tree::{reconstruct, split, NodeSpec, TreeStore};
use keyquorum::keys::{register_key, revoke_key, KeyRegistry, KeyType};
use keyquorum::quorum::{lock_file, status, unlock_file, QuorumFiles, UnlockEvent};

const CREATED: &str = "2026-01-01 00:00:00";

fn register_encryption_key(
    registry: &mut KeyRegistry,
    label: &str,
) -> (i64, crypto_box::SecretKey) {
    let secret_key = crypto_box::SecretKey::generate(&mut rand::rngs::OsRng);
    let public_key = *secret_key.public_key().as_bytes();
    let id = register_key(registry, label, KeyType::Encryption, &public_key, CREATED)
        .expect("register_key should succeed");
    (id, secret_key)
}

fn unseal(trees: &TreeStore, node_id: i64, secret_key: &crypto_box::SecretKey) -> Vec<u8> {
    let row = trees
        .nodes
        .iter()
        .find(|row| row.id == node_id)
        .expect("leaf node should exist");
    secret_key
        .unseal(row.wrapped_share.as_ref().expect("a leaf holds a share"))
        .expect("unseal should succeed with the matching secret key")
}

fn leaf_ids_by_label(trees: &TreeStore, key_id: i64) -> HashMap<String, i64> {
    trees
        .nodes
        .iter()
        .filter(|row| row.key_id == key_id && row.hardware_key_id.is_some())
        .map(|row| (row.label.clone(), row.id))
        .collect()
}

#[test]
fn lock_status_and_unlock_roundtrip_with_threshold_met() {
    let mut trees = TreeStore::new();
    let mut registry = KeyRegistry::new();
    let mut files = QuorumFiles::new();
    let (id_a, sk_a) = register_encryption_key(&mut registry, "a");
    let (id_b, sk_b) = register_encryption_key(&mut registry, "b");
    let (id_c, _sk_c) = register_encryption_key(&mut registry, "c");

    let spec = NodeSpec::Split {
        label: "root".into(),
        threshold: 2,
        allowed_bridges: vec![],
        children: vec![
            NodeSpec::Leaf {
                label: "a".into(),
                hardware_key_id: id_a,
                allowed_bridges: vec![],
            },
            NodeSpec::Leaf {
                label: "b".into(),
                hardware_key_id: id_b,
                allowed_bridges: vec![],
            },
            NodeSpec::Leaf {
                label: "c".into(),
                hardware_key_id: id_c,
                allowed_bridges: vec![],
            },
        ],
    };

    let (file_id, ciphertext) = lock_file(
        &mut trees,
        &registry,
        &mut files,
        "secret.txt",
        "secret.txt.kqenc",
        b"the quorum has been reached",
        &spec,
        CREATED,
    )
    .expect("lock_file should succeed");

    let file_status = status(&files, &trees, &registry, file_id).expect("status should succeed");
    assert_eq!(file_status.tree.root.threshold, Some(2));
    assert_eq!(file_status.tree.root.children.len(), 3);

    let key_id = file_status.tree.key_id;
    let leaves = leaf_ids_by_label(&trees, key_id);
    let raw_a = unseal(&trees, leaves[&"a".to_string()], &sk_a);
    let raw_b = unseal(&trees, leaves[&"b".to_string()], &sk_b);
    let mut shares = HashMap::new();
    shares.insert(leaves[&"a".to_string()], raw_a);
    shares.insert(leaves[&"b".to_string()], raw_b);

    let mut events = Vec::new();
    let plaintext = unlock_file(&trees, &files, &mut events, file_id, &ciphertext, &shares).expect("unlock_file should succeed");
    assert_eq!(plaintext, b"the quorum has been reached");
}

#[test]
fn unlock_fails_with_too_few_shares() {
    let mut trees = TreeStore::new();
    let mut registry = KeyRegistry::new();
    let mut files = QuorumFiles::new();
    let (id_a, sk_a) = register_encryption_key(&mut registry, "a");
    let (id_b, _sk_b) = register_encryption_key(&mut registry, "b");

    let spec = NodeSpec::Split {
        label: "root".into(),
        threshold: 2,
        allowed_bridges: vec![],
        children: vec![
            NodeSpec::Leaf {
                label: "a".into(),
                hardware_key_id: id_a,
                allowed_bridges: vec![],
            },
            NodeSpec::Leaf {
                label: "b".into(),
                hardware_key_id: id_b,
                allowed_bridges: vec![],
            },
        ],
    };

    let (file_id, ciphertext) = lock_file(
        &mut trees,
        &registry,
        &mut files,
        "secret.txt",
        "secret.txt.kqenc",
        b"the quorum has been reached",
        &spec,
        CREATED,
    )
    .expect("lock_file should succeed");

    let key_id = status(&files, &trees, &registry, file_id).unwrap().tree.key_id;
    let leaves = leaf_ids_by_label(&trees, key_id);
    let raw_a = unseal(&trees, leaves[&"a".to_string()], &sk_a);
    let mut shares = HashMap::new();
    shares.insert(leaves[&"a".to_string()], raw_a);

    let mut events = Vec::new();
    let result = unlock_file(&trees, &files, &mut events, file_id, &ciphertext, &shares);
    assert!(matches!(result, Err(Error::QuorumNotMet)));
}

#[test]
fn lock_rejects_threshold_above_recipient_count() {
    let mut trees = TreeStore::new();
    let mut registry = KeyRegistry::new();
    let mut files = QuorumFiles::new();
    let (id_a, _sk_a) = register_encryption_key(&mut registry, "a");

    let spec = NodeSpec::Split {
        label: "root".into(),
        threshold: 2,
        allowed_bridges: vec![],
        children: vec![NodeSpec::Leaf {
            label: "a".into(),
            hardware_key_id: id_a,
            allowed_bridges: vec![],
        }],
    };

    let result = lock_file(
        &mut trees,
        &registry,
        &mut files,
        "secret.txt",
        "secret.txt.kqenc",
        b"the quorum has been reached",
        &spec,
        CREATED,
    );
    assert!(matches!(result, Err(Error::InvalidQuorumThreshold)));
    assert!(files.rows.is_empty());
    assert!(trees.nodes.is_empty());
}

#[test]
fn lock_rejects_signing_key_as_recipient() {
    let mut trees = TreeStore::new();
    let mut registry = KeyRegistry::new();
    let mut files = QuorumFiles::new();
    let signing_key = ed25519_dalek::SigningKey::generate(&mut rand::rngs::OsRng);
    let public_key = signing_key.verifying_key().to_bytes();
    let id = register_key(&mut registry, "signer", KeyType::Signing, &public_key, CREATED)
        .expect("register_key should succeed");
    let (id_b, _sk_b) = register_encryption_key(&mut registry, "b");

    let spec = NodeSpec::Split {
        label: "root".into(),
        threshold: 1,
        allowed_bridges: vec![],
        children: vec![
            NodeSpec::Leaf {
                label: "signer".into(),
                hardware_key_id: id,
                allowed_bridges: vec![],
            },
            NodeSpec::Leaf {
                label: "b".into(),
                hardware_key_id: id_b,
                allowed_bridges: vec![],
            },
        ],
    };

    let result = lock_file(
        &mut trees,
        &registry,
        &mut files,
        "secret.txt",
        "secret.txt.kqenc",
        b"the quorum has been reached",
        &spec,
        CREATED,
    );
    assert!(matches!(result, Err(Error::WrongKeyType)));
    assert!(files.rows.is_empty());
    assert!(trees.nodes.is_empty());
}

#[test]
fn lock_rejects_revoked_recipient() {
    let mut trees = TreeStore::new();
    let mut registry = KeyRegistry::new();
    let mut files = QuorumFiles::new();
    let (id_a, _sk_a) = register_encryption_key(&mut registry, "a");
    revoke_key(&mut registry, id_a, CREATED);
    let (id_b, _sk_b) = register_encryption_key(&mut registry, "b");

    let spec = NodeSpec::Split {
        label: "root".into(),
        threshold: 1,
        allowed_bridges: vec![],
        children: vec![
            NodeSpec::Leaf {
                label: "a".into(),
                hardware_key_id: id_a,
                allowed_bridges: vec![],
            },
            NodeSpec::Leaf {
                label: "b".into(),
                hardware_key_id: id_b,
                allowed_bridges: vec![],
            },
        ],
    };

    let result = lock_file(
        &mut trees,
        &registry,
        &mut files,
        "secret.txt",
        "secret.txt.kqenc",
        b"the quorum has been reached",
        &spec,
        CREATED,
    );
    assert!(matches!(result, Err(Error::KeyRevoked)));
    assert!(files.rows.is_empty());
    assert!(trees.nodes.is_empty());
}

#[test]
fn every_attempt_is_put_on_record() {
    let mut trees = TreeStore::new();
    let mut registry = KeyRegistry::new();
    let mut files = QuorumFiles::new();
    let (id_a, sk_a) = register_encryption_key(&mut registry, "a");
    let spec = NodeSpec::flat_split("root".into(), 1, vec![("a".into(), id_a)]);
    let (file_id, mut ciphertext) = lock_file(
        &mut trees, &registry, &mut files, "a.txt", "a.kqenc", b"text", &spec, CREATED,
    )
    .expect("lock_file should succeed");
    assert_eq!(ciphertext.len(), 4 + 16);
    let told = status(&files, &trees, &registry, file_id).unwrap();
    assert_eq!((told.name.as_str(), told.created_at.as_str()), ("a.txt", CREATED));

    let leaf = leaf_ids_by_label(&trees, told.tree.key_id)["a"];
    let mut events = Vec::new();
    let none = HashMap::new();
    assert_eq!(
        unlock_file(&trees, &files, &mut events, file_id, &ciphertext, &none),
        Err(Error::QuorumNotMet)
    );
    let shares = HashMap::from([(leaf, unseal(&trees, leaf, &sk_a))]);
    assert_eq!(
        unlock_file(&trees, &files, &mut events, file_id, &ciphertext, &shares),
        Ok(b"text".to_vec())
    );
    ciphertext[0] ^= 1;
    assert_eq!(
        unlock_file(&trees, &files, &mut events, file_id, &ciphertext, &shares),
        Err(Error::IntegrityCheckFailed)
    );
    assert_eq!(
        events,
        vec![
            UnlockEvent { file_id, success: false, shares_presented: 0 },
            UnlockEvent { file_id, success: true, shares_presented: 1 },
            UnlockEvent { file_id, success: false, shares_presented: 1 },
        ]
    );
}

#[test]
fn an_unknown_quorum_file_is_no_row() {
    let trees = TreeStore::new();
    let registry = KeyRegistry::new();
    let files = QuorumFiles::new();
    assert_eq!(
        status(&files, &trees, &registry, 1).unwrap_err(),
        Error::Db(StoreError::NoRows)
    );
}

#[test]
fn a_taken_path_or_a_peer_named_twice_is_refused() {
    let mut trees = TreeStore::new();
    let mut registry = KeyRegistry::new();
    let mut files = QuorumFiles::new();
    let (id_a, _) = register_encryption_key(&mut registry, "a");
    let (id_b, _) = register_encryption_key(&mut registry, "b");
    let leaf = |label: &str, hardware_key_id: i64, peers: &[&str]| NodeSpec::Leaf {
        label: label.into(),
        hardware_key_id,
        allowed_bridges: peers.iter().map(|peer| peer.to_string()).collect(),
    };
    let pair = |peers: &[&str]| NodeSpec::Split {
        label: "root".into(),
        threshold: 2,
        allowed_bridges: vec![],
        children: vec![leaf("a", id_a, peers), leaf("b", id_b, &["a"])],
    };
    let mut lock = |spec: &NodeSpec| {
        lock_file(&mut trees, &registry, &mut files, "f", "f.kqenc", b"text", spec, CREATED)
    };
    assert_eq!(lock(&pair(&["b"])).map(|locked| locked.0), Ok(1));
    assert_eq!(lock(&pair(&["b"])).unwrap_err(), Error::Db(StoreError::QuorumFilePath));
    assert_eq!(lock(&pair(&["b", "b"])).unwrap_err(), Error::Db(StoreError::NodePeer));
    assert_eq!(files.rows.len(), 1);
    assert_eq!(trees.nodes.len(), 3);
}

#[test]
fn a_single_share_is_not_the_secret() {
    let mut trees = TreeStore::new();
    let mut registry = KeyRegistry::new();
    let (id_a, sk_a) = register_encryption_key(&mut registry, "a");
    let (id_b, sk_b) = register_encryption_key(&mut registry, "b");
    let secret = [0x5a; 32];
    let spec = NodeSpec::flat_split("M".into(), 2, vec![("a".into(), id_a), ("b".into(), id_b)]);
    let key_id = split(&mut trees, &registry, "master", &secret, &spec).unwrap();
    let leaves = leaf_ids_by_label(&trees, key_id);
    let (a, b) = (unseal(&trees, leaves["a"], &sk_a), unseal(&trees, leaves["b"], &sk_b));
    assert_ne!(a[1..], secret);
    assert_ne!(b[1..], secret);
    let shares = HashMap::from([(leaves["a"], a), (leaves["b"], b)]);
    assert_eq!(reconstruct(&trees, key_id, &shares).unwrap(), secret);
}
