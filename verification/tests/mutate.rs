//! Opening, adding and exporting leaves.

use std::collections::HashMap;

use keyquorum::error::Error;
use keyquorum::key_tree::{
    add_leaf_and_reshare, bind_all_sibling_leaf_pairs, evict_and_refresh, export_spec, split,
    unwrap_leaf_share, NodeSpec, TreeStore,
};
use keyquorum::keys::{register_key, KeyRegistry, KeyType};

const CREATED: &str = "2026-01-01 00:00:00";

fn register_encryption_key(
    registry: &mut KeyRegistry,
    label: &str,
) -> (i64, crypto_box::SecretKey) {
    let secret_key = crypto_box::SecretKey::generate(&mut rand::rngs::OsRng);
    let public_key = *secret_key.public_key().as_bytes();
    let id = register_key(registry, label, KeyType::Encryption, &public_key, CREATED)
        .expect("register_key should succeed");
    (id, secret_key)
}

fn unseal_leaf(
    trees: &TreeStore,
    registry: &KeyRegistry,
    node_id: i64,
    secret_key: &crypto_box::SecretKey,
) -> Vec<u8> {
    unwrap_leaf_share(trees, registry, node_id, &secret_key.to_bytes())
        .expect("unseal should succeed with the matching secret key")
}

fn leaf_ids_by_label(trees: &TreeStore, key_id: i64) -> HashMap<String, i64> {
    trees
        .nodes
        .iter()
        .filter(|row| row.key_id == key_id && row.hardware_key_id.is_some())
        .map(|row| (row.label.clone(), row.id))
        .collect()
}

fn wrapped_shares_by_id(trees: &TreeStore, key_id: i64) -> HashMap<i64, Vec<u8>> {
    trees
        .nodes
        .iter()
        .filter(|row| row.key_id == key_id)
        .filter_map(|row| row.wrapped_share.clone().map(|share| (row.id, share)))
        .collect()
}

fn two_department_spec(software: i64, accounting: i64) -> NodeSpec {
    NodeSpec::flat_split(
        "M".into(),
        2,
        vec![("M.S".into(), software), ("M.A".into(), accounting)],
    )
}

#[test]
fn mutate_unwrap_leaf_share_rejects_the_wrong_secret() {
    let mut trees = TreeStore::new();
    let mut registry = KeyRegistry::new();
    let (id_a, sk_a) = register_encryption_key(&mut registry, "alice");
    let (id_b, sk_b) = register_encryption_key(&mut registry, "bob");
    let spec = NodeSpec::Split {
        label: "root".into(),
        threshold: 2,
        allowed_bridges: vec![],
        children: vec![
            NodeSpec::Leaf {
                label: "a".into(),
                hardware_key_id: id_a,
                allowed_bridges: vec![],
            },
            NodeSpec::Leaf {
                label: "b".into(),
                hardware_key_id: id_b,
                allowed_bridges: vec![],
            },
        ],
    };
    let secret = b"company master secret 32 bytes!";
    let key_id = split(&mut trees, &registry, "flat", secret, &spec).expect("split should succeed");
    let leaves = leaf_ids_by_label(&trees, key_id);
    assert!(unwrap_leaf_share(&trees, &registry, leaves["a"], &sk_b.to_bytes()).is_err());
    let raw = unwrap_leaf_share(&trees, &registry, leaves["a"], &sk_a.to_bytes())
        .expect("matching secret should unwrap");
    assert!(!raw.is_empty());
}

#[test]
fn mutate_export_spec_omits_inactive_leaves_and_keeps_binds() {
    let mut trees = TreeStore::new();
    let mut registry = KeyRegistry::new();
    let (id_s, sk_s) = register_encryption_key(&mut registry, "software");
    let (id_a, sk_a) = register_encryption_key(&mut registry, "accounting");
    let spec = two_department_spec(id_s, id_a);
    let secret = b"company master secret 32 bytes!";
    let key_id = split(&mut trees, &registry, "master", secret, &spec).expect("split");
    bind_all_sibling_leaf_pairs(&mut trees, key_id).expect("auto-bind");
    let exported = export_spec(&trees, key_id).expect("export");
    match exported {
        NodeSpec::Split {
            label,
            threshold,
            children,
            ..
        } => {
            assert_eq!(label, "M");
            assert_eq!(threshold, 2);
            assert_eq!(children.len(), 2);
            let mut peers = children[0].allowed_bridges().to_vec();
            peers.sort();
            assert!(peers.contains(&"M.A".to_string()) || peers.contains(&"M.S".to_string()));
        }
        NodeSpec::Leaf { .. } => panic!("expected split"),
    }

    let (id_f, _sk_f) = register_encryption_key(&mut registry, "finance");
    let leaves = leaf_ids_by_label(&trees, key_id);
    let mut presented = HashMap::new();
    presented.insert(leaves["M.S"], unseal_leaf(&trees, &registry, leaves["M.S"], &sk_s));
    presented.insert(leaves["M.A"], unseal_leaf(&trees, &registry, leaves["M.A"], &sk_a));
    add_leaf_and_reshare(&mut trees, &registry, key_id, "M", "M.F", id_f, &presented).expect("add");
    let leaves = leaf_ids_by_label(&trees, key_id);
    let evicted = leaves["M.F"];
    let mut survivors = HashMap::new();
    survivors.insert(leaves["M.S"], unseal_leaf(&trees, &registry, leaves["M.S"], &sk_s));
    survivors.insert(leaves["M.A"], unseal_leaf(&trees, &registry, leaves["M.A"], &sk_a));
    evict_and_refresh(&mut trees, &registry, key_id, evicted, &survivors).expect("evict finance");
    match export_spec(&trees, key_id).expect("export after evict") {
        NodeSpec::Split { children, .. } => {
            let labels: Vec<_> = children.iter().map(|c| c.label().to_string()).collect();
            assert_eq!(labels, vec!["M.S".to_string(), "M.A".to_string()]);
        }
        NodeSpec::Leaf { .. } => panic!("expected split"),
    }
}

#[test]
fn mutate_add_leaf_rejects_duplicate_or_zero_share_coordinates() {
    let mut trees = TreeStore::new();
    let mut registry = KeyRegistry::new();
    let (id_s, sk_s) = register_encryption_key(&mut registry, "software");
    let (id_a, sk_a) = register_encryption_key(&mut registry, "accounting");
    let (id_f, _sk_f) = register_encryption_key(&mut registry, "finance");
    let spec = two_department_spec(id_s, id_a);
    let secret = b"company master secret 32 bytes!";
    let key_id = split(&mut trees, &registry, "master", secret, &spec).expect("split");
    let leaves = leaf_ids_by_label(&trees, key_id);
    let raw_s = unseal_leaf(&trees, &registry, leaves["M.S"], &sk_s);
    let raw_a = unseal_leaf(&trees, &registry, leaves["M.A"], &sk_a);
    let before = wrapped_shares_by_id(&trees, key_id);

    let mut duplicate = HashMap::new();
    duplicate.insert(leaves["M.S"], raw_s.clone());
    duplicate.insert(leaves["M.A"], raw_s.clone());
    assert!(matches!(
        add_leaf_and_reshare(&mut trees, &registry, key_id, "M", "M.F", id_f, &duplicate),
        Err(Error::ShareShapeMismatch)
    ));
    assert_eq!(wrapped_shares_by_id(&trees, key_id), before);

    let mut zero_x = raw_s.clone();
    zero_x[0] = 0;
    let mut with_zero = HashMap::new();
    with_zero.insert(leaves["M.S"], zero_x);
    with_zero.insert(leaves["M.A"], raw_a.clone());
    assert!(matches!(
        add_leaf_and_reshare(&mut trees, &registry, key_id, "M", "M.F", id_f, &with_zero),
        Err(Error::ShareShapeMismatch)
    ));
    assert_eq!(wrapped_shares_by_id(&trees, key_id), before);

    let mut distinct = HashMap::new();
    distinct.insert(leaves["M.S"], raw_s);
    distinct.insert(leaves["M.A"], raw_a);
    add_leaf_and_reshare(&mut trees, &registry, key_id, "M", "M.F", id_f, &distinct)
        .expect("distinct shares should add");
    assert_ne!(wrapped_shares_by_id(&trees, key_id), before);
}
