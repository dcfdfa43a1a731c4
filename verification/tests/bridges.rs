//! Permissions and pairings between branches.

use std::collections::HashMap;

use keyquorum::error::Error;
use keyquorum::key_tree::{
    add_bridge, add_leaf_and_reshare, allow_bridge, bind_all_sibling_leaf_pairs, bind_pair,
    deny_bridge, drop_bindings_for_hardware, list_bridges, list_trees, rebind_leaf, reconstruct,
    remove_bridge, split, unwrap_leaf_share, NodeSpec, TreeStore,
};
use keyquorum::keys::{register_key, KeyRegistry, KeyType};

const CREATED: &str = "2026-01-01 00:00:00";

fn register_encryption_key(
    registry: &mut KeyRegistry,
    label: &str,
) -> (i64, crypto_box::SecretKey) {
    let secret_key = crypto_box::SecretKey::generate(&mut rand::rngs::OsRng);
    let public_key = *secret_key.public_key().as_bytes();
    let id = register_key(registry, label, KeyType::Encryption, &public_key, CREATED)
        .expect("register_key should succeed");
    (id, secret_key)
}

fn unseal_leaf(
    trees: &TreeStore,
    registry: &KeyRegistry,
    node_id: i64,
    secret_key: &crypto_box::SecretKey,
) -> Vec<u8> {
    unwrap_leaf_share(trees, registry, node_id, &secret_key.to_bytes())
        .expect("unseal should succeed with the matching secret key")
}

fn leaf_ids_by_label(trees: &TreeStore, key_id: i64) -> HashMap<String, i64> {
    trees
        .nodes
        .iter()
        .filter(|row| row.key_id == key_id && row.hardware_key_id.is_some())
        .map(|row| (row.label.clone(), row.id))
        .collect()
}

fn department_tree_spec(ma1: i64, ma2: i64, ma3: i64, mb: i64) -> NodeSpec {
    NodeSpec::Split {
        label: "M".into(),
        threshold: 1,
        allowed_bridges: vec![],
        children: vec![
            NodeSpec::Split {
                label: "M.A".into(),
                threshold: 2,
                allowed_bridges: vec![],
                children: vec![
                    NodeSpec::Leaf {
                        label: "M.A.1".into(),
                        hardware_key_id: ma1,
                        allowed_bridges: vec!["M.B".into()],
                    },
                    NodeSpec::Leaf {
                        label: "M.A.2".into(),
                        hardware_key_id: ma2,
                        allowed_bridges: vec![],
                    },
                    NodeSpec::Leaf {
                        label: "M.A.3".into(),
                        hardware_key_id: ma3,
                        allowed_bridges: vec![],
                    },
                ],
            },
            NodeSpec::Leaf {
                label: "M.B".into(),
                hardware_key_id: mb,
                allowed_bridges: vec![],
            },
        ],
    }
}

fn two_department_spec(software: i64, accounting: i64) -> NodeSpec {
    NodeSpec::flat_split(
        "M".into(),
        2,
        vec![("M.S".into(), software), ("M.A".into(), accounting)],
    )
}

#[test]
fn bridges_bridge_allow_add_remove_and_deny() {
    let mut trees = TreeStore::new();
    let mut registry = KeyRegistry::new();
    let (ma1, _) = register_encryption_key(&mut registry, "ma1");
    let (ma2, _) = register_encryption_key(&mut registry, "ma2");
    let (ma3, _) = register_encryption_key(&mut registry, "ma3");
    let (mb, _) = register_encryption_key(&mut registry, "mb");
    let spec = department_tree_spec(ma1, ma2, ma3, mb);
    let secret = b"company master secret 32 bytes!";
    let key_id = split(&mut trees, &registry, "org", secret, &spec).expect("split should succeed");

    add_bridge(&mut trees, key_id, "M.A.1", "M.B").expect("spec whitelist should allow");
    let listing = list_bridges(&trees, key_id);
    assert!(listing
        .established
        .iter()
        .any(|l| (l.from == "M.A.1" && l.to == "M.B") || (l.from == "M.B" && l.to == "M.A.1")));

    remove_bridge(&mut trees, key_id, "M.B", "M.A.1").expect("remove should succeed");
    assert!(list_bridges(&trees, key_id).established.is_empty());
    assert!(matches!(
        remove_bridge(&mut trees, key_id, "M.A.1", "M.B"),
        Err(Error::BridgeNotFound)
    ));

    assert!(matches!(
        add_bridge(&mut trees, key_id, "M.A.2", "M.B"),
        Err(Error::BridgeNotWhitelisted)
    ));
    allow_bridge(&mut trees, key_id, "M.A.2", "M.B").expect("allow should succeed");
    add_bridge(&mut trees, key_id, "M.A.2", "M.B").expect("now whitelisted");
    deny_bridge(&mut trees, key_id, "M.A.2", "M.B").expect("deny should succeed");
    assert!(list_bridges(&trees, key_id).established.is_empty());
    assert!(matches!(
        add_bridge(&mut trees, key_id, "M.A.2", "M.B"),
        Err(Error::BridgeNotWhitelisted)
    ));
    assert!(matches!(
        add_bridge(&mut trees, key_id, "missing", "M.B"),
        Err(Error::NodeNotFound)
    ));
}

#[test]
fn bridges_deny_bridge_removes_the_reverse_whitelist_entry() {
    let mut trees = TreeStore::new();
    let mut registry = KeyRegistry::new();
    let (ma1, _) = register_encryption_key(&mut registry, "ma1");
    let (ma2, _) = register_encryption_key(&mut registry, "ma2");
    let (ma3, _) = register_encryption_key(&mut registry, "ma3");
    let (mb, _) = register_encryption_key(&mut registry, "mb");
    let spec = department_tree_spec(ma1, ma2, ma3, mb);
    let secret = b"company master secret 32 bytes!";
    let key_id = split(&mut trees, &registry, "org", secret, &spec).expect("split should succeed");

    // Spec already whitelists M.A.1 -> M.B; add the reverse so either
    // side would authorize a pairing after a one-way deny.
    allow_bridge(&mut trees, key_id, "M.B", "M.A.1").expect("reverse allow should succeed");
    add_bridge(&mut trees, key_id, "M.A.1", "M.B").expect("either whitelist should allow");
    deny_bridge(&mut trees, key_id, "M.A.1", "M.B").expect("deny should succeed");
    assert!(list_bridges(&trees, key_id).established.is_empty());
    assert!(matches!(
        add_bridge(&mut trees, key_id, "M.B", "M.A.1"),
        Err(Error::BridgeNotWhitelisted)
    ));
}

#[test]
fn bridges_bind_survives_rebind_and_adding_a_leaf() {
    let mut trees = TreeStore::new();
    let mut registry = KeyRegistry::new();
    let (id_s, sk_s) = register_encryption_key(&mut registry, "software");
    let (id_a, sk_a) = register_encryption_key(&mut registry, "accounting");
    let (id_new_s, sk_new_s) = register_encryption_key(&mut registry, "software-new");
    let (id_f, sk_f) = register_encryption_key(&mut registry, "finance");
    let spec = two_department_spec(id_s, id_a);
    let secret = b"company master secret 32 bytes!";
    let key_id = split(&mut trees, &registry, "master", secret, &spec).expect("split");
    bind_pair(&mut trees, key_id, "M.S", "M.A").expect("bind departments");

    let leaves = leaf_ids_by_label(&trees, key_id);
    let ms_id = leaves["M.S"];
    let ma_id = leaves["M.A"];
    rebind_leaf(&mut trees, &registry, key_id, "M.S", id_new_s, &sk_s.to_bytes()).expect("rebind");
    assert_eq!(leaf_ids_by_label(&trees, key_id)["M.S"], ms_id);
    let listing = list_bridges(&trees, key_id);
    assert!(listing
        .established
        .iter()
        .any(|l| { (l.from == "M.S" && l.to == "M.A") || (l.from == "M.A" && l.to == "M.S") }));

    let mut after_rebind = HashMap::new();
    after_rebind.insert(ms_id, unseal_leaf(&trees, &registry, ms_id, &sk_new_s));
    after_rebind.insert(ma_id, unseal_leaf(&trees, &registry, ma_id, &sk_a));
    assert_eq!(reconstruct(&trees, key_id, &after_rebind).unwrap(), secret);

    let new_id = add_leaf_and_reshare(&mut trees, &registry, key_id, "M", "M.F", id_f, &after_rebind)
        .expect("add finance");
    assert_eq!(leaf_ids_by_label(&trees, key_id)["M.S"], ms_id);
    assert_eq!(leaf_ids_by_label(&trees, key_id)["M.A"], ma_id);
    assert_eq!(leaf_ids_by_label(&trees, key_id)["M.F"], new_id);
    let listing = list_bridges(&trees, key_id);
    assert!(listing
        .established
        .iter()
        .any(|l| { (l.from == "M.S" && l.to == "M.A") || (l.from == "M.A" && l.to == "M.S") }));

    let new_s = unseal_leaf(&trees, &registry, ms_id, &sk_new_s);
    let new_a = unseal_leaf(&trees, &registry, ma_id, &sk_a);
    let new_f = unseal_leaf(&trees, &registry, new_id, &sk_f);
    let mut survivors = HashMap::new();
    survivors.insert(ms_id, new_s.clone());
    survivors.insert(ma_id, new_a.clone());
    assert_eq!(reconstruct(&trees, key_id, &survivors).unwrap(), secret);
    let mut with_new = HashMap::new();
    with_new.insert(ms_id, new_s);
    with_new.insert(new_id, new_f);
    assert_eq!(reconstruct(&trees, key_id, &with_new).unwrap(), secret);
    // A full old quorum still encodes the same secret (Shamir). Mixing
    // one old share with one new-polynomial share must not.
    let mut mixed = HashMap::new();
    mixed.insert(ms_id, after_rebind[&ms_id].clone());
    mixed.insert(ma_id, new_a);
    if let Ok(mixed_secret) = reconstruct(&trees, key_id, &mixed) {
        assert_ne!(
            mixed_secret, secret,
            "mixed-generation sibling shares must not yield the parent secret"
        );
    }
}

#[test]
fn bridges_revoke_drops_every_bind_for_that_hardware_key() {
    let mut trees = TreeStore::new();
    let mut registry = KeyRegistry::new();
    let (id_s, _) = register_encryption_key(&mut registry, "software");
    let (id_a, _) = register_encryption_key(&mut registry, "accounting");
    let spec = two_department_spec(id_s, id_a);
    let secret = b"company master secret 32 bytes!";
    let key_id = split(&mut trees, &registry, "master", secret, &spec).expect("split");
    bind_all_sibling_leaf_pairs(&mut trees, key_id).expect("bind");
    assert!(!list_bridges(&trees, key_id).established.is_empty());
    let listed = list_trees(&trees);
    assert_eq!(listed.len(), 1);
    assert_eq!(listed[0].label, "master");
    let dropped = drop_bindings_for_hardware(&mut trees, id_s);
    assert_eq!(dropped.len(), 1);
    assert_eq!(dropped[0].label, "M.S");
    assert!(list_bridges(&trees, key_id).established.is_empty());
    assert!(list_bridges(&trees, key_id)
        .allowed
        .iter()
        .all(|(from, to)| from != "M.S" && to != "M.S"));
}
