//! Key trees from end to end.

use std::collections::HashMap;

use keyquorum::error::Error;
use keyquorum::key_tree::{
    add_bridge, add_leaf_and_reshare, allow_bridge, bind_all_sibling_leaf_pairs, bind_pair,
    deny_bridge, describe, drop_bindings_for_hardware, evict_and_refresh, export_spec, list_bridges,
    list_trees, rebind_leaf, reconstruct, reconstruct_from_lca, remove_bridge, split,
    unwrap_leaf_share, validate, KeyQuorumTree, NodeSpec, TreeStore,
};
use keyquorum::keys::{register_key, revoke_key, KeyRegistry, KeyType};

const CREATED: &str = "2026-01-01 00:00:00";

fn register_encryption_key(
    registry: &mut KeyRegistry,
    label: &str,
) -> (i64, crypto_box::SecretKey) {
    let secret_key = crypto_box::SecretKey::generate(&mut rand::rngs::OsRng);
    let public_key = *secret_key.public_key().as_bytes();
    let id = register_key(registry, label, KeyType::Encryption, &public_key, CREATED)
        .expect("register_key should succeed");
    (id, secret_key)
}

fn unseal_leaf(
    trees: &TreeStore,
    registry: &KeyRegistry,
    node_id: i64,
    secret_key: &crypto_box::SecretKey,
) -> Vec<u8> {
    unwrap_leaf_share(trees, registry, node_id, &secret_key.to_bytes())
        .expect("unseal should succeed with the matching secret key")
}

fn leaf_ids_by_label(trees: &TreeStore, key_id: i64) -> HashMap<String, i64> {
    trees
        .nodes
        .iter()
        .filter(|row| row.key_id == key_id && row.hardware_key_id.is_some())
        .map(|row| (row.label.clone(), row.id))
        .collect()
}

fn wrapped_shares_by_id(trees: &TreeStore, key_id: i64) -> HashMap<i64, Vec<u8>> {
    trees
        .nodes
        .iter()
        .filter(|row| row.key_id == key_id)
        .filter_map(|row| row.wrapped_share.clone().map(|share| (row.id, share)))
        .collect()
}

fn department_tree_spec(ma1: i64, ma2: i64, ma3: i64, mb: i64) -> NodeSpec {
    NodeSpec::Split {
        label: "M".into(),
        threshold: 1,
        allowed_bridges: vec![],
        children: vec![
            NodeSpec::Split {
                label: "M.A".into(),
                threshold: 2,
                allowed_bridges: vec![],
                children: vec![
                    NodeSpec::Leaf {
                        label: "M.A.1".into(),
                        hardware_key_id: ma1,
                        allowed_bridges: vec!["M.B".into()],
                    },
                    NodeSpec::Leaf {
                        label: "M.A.2".into(),
                        hardware_key_id: ma2,
                        allowed_bridges: vec![],
                    },
                    NodeSpec::Leaf {
                        label: "M.A.3".into(),
                        hardware_key_id: ma3,
                        allowed_bridges: vec![],
                    },
                ],
            },
            NodeSpec::Leaf {
                label: "M.B".into(),
                hardware_key_id: mb,
                allowed_bridges: vec![],
            },
        ],
    }
}

fn two_department_spec(software: i64, accounting: i64) -> NodeSpec {
    NodeSpec::flat_split(
        "M".into(),
        2,
        vec![("M.S".into(), software), ("M.A".into(), accounting)],
    )
}

#[test]
fn key_tree_bridge_allow_add_remove_and_deny() {
    let mut trees = TreeStore::new();
    let mut registry = KeyRegistry::new();
    let (ma1, _) = register_encryption_key(&mut registry, "ma1");
    let (ma2, _) = register_encryption_key(&mut registry, "ma2");
    let (ma3, _) = register_encryption_key(&mut registry, "ma3");
    let (mb, _) = register_encryption_key(&mut registry, "mb");
    let spec = department_tree_spec(ma1, ma2, ma3, mb);
    let secret = b"company master secret 32 bytes!";
    let key_id = split(&mut trees, &registry, "org", secret, &spec).expect("split should succeed");

    add_bridge(&mut trees, key_id, "M.A.1", "M.B").expect("spec whitelist should allow");
    let listing = list_bridges(&trees, key_id);
    assert!(listing
        .established
        .iter()
        .any(|l| (l.from == "M.A.1" && l.to == "M.B") || (l.from == "M.B" && l.to == "M.A.1")));

    remove_bridge(&mut trees, key_id, "M.B", "M.A.1").expect("remove should succeed");
    assert!(list_bridges(&trees, key_id).established.is_empty());
    assert!(matches!(
        remove_bridge(&mut trees, key_id, "M.A.1", "M.B"),
        Err(Error::BridgeNotFound)
    ));

    assert!(matches!(
        add_bridge(&mut trees, key_id, "M.A.2", "M.B"),
        Err(Error::BridgeNotWhitelisted)
    ));
    allow_bridge(&mut trees, key_id, "M.A.2", "M.B").expect("allow should succeed");
    add_bridge(&mut trees, key_id, "M.A.2", "M.B").expect("now whitelisted");
    deny_bridge(&mut trees, key_id, "M.A.2", "M.B").expect("deny should succeed");
    assert!(list_bridges(&trees, key_id).established.is_empty());
    assert!(matches!(
        add_bridge(&mut trees, key_id, "M.A.2", "M.B"),
        Err(Error::BridgeNotWhitelisted)
    ));
    assert!(matches!(
        add_bridge(&mut trees, key_id, "missing", "M.B"),
        Err(Error::NodeNotFound)
    ));
}

#[test]
fn key_tree_deny_bridge_removes_the_reverse_whitelist_entry() {
    let mut trees = TreeStore::new();
    let mut registry = KeyRegistry::new();
    let (ma1, _) = register_encryption_key(&mut registry, "ma1");
    let (ma2, _) = register_encryption_key(&mut registry, "ma2");
    let (ma3, _) = register_encryption_key(&mut registry, "ma3");
    let (mb, _) = register_encryption_key(&mut registry, "mb");
    let spec = department_tree_spec(ma1, ma2, ma3, mb);
    let secret = b"company master secret 32 bytes!";
    let key_id = split(&mut trees, &registry, "org", secret, &spec).expect("split should succeed");

    // Spec already whitelists M.A.1 -> M.B; add the reverse so either
    // side would authorize a pairing after a one-way deny.
    allow_bridge(&mut trees, key_id, "M.B", "M.A.1").expect("reverse allow should succeed");
    add_bridge(&mut trees, key_id, "M.A.1", "M.B").expect("either whitelist should allow");
    deny_bridge(&mut trees, key_id, "M.A.1", "M.B").expect("deny should succeed");
    assert!(list_bridges(&trees, key_id).established.is_empty());
    assert!(matches!(
        add_bridge(&mut trees, key_id, "M.B", "M.A.1"),
        Err(Error::BridgeNotWhitelisted)
    ));
}

#[test]
fn key_tree_bind_survives_rebind_and_adding_a_leaf() {
    let mut trees = TreeStore::new();
    let mut registry = KeyRegistry::new();
    let (id_s, sk_s) = register_encryption_key(&mut registry, "software");
    let (id_a, sk_a) = register_encryption_key(&mut registry, "accounting");
    let (id_new_s, sk_new_s) = register_encryption_key(&mut registry, "software-new");
    let (id_f, sk_f) = register_encryption_key(&mut registry, "finance");
    let spec = two_department_spec(id_s, id_a);
    let secret = b"company master secret 32 bytes!";
    let key_id = split(&mut trees, &registry, "master", secret, &spec).expect("split");
    bind_pair(&mut trees, key_id, "M.S", "M.A").expect("bind departments");

    let leaves = leaf_ids_by_label(&trees, key_id);
    let ms_id = leaves["M.S"];
    let ma_id = leaves["M.A"];
    rebind_leaf(&mut trees, &registry, key_id, "M.S", id_new_s, &sk_s.to_bytes()).expect("rebind");
    assert_eq!(leaf_ids_by_label(&trees, key_id)["M.S"], ms_id);
    let listing = list_bridges(&trees, key_id);
    assert!(listing
        .established
        .iter()
        .any(|l| { (l.from == "M.S" && l.to == "M.A") || (l.from == "M.A" && l.to == "M.S") }));

    let mut after_rebind = HashMap::new();
    after_rebind.insert(ms_id, unseal_leaf(&trees, &registry, ms_id, &sk_new_s));
    after_rebind.insert(ma_id, unseal_leaf(&trees, &registry, ma_id, &sk_a));
    assert_eq!(reconstruct(&trees, key_id, &after_rebind).unwrap(), secret);

    let new_id = add_leaf_and_reshare(&mut trees, &registry, key_id, "M", "M.F", id_f, &after_rebind)
        .expect("add finance");
    assert_eq!(leaf_ids_by_label(&trees, key_id)["M.S"], ms_id);
    assert_eq!(leaf_ids_by_label(&trees, key_id)["M.A"], ma_id);
    assert_eq!(leaf_ids_by_label(&trees, key_id)["M.F"], new_id);
    let listing = list_bridges(&trees, key_id);
    assert!(listing
        .established
        .iter()
        .any(|l| { (l.from == "M.S" && l.to == "M.A") || (l.from == "M.A" && l.to == "M.S") }));

    let new_s = unseal_leaf(&trees, &registry, ms_id, &sk_new_s);
    let new_a = unseal_leaf(&trees, &registry, ma_id, &sk_a);
    let new_f = unseal_leaf(&trees, &registry, new_id, &sk_f);
    let mut survivors = HashMap::new();
    survivors.insert(ms_id, new_s.clone());
    survivors.insert(ma_id, new_a.clone());
    assert_eq!(reconstruct(&trees, key_id, &survivors).unwrap(), secret);
    let mut with_new = HashMap::new();
    with_new.insert(ms_id, new_s);
    with_new.insert(new_id, new_f);
    assert_eq!(reconstruct(&trees, key_id, &with_new).unwrap(), secret);
    // A full old quorum still encodes the same secret (Shamir). Mixing
    // one old share with one new-polynomial share must not.
    let mut mixed = HashMap::new();
    mixed.insert(ms_id, after_rebind[&ms_id].clone());
    mixed.insert(ma_id, new_a);
    if let Ok(mixed_secret) = reconstruct(&trees, key_id, &mixed) {
        assert_ne!(
            mixed_secret, secret,
            "mixed-generation sibling shares must not yield the parent secret"
        );
    }
}

#[test]
fn key_tree_revoke_drops_every_bind_for_that_hardware_key() {
    let mut trees = TreeStore::new();
    let mut registry = KeyRegistry::new();
    let (id_s, _) = register_encryption_key(&mut registry, "software");
    let (id_a, _) = register_encryption_key(&mut registry, "accounting");
    let spec = two_department_spec(id_s, id_a);
    let secret = b"company master secret 32 bytes!";
    let key_id = split(&mut trees, &registry, "master", secret, &spec).expect("split");
    bind_all_sibling_leaf_pairs(&mut trees, key_id).expect("bind");
    assert!(!list_bridges(&trees, key_id).established.is_empty());
    let listed = list_trees(&trees);
    assert_eq!(listed.len(), 1);
    assert_eq!(listed[0].label, "master");
    let dropped = drop_bindings_for_hardware(&mut trees, id_s);
    assert_eq!(dropped.len(), 1);
    assert_eq!(dropped[0].label, "M.S");
    assert!(list_bridges(&trees, key_id).established.is_empty());
    assert!(list_bridges(&trees, key_id)
        .allowed
        .iter()
        .all(|(from, to)| from != "M.S" && to != "M.S"));
}

#[test]
fn key_tree_evicting_ma3_lets_survivors_reach_root_without_the_parent_or_old_share() {
    let mut trees = TreeStore::new();
    let mut registry = KeyRegistry::new();
    let (id1, sk1) = register_encryption_key(&mut registry, "ma1");
    let (id2, sk2) = register_encryption_key(&mut registry, "ma2");
    let (id3, sk3) = register_encryption_key(&mut registry, "ma3");
    let (idb, _skb) = register_encryption_key(&mut registry, "mb");
    let spec = department_tree_spec(id1, id2, id3, idb);
    let secret = b"company master secret 32 bytes!";
    let key_id = split(&mut trees, &registry, "org", secret, &spec).expect("split should succeed");

    let leaves = leaf_ids_by_label(&trees, key_id);
    let raw1 = unseal_leaf(&trees, &registry, leaves["M.A.1"], &sk1);
    let raw2 = unseal_leaf(&trees, &registry, leaves["M.A.2"], &sk2);
    let raw3 = unseal_leaf(&trees, &registry, leaves["M.A.3"], &sk3);

    let mut before = HashMap::new();
    before.insert(leaves["M.A.1"], raw1.clone());
    before.insert(leaves["M.A.2"], raw2.clone());
    assert_eq!(reconstruct(&trees, key_id, &before).unwrap(), secret);

    let mut survivors = HashMap::new();
    survivors.insert(leaves["M.A.1"], raw1.clone());
    survivors.insert(leaves["M.A.2"], raw2.clone());
    evict_and_refresh(&mut trees, &registry, key_id, leaves["M.A.3"], &survivors)
        .expect("evict should succeed");

    let tree = KeyQuorumTree::load(&trees, key_id).expect("load should succeed");
    let ma = tree.index_by_label("M.A").unwrap();
    assert_eq!(tree.nodes[ma].threshold, Some(2));
    assert!(!tree.nodes[tree.index_by_label("M.A.3").unwrap()].is_active);

    let new1 = unseal_leaf(&trees, &registry, leaves["M.A.1"], &sk1);
    let new2 = unseal_leaf(&trees, &registry, leaves["M.A.2"], &sk2);
    let mut after = HashMap::new();
    after.insert(leaves["M.A.1"], new1.clone());
    after.insert(leaves["M.A.2"], new2.clone());
    assert_eq!(reconstruct(&trees, key_id, &after).unwrap(), secret);

    let lca = tree
        .find_lowest_common_ancestor(
            tree.index_by_label("M.A.1").unwrap(),
            tree.index_by_label("M.A.2").unwrap(),
        )
        .unwrap();
    assert_eq!(
        reconstruct_from_lca(&trees, key_id, lca, &after).unwrap(),
        secret
    );

    let mut stale = HashMap::new();
    stale.insert(leaves["M.A.1"], new1);
    stale.insert(leaves["M.A.3"], raw3);
    assert!(matches!(
        reconstruct(&trees, key_id, &stale),
        Err(Error::QuorumNotMet)
    ));
}

#[test]
fn key_tree_evict_rejects_the_same_raw_share_for_two_survivors() {
    let mut trees = TreeStore::new();
    let mut registry = KeyRegistry::new();
    let (id1, sk1) = register_encryption_key(&mut registry, "ma1");
    let (id2, _) = register_encryption_key(&mut registry, "ma2");
    let (id3, _) = register_encryption_key(&mut registry, "ma3");
    let (idb, _) = register_encryption_key(&mut registry, "mb");
    let spec = department_tree_spec(id1, id2, id3, idb);
    let secret = b"company master secret 32 bytes!";
    let key_id = split(&mut trees, &registry, "org", secret, &spec).expect("split should succeed");

    let leaves = leaf_ids_by_label(&trees, key_id);
    let raw1 = unseal_leaf(&trees, &registry, leaves["M.A.1"], &sk1);
    let mut survivors = HashMap::new();
    survivors.insert(leaves["M.A.1"], raw1.clone());
    survivors.insert(leaves["M.A.2"], raw1);
    assert!(matches!(
        evict_and_refresh(&mut trees, &registry, key_id, leaves["M.A.3"], &survivors),
        Err(Error::ShareShapeMismatch)
    ));
    let tree = KeyQuorumTree::load(&trees, key_id).expect("load should succeed");
    assert!(tree.nodes[tree.index_by_label("M.A.3").unwrap()].is_active);
}

#[test]
fn key_tree_evict_rejects_a_parent_threshold_of_one() {
    let mut trees = TreeStore::new();
    let mut registry = KeyRegistry::new();
    let (id_a, sk_a) = register_encryption_key(&mut registry, "a");
    let (id_b, _sk_b) = register_encryption_key(&mut registry, "b");
    let spec = NodeSpec::Split {
        label: "root".into(),
        threshold: 1,
        allowed_bridges: vec![],
        children: vec![
            NodeSpec::Leaf {
                label: "a".into(),
                hardware_key_id: id_a,
                allowed_bridges: vec![],
            },
            NodeSpec::Leaf {
                label: "b".into(),
                hardware_key_id: id_b,
                allowed_bridges: vec![],
            },
        ],
    };
    let secret = b"company master secret 32 bytes!";
    let key_id = split(&mut trees, &registry, "flat", secret, &spec).expect("split should succeed");
    let leaves = leaf_ids_by_label(&trees, key_id);
    let raw_a = unseal_leaf(&trees, &registry, leaves["a"], &sk_a);
    let mut survivors = HashMap::new();
    survivors.insert(leaves["a"], raw_a);
    assert!(matches!(
        evict_and_refresh(&mut trees, &registry, key_id, leaves["b"], &survivors),
        Err(Error::CannotEvict)
    ));
}

#[test]
fn key_tree_evict_drops_binds_that_mention_the_evicted_node() {
    let mut trees = TreeStore::new();
    let mut registry = KeyRegistry::new();
    let (id1, sk1) = register_encryption_key(&mut registry, "ma1");
    let (id2, sk2) = register_encryption_key(&mut registry, "ma2");
    let (id3, _sk3) = register_encryption_key(&mut registry, "ma3");
    let (idb, _skb) = register_encryption_key(&mut registry, "mb");
    let spec = department_tree_spec(id1, id2, id3, idb);
    let secret = b"company master secret 32 bytes!";
    let key_id = split(&mut trees, &registry, "org", secret, &spec).expect("split");
    add_bridge(&mut trees, key_id, "M.A.1", "M.B").expect("keep this bind");
    bind_pair(&mut trees, key_id, "M.A.1", "M.A.3").expect("bind to evicted");

    let leaves = leaf_ids_by_label(&trees, key_id);
    let mut survivors = HashMap::new();
    survivors.insert(leaves["M.A.1"], unseal_leaf(&trees, &registry, leaves["M.A.1"], &sk1));
    survivors.insert(leaves["M.A.2"], unseal_leaf(&trees, &registry, leaves["M.A.2"], &sk2));
    evict_and_refresh(&mut trees, &registry, key_id, leaves["M.A.3"], &survivors).expect("evict");

    let listing = list_bridges(&trees, key_id);
    assert!(listing
        .established
        .iter()
        .any(|l| { (l.from == "M.A.1" && l.to == "M.B") || (l.from == "M.B" && l.to == "M.A.1") }));
    assert!(!listing
        .established
        .iter()
        .any(|l| l.from == "M.A.3" || l.to == "M.A.3"));
    assert!(!listing
        .allowed
        .iter()
        .any(|(from, to)| from == "M.A.3" || to == "M.A.3"));
}

#[test]
fn key_tree_unwrap_leaf_share_rejects_the_wrong_secret() {
    let mut trees = TreeStore::new();
    let mut registry = KeyRegistry::new();
    let (id_a, sk_a) = register_encryption_key(&mut registry, "alice");
    let (id_b, sk_b) = register_encryption_key(&mut registry, "bob");
    let spec = NodeSpec::Split {
        label: "root".into(),
        threshold: 2,
        allowed_bridges: vec![],
        children: vec![
            NodeSpec::Leaf {
                label: "a".into(),
                hardware_key_id: id_a,
                allowed_bridges: vec![],
            },
            NodeSpec::Leaf {
                label: "b".into(),
                hardware_key_id: id_b,
                allowed_bridges: vec![],
            },
        ],
    };
    let secret = b"company master secret 32 bytes!";
    let key_id = split(&mut trees, &registry, "flat", secret, &spec).expect("split should succeed");
    let leaves = leaf_ids_by_label(&trees, key_id);
    assert!(unwrap_leaf_share(&trees, &registry, leaves["a"], &sk_b.to_bytes()).is_err());
    let raw = unwrap_leaf_share(&trees, &registry, leaves["a"], &sk_a.to_bytes())
        .expect("matching secret should unwrap");
    assert!(!raw.is_empty());
}

#[test]
fn key_tree_export_spec_omits_inactive_leaves_and_keeps_binds() {
    let mut trees = TreeStore::new();
    let mut registry = KeyRegistry::new();
    let (id_s, sk_s) = register_encryption_key(&mut registry, "software");
    let (id_a, sk_a) = register_encryption_key(&mut registry, "accounting");
    let spec = two_department_spec(id_s, id_a);
    let secret = b"company master secret 32 bytes!";
    let key_id = split(&mut trees, &registry, "master", secret, &spec).expect("split");
    bind_all_sibling_leaf_pairs(&mut trees, key_id).expect("auto-bind");
    let exported = export_spec(&trees, key_id).expect("export");
    match exported {
        NodeSpec::Split {
            label,
            threshold,
            children,
            ..
        } => {
            assert_eq!(label, "M");
            assert_eq!(threshold, 2);
            assert_eq!(children.len(), 2);
            let mut peers = children[0].allowed_bridges().to_vec();
            peers.sort();
            assert!(peers.contains(&"M.A".to_string()) || peers.contains(&"M.S".to_string()));
        }
        NodeSpec::Leaf { .. } => panic!("expected split"),
    }

    let (id_f, _sk_f) = register_encryption_key(&mut registry, "finance");
    let leaves = leaf_ids_by_label(&trees, key_id);
    let mut presented = HashMap::new();
    presented.insert(leaves["M.S"], unseal_leaf(&trees, &registry, leaves["M.S"], &sk_s));
    presented.insert(leaves["M.A"], unseal_leaf(&trees, &registry, leaves["M.A"], &sk_a));
    add_leaf_and_reshare(&mut trees, &registry, key_id, "M", "M.F", id_f, &presented).expect("add");
    let leaves = leaf_ids_by_label(&trees, key_id);
    let evicted = leaves["M.F"];
    let mut survivors = HashMap::new();
    survivors.insert(leaves["M.S"], unseal_leaf(&trees, &registry, leaves["M.S"], &sk_s));
    survivors.insert(leaves["M.A"], unseal_leaf(&trees, &registry, leaves["M.A"], &sk_a));
    evict_and_refresh(&mut trees, &registry, key_id, evicted, &survivors).expect("evict finance");
    match export_spec(&trees, key_id).expect("export after evict") {
        NodeSpec::Split { children, .. } => {
            let labels: Vec<_> = children.iter().map(|c| c.label().to_string()).collect();
            assert_eq!(labels, vec!["M.S".to_string(), "M.A".to_string()]);
        }
        NodeSpec::Leaf { .. } => panic!("expected split"),
    }
}

#[test]
fn key_tree_add_leaf_rejects_duplicate_or_zero_share_coordinates() {
    let mut trees = TreeStore::new();
    let mut registry = KeyRegistry::new();
    let (id_s, sk_s) = register_encryption_key(&mut registry, "software");
    let (id_a, sk_a) = register_encryption_key(&mut registry, "accounting");
    let (id_f, _sk_f) = register_encryption_key(&mut registry, "finance");
    let spec = two_department_spec(id_s, id_a);
    let secret = b"company master secret 32 bytes!";
    let key_id = split(&mut trees, &registry, "master", secret, &spec).expect("split");
    let leaves = leaf_ids_by_label(&trees, key_id);
    let raw_s = unseal_leaf(&trees, &registry, leaves["M.S"], &sk_s);
    let raw_a = unseal_leaf(&trees, &registry, leaves["M.A"], &sk_a);
    let before = wrapped_shares_by_id(&trees, key_id);

    let mut duplicate = HashMap::new();
    duplicate.insert(leaves["M.S"], raw_s.clone());
    duplicate.insert(leaves["M.A"], raw_s.clone());
    assert!(matches!(
        add_leaf_and_reshare(&mut trees, &registry, key_id, "M", "M.F", id_f, &duplicate),
        Err(Error::ShareShapeMismatch)
    ));
    assert_eq!(wrapped_shares_by_id(&trees, key_id), before);

    let mut zero_x = raw_s.clone();
    zero_x[0] = 0;
    let mut with_zero = HashMap::new();
    with_zero.insert(leaves["M.S"], zero_x);
    with_zero.insert(leaves["M.A"], raw_a.clone());
    assert!(matches!(
        add_leaf_and_reshare(&mut trees, &registry, key_id, "M", "M.F", id_f, &with_zero),
        Err(Error::ShareShapeMismatch)
    ));
    assert_eq!(wrapped_shares_by_id(&trees, key_id), before);

    let mut distinct = HashMap::new();
    distinct.insert(leaves["M.S"], raw_s);
    distinct.insert(leaves["M.A"], raw_a);
    add_leaf_and_reshare(&mut trees, &registry, key_id, "M", "M.F", id_f, &distinct)
        .expect("distinct shares should add");
    assert_ne!(wrapped_shares_by_id(&trees, key_id), before);
}

#[test]
fn key_tree_flat_tree_round_trips_split_and_reconstruct() {
    let mut trees = TreeStore::new();
    let mut registry = KeyRegistry::new();
    let (id_a, sk_a) = register_encryption_key(&mut registry, "a");
    let (id_b, sk_b) = register_encryption_key(&mut registry, "b");
    let (id_c, _sk_c) = register_encryption_key(&mut registry, "c");

    let spec = NodeSpec::Split {
        label: "root".into(),
        threshold: 2,
        allowed_bridges: vec![],
        children: vec![
            NodeSpec::Leaf {
                label: "a".into(),
                hardware_key_id: id_a,
                allowed_bridges: vec![],
            },
            NodeSpec::Leaf {
                label: "b".into(),
                hardware_key_id: id_b,
                allowed_bridges: vec![],
            },
            NodeSpec::Leaf {
                label: "c".into(),
                hardware_key_id: id_c,
                allowed_bridges: vec![],
            },
        ],
    };

    let secret = b"the quorum has been reached!!!!".to_vec();
    let key_id = split(&mut trees, &registry, "flat", &secret, &spec).expect("split should succeed");

    let leaves = leaf_ids_by_label(&trees, key_id);
    let raw_a = unseal_leaf(&trees, &registry, leaves[&"a".to_string()], &sk_a);
    let raw_b = unseal_leaf(&trees, &registry, leaves[&"b".to_string()], &sk_b);

    let mut shares = HashMap::new();
    shares.insert(leaves[&"a".to_string()], raw_a);
    shares.insert(leaves[&"b".to_string()], raw_b);

    let recovered = reconstruct(&trees, key_id, &shares).expect("reconstruct should succeed");
    assert_eq!(recovered, secret);
}

#[test]
fn key_tree_reconstruct_skips_a_malformed_share_instead_of_aborting() {
    let mut trees = TreeStore::new();
    let mut registry = KeyRegistry::new();
    let (id_a, _sk_a) = register_encryption_key(&mut registry, "a");
    let (id_b, sk_b) = register_encryption_key(&mut registry, "b");
    let (id_c, sk_c) = register_encryption_key(&mut registry, "c");

    let spec = NodeSpec::Split {
        label: "root".into(),
        threshold: 2,
        allowed_bridges: vec![],
        children: vec![
            NodeSpec::Leaf {
                label: "a".into(),
                hardware_key_id: id_a,
                allowed_bridges: vec![],
            },
            NodeSpec::Leaf {
                label: "b".into(),
                hardware_key_id: id_b,
                allowed_bridges: vec![],
            },
            NodeSpec::Leaf {
                label: "c".into(),
                hardware_key_id: id_c,
                allowed_bridges: vec![],
            },
        ],
    };

    let secret = b"the quorum has been reached!!!!".to_vec();
    let key_id = split(&mut trees, &registry, "flat", &secret, &spec).expect("split should succeed");

    let leaves = leaf_ids_by_label(&trees, key_id);
    let raw_b = unseal_leaf(&trees, &registry, leaves[&"b".to_string()], &sk_b);
    let raw_c = unseal_leaf(&trees, &registry, leaves[&"c".to_string()], &sk_c);

    // A genuinely malformed "share" (not valid Share-encoded bytes)
    // for `a` — the first leaf tried, in id order, since children are
    // inserted in spec order — alongside two real, correctly-unwrapped
    // shares for b and c. Before the fix, hitting the malformed entry
    // while still under threshold aborted the *entire* reconstruction
    // via `?`, never even trying b or c.
    let mut shares = HashMap::new();
    shares.insert(leaves[&"a".to_string()], vec![0xFF]);
    shares.insert(leaves[&"b".to_string()], raw_b);
    shares.insert(leaves[&"c".to_string()], raw_c);

    let recovered = reconstruct(&trees, key_id, &shares)
        .expect("reconstruct should succeed despite one malformed share");
    assert_eq!(recovered, secret);
}

#[test]
fn key_tree_flat_tree_reconstruct_fails_with_too_few_shares() {
    let mut trees = TreeStore::new();
    let mut registry = KeyRegistry::new();
    let (id_a, sk_a) = register_encryption_key(&mut registry, "a");
    let (id_b, _sk_b) = register_encryption_key(&mut registry, "b");

    let spec = NodeSpec::Split {
        label: "root".into(),
        threshold: 2,
        allowed_bridges: vec![],
        children: vec![
            NodeSpec::Leaf {
                label: "a".into(),
                hardware_key_id: id_a,
                allowed_bridges: vec![],
            },
            NodeSpec::Leaf {
                label: "b".into(),
                hardware_key_id: id_b,
                allowed_bridges: vec![],
            },
        ],
    };

    let secret = b"top secret data key value here!".to_vec();
    let key_id = split(&mut trees, &registry, "flat", &secret, &spec).expect("split should succeed");

    let leaves = leaf_ids_by_label(&trees, key_id);
    let raw_a = unseal_leaf(&trees, &registry, leaves[&"a".to_string()], &sk_a);
    let mut shares = HashMap::new();
    shares.insert(leaves[&"a".to_string()], raw_a);

    let result = reconstruct(&trees, key_id, &shares);
    assert!(matches!(result, Err(Error::QuorumNotMet)));
}

#[test]
fn key_tree_nested_tree_round_trips_across_branches() {
    // "CEO alone" OR a 2-of-2 department quorum, where one department
    // (cxo) is itself split 2-of-2.
    let mut trees = TreeStore::new();
    let mut registry = KeyRegistry::new();
    let (ceo_id, _ceo_sk) = register_encryption_key(&mut registry, "ceo");
    let (cfo_id, cfo_sk) = register_encryption_key(&mut registry, "cfo");
    let (coo_id, coo_sk) = register_encryption_key(&mut registry, "coo");
    let (it_id, it_sk) = register_encryption_key(&mut registry, "it");

    let spec = NodeSpec::Split {
        label: "root".into(),
        threshold: 1,
        allowed_bridges: vec![],
        children: vec![
            NodeSpec::Leaf {
                label: "ceo".into(),
                hardware_key_id: ceo_id,
                allowed_bridges: vec![],
            },
            NodeSpec::Split {
                label: "departments".into(),
                threshold: 2,
                allowed_bridges: vec![],
                children: vec![
                    NodeSpec::Split {
                        label: "cxo".into(),
                        threshold: 2,
                        allowed_bridges: vec![],
                        children: vec![
                            NodeSpec::Leaf {
                                label: "cfo".into(),
                                hardware_key_id: cfo_id,
                                allowed_bridges: vec![],
                            },
                            NodeSpec::Leaf {
                                label: "coo".into(),
                                hardware_key_id: coo_id,
                                allowed_bridges: vec![],
                            },
                        ],
                    },
                    NodeSpec::Leaf {
                        label: "it".into(),
                        hardware_key_id: it_id,
                        allowed_bridges: vec![],
                    },
                ],
            },
        ],
    };

    let secret = b"company master secret 32 bytes!".to_vec();
    let key_id = split(&mut trees, &registry, "nested", &secret, &spec).expect("split should succeed");
    let leaves = leaf_ids_by_label(&trees, key_id);

    let raw_cfo = unseal_leaf(&trees, &registry, leaves[&"cfo".to_string()], &cfo_sk);
    let raw_coo = unseal_leaf(&trees, &registry, leaves[&"coo".to_string()], &coo_sk);
    let raw_it = unseal_leaf(&trees, &registry, leaves[&"it".to_string()], &it_sk);

    let mut shares = HashMap::new();
    shares.insert(leaves[&"cfo".to_string()], raw_cfo);
    shares.insert(leaves[&"coo".to_string()], raw_coo);
    shares.insert(leaves[&"it".to_string()], raw_it);

    let recovered = reconstruct(&trees, key_id, &shares)
        .expect("reconstruct should succeed via department branch");
    assert_eq!(recovered, secret);
}

#[test]
fn key_tree_nested_tree_fails_when_a_branch_is_short_even_if_others_are_oversupplied() {
    let mut trees = TreeStore::new();
    let mut registry = KeyRegistry::new();
    let (ceo_id, _ceo_sk) = register_encryption_key(&mut registry, "ceo");
    let (cfo_id, cfo_sk) = register_encryption_key(&mut registry, "cfo");
    let (coo_id, _coo_sk) = register_encryption_key(&mut registry, "coo");
    let (it_id, it_sk) = register_encryption_key(&mut registry, "it");

    let spec = NodeSpec::Split {
        label: "root".into(),
        threshold: 2, // needs 2 of {ceo, departments} — ceo alone is no longer enough
        allowed_bridges: vec![],
        children: vec![
            NodeSpec::Leaf {
                label: "ceo".into(),
                hardware_key_id: ceo_id,
                allowed_bridges: vec![],
            },
            NodeSpec::Split {
                label: "departments".into(),
                threshold: 2,
                allowed_bridges: vec![],
                children: vec![
                    NodeSpec::Split {
                        label: "cxo".into(),
                        threshold: 2,
                        allowed_bridges: vec![],
                        children: vec![
                            NodeSpec::Leaf {
                                label: "cfo".into(),
                                hardware_key_id: cfo_id,
                                allowed_bridges: vec![],
                            },
                            NodeSpec::Leaf {
                                label: "coo".into(),
                                hardware_key_id: coo_id,
                                allowed_bridges: vec![],
                            },
                        ],
                    },
                    NodeSpec::Leaf {
                        label: "it".into(),
                        hardware_key_id: it_id,
                        allowed_bridges: vec![],
                    },
                ],
            },
        ],
    };

    let secret = b"another 32-byte company secret!".to_vec();
    let key_id = split(&mut trees, &registry, "nested", &secret, &spec).expect("split should succeed");
    let leaves = leaf_ids_by_label(&trees, key_id);

    // Only cfo (not coo) from the cxo branch, plus it: cxo's own 2-of-2
    // is short by one, so "departments" can't resolve, and ceo wasn't
    // supplied either, so root's 2-of-2 has nothing to work with.
    let raw_cfo = unseal_leaf(&trees, &registry, leaves[&"cfo".to_string()], &cfo_sk);
    let raw_it = unseal_leaf(&trees, &registry, leaves[&"it".to_string()], &it_sk);

    let mut shares = HashMap::new();
    shares.insert(leaves[&"cfo".to_string()], raw_cfo);
    shares.insert(leaves[&"it".to_string()], raw_it);

    let result = reconstruct(&trees, key_id, &shares);
    assert!(matches!(result, Err(Error::QuorumNotMet)));
}

#[test]
fn key_tree_lca_of_department_siblings_is_the_department_node() {
    let mut trees = TreeStore::new();
    let mut registry = KeyRegistry::new();
    let (ma1, _) = register_encryption_key(&mut registry, "ma1");
    let (ma2, _) = register_encryption_key(&mut registry, "ma2");
    let (ma3, _) = register_encryption_key(&mut registry, "ma3");
    let (mb, _) = register_encryption_key(&mut registry, "mb");
    let spec = department_tree_spec(ma1, ma2, ma3, mb);
    let secret = b"company master secret 32 bytes!";
    let key_id = split(&mut trees, &registry, "org", secret, &spec).expect("split should succeed");

    let tree = KeyQuorumTree::load(&trees, key_id).expect("load should succeed");
    let a1 = tree.index_by_label("M.A.1").unwrap();
    let a2 = tree.index_by_label("M.A.2").unwrap();
    let mb_idx = tree.index_by_label("M.B").unwrap();
    let ma = tree.index_by_label("M.A").unwrap();

    assert_eq!(tree.find_lowest_common_ancestor(a1, a2).unwrap(), ma);
    assert_eq!(
        tree.find_lowest_common_ancestor(a1, mb_idx).unwrap(),
        tree.root_index
    );
    assert_eq!(tree.find_lowest_common_ancestor(a1, a1).unwrap(), a1);
    assert_eq!(
        tree.find_lowest_common_ancestor_of(&[a1, a2, ma]).unwrap(),
        ma
    );
}

#[test]
fn key_tree_split_and_reconstruct_a_pub_file_payload() {
    let mut trees = TreeStore::new();
    let mut registry = KeyRegistry::new();
    let (id_a, sk_a) = register_encryption_key(&mut registry, "alice");
    let (id_b, sk_b) = register_encryption_key(&mut registry, "bob");
    let spec = NodeSpec::Split {
        label: "root".into(),
        threshold: 2,
        allowed_bridges: vec![],
        children: vec![
            NodeSpec::Leaf {
                label: "a".into(),
                hardware_key_id: id_a,
                allowed_bridges: vec![],
            },
            NodeSpec::Leaf {
                label: "b".into(),
                hardware_key_id: id_b,
                allowed_bridges: vec![],
            },
        ],
    };
    let pub_file = format!(
        "-----BEGIN PUBLIC KEY-----\n{}\n-----END PUBLIC KEY-----\n",
        "QUFBQUFBQUFBQUFBQUFBQUFBQUFBQUFBQUFBQUFBQUE="
    );
    let key_id = split(&mut trees, &registry, "master-pub", pub_file.as_bytes(), &spec)
        .expect("split should accept a pub-file payload");
    let leaves = leaf_ids_by_label(&trees, key_id);
    let mut shares = HashMap::new();
    shares.insert(leaves["a"], unseal_leaf(&trees, &registry, leaves["a"], &sk_a));
    shares.insert(leaves["b"], unseal_leaf(&trees, &registry, leaves["b"], &sk_b));
    let recovered = reconstruct(&trees, key_id, &shares).expect("reconstruct");
    assert_eq!(recovered, pub_file.as_bytes());
}

#[test]
fn key_tree_validate_rejects_threshold_above_children_count() {
    let mut registry = KeyRegistry::new();
    let (id_a, _) = register_encryption_key(&mut registry, "a");

    let spec = NodeSpec::Split {
        label: "root".into(),
        threshold: 2,
        allowed_bridges: vec![],
        children: vec![NodeSpec::Leaf {
            label: "a".into(),
            hardware_key_id: id_a,
            allowed_bridges: vec![],
        }],
    };

    assert!(matches!(
        validate(&registry, &spec),
        Err(Error::InvalidQuorumThreshold)
    ));
}

#[test]
fn key_tree_validate_rejects_more_than_255_children() {
    let mut registry = KeyRegistry::new();
    let (id_a, _) = register_encryption_key(&mut registry, "a");

    let spec = NodeSpec::Split {
        label: "root".into(),
        threshold: 1,
        allowed_bridges: vec![],
        children: (0..256)
            .map(|i| NodeSpec::Leaf {
                label: format!("leaf-{i}"),
                hardware_key_id: id_a,
                allowed_bridges: vec![],
            })
            .collect(),
    };

    assert!(matches!(
        validate(&registry, &spec),
        Err(Error::InvalidQuorumThreshold)
    ));
}

#[test]
fn key_tree_validate_rejects_zero_threshold() {
    let mut registry = KeyRegistry::new();
    let (id_a, _) = register_encryption_key(&mut registry, "a");
    let (id_b, _) = register_encryption_key(&mut registry, "b");

    let spec = NodeSpec::Split {
        label: "root".into(),
        threshold: 0,
        allowed_bridges: vec![],
        children: vec![
            NodeSpec::Leaf {
                label: "a".into(),
                hardware_key_id: id_a,
                allowed_bridges: vec![],
            },
            NodeSpec::Leaf {
                label: "b".into(),
                hardware_key_id: id_b,
                allowed_bridges: vec![],
            },
        ],
    };

    assert!(matches!(
        validate(&registry, &spec),
        Err(Error::InvalidQuorumThreshold)
    ));
}

#[test]
fn key_tree_validate_rejects_signing_key_as_leaf() {
    let mut registry = KeyRegistry::new();
    let signing_key = ed25519_dalek::SigningKey::generate(&mut rand::rngs::OsRng);
    let public_key = signing_key.verifying_key().to_bytes();
    let id = register_key(&mut registry, "signer", KeyType::Signing, &public_key, CREATED)
        .expect("register_key should succeed");

    let spec = NodeSpec::Leaf {
        label: "leaf".into(),
        hardware_key_id: id,
        allowed_bridges: vec![],
    };
    assert!(matches!(validate(&registry, &spec), Err(Error::WrongKeyType)));
}

#[test]
fn key_tree_validate_rejects_revoked_key_as_leaf() {
    let mut registry = KeyRegistry::new();
    let (id, _) = register_encryption_key(&mut registry, "a");
    revoke_key(&mut registry, id, CREATED);

    let spec = NodeSpec::Leaf {
        label: "leaf".into(),
        hardware_key_id: id,
        allowed_bridges: vec![],
    };
    assert!(matches!(validate(&registry, &spec), Err(Error::KeyRevoked)));
}

#[test]
fn key_tree_describe_reports_labels_thresholds_and_leaf_key_labels() {
    let mut trees = TreeStore::new();
    let mut registry = KeyRegistry::new();
    let (id_a, _) = register_encryption_key(&mut registry, "alice");
    let (id_b, _) = register_encryption_key(&mut registry, "bob");

    let spec = NodeSpec::Split {
        label: "root".into(),
        threshold: 1,
        allowed_bridges: vec![],
        children: vec![
            NodeSpec::Leaf {
                label: "a".into(),
                hardware_key_id: id_a,
                allowed_bridges: vec![],
            },
            NodeSpec::Leaf {
                label: "b".into(),
                hardware_key_id: id_b,
                allowed_bridges: vec![],
            },
        ],
    };
    let secret = b"describe-me-describe-me-32bytes".to_vec();
    let key_id = split(&mut trees, &registry, "described", &secret, &spec).expect("split should succeed");

    let summary = describe(&trees, &registry, key_id).expect("describe should succeed");
    assert_eq!(summary.label, "described");
    assert_eq!(summary.root.threshold, Some(1));
    assert_eq!(summary.root.children.len(), 2);
    let labels: Vec<_> = summary
        .root
        .children
        .iter()
        .map(|c| c.hardware_key_label.clone().unwrap())
        .collect();
    assert!(labels.contains(&"alice".to_string()));
    assert!(labels.contains(&"bob".to_string()));
}

#[test]
fn key_tree_validate_rejects_duplicate_labels() {
    let mut registry = KeyRegistry::new();
    let (id_a, _) = register_encryption_key(&mut registry, "a");
    let spec = NodeSpec::Split {
        label: "root".into(),
        threshold: 1,
        allowed_bridges: vec![],
        children: vec![
            NodeSpec::Leaf {
                label: "dup".into(),
                hardware_key_id: id_a,
                allowed_bridges: vec![],
            },
            NodeSpec::Leaf {
                label: "dup".into(),
                hardware_key_id: id_a,
                allowed_bridges: vec![],
            },
        ],
    };
    assert!(matches!(
        validate(&registry, &spec),
        Err(Error::DuplicateNodeLabel)
    ));
}

#[test]
fn a_split_keeps_nothing_but_sealed_shares_at_its_leaves() {
    let mut trees = TreeStore::new();
    let mut registry = KeyRegistry::new();
    let (id1, _) = register_encryption_key(&mut registry, "ma1");
    let (id2, _) = register_encryption_key(&mut registry, "ma2");
    let (id3, _) = register_encryption_key(&mut registry, "ma3");
    let (idb, _) = register_encryption_key(&mut registry, "mb");
    let spec = department_tree_spec(id1, id2, id3, idb);
    split(&mut trees, &registry, "org", b"company master secret 32 bytes!", &spec).expect("split");
    assert_eq!(trees.nodes.len(), 6);
    for row in &trees.nodes {
        assert_eq!(row.wrapped_share.is_some(), row.hardware_key_id.is_some());
    }
}

/// A spec as text, with every whitelist in order.
fn tidy_text(spec: &NodeSpec) -> String {
    let mut peers = spec.allowed_bridges().clone();
    peers.sort();
    match spec {
        NodeSpec::Leaf { label, hardware_key_id, .. } => {
            format!("{label}:{hardware_key_id}{peers:?}")
        }
        NodeSpec::Split { label, threshold, children, .. } => {
            let below: Vec<String> = children.iter().map(tidy_text).collect();
            format!("{label}/{threshold}{peers:?}({})", below.join(","))
        }
    }
}

#[test]
fn a_fresh_tree_is_exported_as_it_was_asked_for() {
    let mut trees = TreeStore::new();
    let mut registry = KeyRegistry::new();
    let (id1, _) = register_encryption_key(&mut registry, "one");
    let (id2, _) = register_encryption_key(&mut registry, "two");
    let leaf = |label: &str, id: i64, peers: &[&str]| NodeSpec::Leaf {
        label: label.into(),
        hardware_key_id: id,
        allowed_bridges: peers.iter().map(|peer| peer.to_string()).collect(),
    };
    let branch = |label: &str, threshold: u8, children: Vec<NodeSpec>| NodeSpec::Split {
        label: label.into(),
        threshold,
        children,
        allowed_bridges: vec![],
    };
    let spec = branch(
        "top",
        2,
        vec![
            leaf("a", id1, &["d", "b", "c"]),
            branch("left", 1, vec![leaf("b", id2, &[]), leaf("c", id1, &["a"])]),
            leaf("d", id2, &[]),
            branch("right", 2, vec![leaf("e", id1, &["d"]), leaf("f", id2, &["e", "a"])]),
        ],
    );
    split(&mut trees, &registry, "other", b"another secret", &branch("x", 1, vec![leaf("y", id1, &[])]))
        .expect("split");
    let key_id = split(&mut trees, &registry, "org", b"secret", &spec).expect("split");
    let exported = export_spec(&trees, key_id).expect("export");
    assert_eq!(tidy_text(&exported), tidy_text(&spec));
    match exported {
        NodeSpec::Split { children, .. } => {
            assert_eq!(children[0].allowed_bridges(), &vec!["b", "c", "d"]);
        }
        NodeSpec::Leaf { .. } => panic!("the top is a split"),
    }
}

#[test]
fn climbing_gives_the_secret_or_nothing_for_every_set_of_shares() {
    let mut trees = TreeStore::new();
    let mut registry = KeyRegistry::new();
    let (id1, sk1) = register_encryption_key(&mut registry, "ma1");
    let (id2, sk2) = register_encryption_key(&mut registry, "ma2");
    let (id3, sk3) = register_encryption_key(&mut registry, "ma3");
    let (idb, skb) = register_encryption_key(&mut registry, "mb");
    let spec = department_tree_spec(id1, id2, id3, idb);
    let secret = b"company master secret 32 bytes!";
    let key_id = split(&mut trees, &registry, "org", secret, &spec).expect("split");
    let leaves = leaf_ids_by_label(&trees, key_id);
    let own = [
        (leaves["M.A.1"], unseal_leaf(&trees, &registry, leaves["M.A.1"], &sk1)),
        (leaves["M.A.2"], unseal_leaf(&trees, &registry, leaves["M.A.2"], &sk2)),
        (leaves["M.A.3"], unseal_leaf(&trees, &registry, leaves["M.A.3"], &sk3)),
        (leaves["M.B"], unseal_leaf(&trees, &registry, leaves["M.B"], &skb)),
    ];
    let tree = KeyQuorumTree::load(&trees, key_id).expect("load");
    let mut given = 0;
    for chosen in 0u8..16 {
        let shares: HashMap<i64, Vec<u8>> = own
            .iter()
            .enumerate()
            .filter(|(k, _)| chosen & (1 << k) != 0)
            .map(|(_, share)| share.clone())
            .collect();
        for start in 0..tree.nodes.len() {
            if let Ok(value) = tree.reconstruct_up_to_root(start, &shares) {
                assert_eq!(value, secret);
                given += 1;
            }
        }
        assert_eq!(
            tree.reconstruct_up_to_root(tree.root_index, &shares),
            tree.reconstruct(&shares)
        );
    }
    assert!(given > 0);
}
