//! Evicting a leaf and refreshing its siblings.

use std::collections::HashMap;

use keyquorum::error::Error;
use keyquorum::key_tree::{
    add_bridge, bind_pair, evict_and_refresh, list_bridges, reconstruct, reconstruct_from_lca,
    split, unwrap_leaf_share, KeyQuorumTree, NodeSpec, TreeStore,
};
use keyquorum::keys::{register_key, KeyRegistry, KeyType};

const CREATED: &str = "2026-01-01 00:00:00";

fn register_encryption_key(
    registry: &mut KeyRegistry,
    label: &str,
) -> (i64, crypto_box::SecretKey) {
    let secret_key = crypto_box::SecretKey::generate(&mut rand::rngs::OsRng);
    let public_key = *secret_key.public_key().as_bytes();
    let id = register_key(registry, label, KeyType::Encryption, &public_key, CREATED)
        .expect("register_key should succeed");
    (id, secret_key)
}

fn unseal_leaf(
    trees: &TreeStore,
    registry: &KeyRegistry,
    node_id: i64,
    secret_key: &crypto_box::SecretKey,
) -> Vec<u8> {
    unwrap_leaf_share(trees, registry, node_id, &secret_key.to_bytes())
        .expect("unseal should succeed with the matching secret key")
}

fn leaf_ids_by_label(trees: &TreeStore, key_id: i64) -> HashMap<String, i64> {
    trees
        .nodes
        .iter()
        .filter(|row| row.key_id == key_id && row.hardware_key_id.is_some())
        .map(|row| (row.label.clone(), row.id))
        .collect()
}

fn department_tree_spec(ma1: i64, ma2: i64, ma3: i64, mb: i64) -> NodeSpec {
    NodeSpec::Split {
        label: "M".into(),
        threshold: 1,
        allowed_bridges: vec![],
        children: vec![
            NodeSpec::Split {
                label: "M.A".into(),
                threshold: 2,
                allowed_bridges: vec![],
                children: vec![
                    NodeSpec::Leaf {
                        label: "M.A.1".into(),
                        hardware_key_id: ma1,
                        allowed_bridges: vec!["M.B".into()],
                    },
                    NodeSpec::Leaf {
                        label: "M.A.2".into(),
                        hardware_key_id: ma2,
                        allowed_bridges: vec![],
                    },
                    NodeSpec::Leaf {
                        label: "M.A.3".into(),
                        hardware_key_id: ma3,
                        allowed_bridges: vec![],
                    },
                ],
            },
            NodeSpec::Leaf {
                label: "M.B".into(),
                hardware_key_id: mb,
                allowed_bridges: vec![],
            },
        ],
    }
}

#[test]
fn evict_evicting_ma3_lets_survivors_reach_root_without_the_parent_or_old_share() {
    let mut trees = TreeStore::new();
    let mut registry = KeyRegistry::new();
    let (id1, sk1) = register_encryption_key(&mut registry, "ma1");
    let (id2, sk2) = register_encryption_key(&mut registry, "ma2");
    let (id3, sk3) = register_encryption_key(&mut registry, "ma3");
    let (idb, _skb) = register_encryption_key(&mut registry, "mb");
    let spec = department_tree_spec(id1, id2, id3, idb);
    let secret = b"company master secret 32 bytes!";
    let key_id = split(&mut trees, &registry, "org", secret, &spec).expect("split should succeed");

    let leaves = leaf_ids_by_label(&trees, key_id);
    let raw1 = unseal_leaf(&trees, &registry, leaves["M.A.1"], &sk1);
    let raw2 = unseal_leaf(&trees, &registry, leaves["M.A.2"], &sk2);
    let raw3 = unseal_leaf(&trees, &registry, leaves["M.A.3"], &sk3);

    let mut before = HashMap::new();
    before.insert(leaves["M.A.1"], raw1.clone());
    before.insert(leaves["M.A.2"], raw2.clone());
    assert_eq!(reconstruct(&trees, key_id, &before).unwrap(), secret);

    let mut survivors = HashMap::new();
    survivors.insert(leaves["M.A.1"], raw1.clone());
    survivors.insert(leaves["M.A.2"], raw2.clone());
    evict_and_refresh(&mut trees, &registry, key_id, leaves["M.A.3"], &survivors)
        .expect("evict should succeed");

    let tree = KeyQuorumTree::load(&trees, key_id).expect("load should succeed");
    let ma = tree.index_by_label("M.A").unwrap();
    assert_eq!(tree.nodes[ma].threshold, Some(2));
    assert!(!tree.nodes[tree.index_by_label("M.A.3").unwrap()].is_active);

    let new1 = unseal_leaf(&trees, &registry, leaves["M.A.1"], &sk1);
    let new2 = unseal_leaf(&trees, &registry, leaves["M.A.2"], &sk2);
    let mut after = HashMap::new();
    after.insert(leaves["M.A.1"], new1.clone());
    after.insert(leaves["M.A.2"], new2.clone());
    assert_eq!(reconstruct(&trees, key_id, &after).unwrap(), secret);

    let lca = tree
        .find_lowest_common_ancestor(
            tree.index_by_label("M.A.1").unwrap(),
            tree.index_by_label("M.A.2").unwrap(),
        )
        .unwrap();
    assert_eq!(
        reconstruct_from_lca(&trees, key_id, lca, &after).unwrap(),
        secret
    );

    let mut stale = HashMap::new();
    stale.insert(leaves["M.A.1"], new1);
    stale.insert(leaves["M.A.3"], raw3);
    assert!(matches!(
        reconstruct(&trees, key_id, &stale),
        Err(Error::QuorumNotMet)
    ));
}

#[test]
fn the_share_of_an_evicted_leaf_counts_for_nothing() {
    let mut trees = TreeStore::new();
    let mut registry = KeyRegistry::new();
    let (id1, sk1) = register_encryption_key(&mut registry, "ma1");
    let (id2, sk2) = register_encryption_key(&mut registry, "ma2");
    let (id3, sk3) = register_encryption_key(&mut registry, "ma3");
    let (idb, _skb) = register_encryption_key(&mut registry, "mb");
    let spec = department_tree_spec(id1, id2, id3, idb);
    let secret = b"company master secret 32 bytes!";
    let key_id = split(&mut trees, &registry, "org", secret, &spec).expect("split should succeed");

    let leaves = leaf_ids_by_label(&trees, key_id);
    let old3 = unseal_leaf(&trees, &registry, leaves["M.A.3"], &sk3);
    let mut survivors = HashMap::new();
    survivors.insert(leaves["M.A.1"], unseal_leaf(&trees, &registry, leaves["M.A.1"], &sk1));
    survivors.insert(leaves["M.A.2"], unseal_leaf(&trees, &registry, leaves["M.A.2"], &sk2));
    evict_and_refresh(&mut trees, &registry, key_id, leaves["M.A.3"], &survivors)
        .expect("evict should succeed");

    let mut shares = HashMap::new();
    for share in [None, Some(old3), Some(vec![7u8; 3])] {
        shares.clear();
        if let Some(share) = share {
            shares.insert(leaves["M.A.3"], share);
        }
        shares.insert(leaves["M.A.1"], unseal_leaf(&trees, &registry, leaves["M.A.1"], &sk1));
        assert!(matches!(
            reconstruct(&trees, key_id, &shares),
            Err(Error::QuorumNotMet)
        ));
        shares.insert(leaves["M.A.2"], unseal_leaf(&trees, &registry, leaves["M.A.2"], &sk2));
        assert_eq!(reconstruct(&trees, key_id, &shares).unwrap(), secret);
    }
}

#[test]
fn evict_evict_rejects_the_same_raw_share_for_two_survivors() {
    let mut trees = TreeStore::new();
    let mut registry = KeyRegistry::new();
    let (id1, sk1) = register_encryption_key(&mut registry, "ma1");
    let (id2, _) = register_encryption_key(&mut registry, "ma2");
    let (id3, _) = register_encryption_key(&mut registry, "ma3");
    let (idb, _) = register_encryption_key(&mut registry, "mb");
    let spec = department_tree_spec(id1, id2, id3, idb);
    let secret = b"company master secret 32 bytes!";
    let key_id = split(&mut trees, &registry, "org", secret, &spec).expect("split should succeed");

    let leaves = leaf_ids_by_label(&trees, key_id);
    let raw1 = unseal_leaf(&trees, &registry, leaves["M.A.1"], &sk1);
    let mut survivors = HashMap::new();
    survivors.insert(leaves["M.A.1"], raw1.clone());
    survivors.insert(leaves["M.A.2"], raw1);
    assert!(matches!(
        evict_and_refresh(&mut trees, &registry, key_id, leaves["M.A.3"], &survivors),
        Err(Error::ShareShapeMismatch)
    ));
    let tree = KeyQuorumTree::load(&trees, key_id).expect("load should succeed");
    assert!(tree.nodes[tree.index_by_label("M.A.3").unwrap()].is_active);
}

#[test]
fn evict_evict_rejects_a_parent_threshold_of_one() {
    let mut trees = TreeStore::new();
    let mut registry = KeyRegistry::new();
    let (id_a, sk_a) = register_encryption_key(&mut registry, "a");
    let (id_b, _sk_b) = register_encryption_key(&mut registry, "b");
    let spec = NodeSpec::Split {
        label: "root".into(),
        threshold: 1,
        allowed_bridges: vec![],
        children: vec![
            NodeSpec::Leaf {
                label: "a".into(),
                hardware_key_id: id_a,
                allowed_bridges: vec![],
            },
            NodeSpec::Leaf {
                label: "b".into(),
                hardware_key_id: id_b,
                allowed_bridges: vec![],
            },
        ],
    };
    let secret = b"company master secret 32 bytes!";
    let key_id = split(&mut trees, &registry, "flat", secret, &spec).expect("split should succeed");
    let leaves = leaf_ids_by_label(&trees, key_id);
    let raw_a = unseal_leaf(&trees, &registry, leaves["a"], &sk_a);
    let mut survivors = HashMap::new();
    survivors.insert(leaves["a"], raw_a);
    assert!(matches!(
        evict_and_refresh(&mut trees, &registry, key_id, leaves["b"], &survivors),
        Err(Error::CannotEvict)
    ));
}

#[test]
fn evict_evict_drops_binds_that_mention_the_evicted_node() {
    let mut trees = TreeStore::new();
    let mut registry = KeyRegistry::new();
    let (id1, sk1) = register_encryption_key(&mut registry, "ma1");
    let (id2, sk2) = register_encryption_key(&mut registry, "ma2");
    let (id3, _sk3) = register_encryption_key(&mut registry, "ma3");
    let (idb, _skb) = register_encryption_key(&mut registry, "mb");
    let spec = department_tree_spec(id1, id2, id3, idb);
    let secret = b"company master secret 32 bytes!";
    let key_id = split(&mut trees, &registry, "org", secret, &spec).expect("split");
    add_bridge(&mut trees, key_id, "M.A.1", "M.B").expect("keep this bind");
    bind_pair(&mut trees, key_id, "M.A.1", "M.A.3").expect("bind to evicted");

    let leaves = leaf_ids_by_label(&trees, key_id);
    let mut survivors = HashMap::new();
    survivors.insert(leaves["M.A.1"], unseal_leaf(&trees, &registry, leaves["M.A.1"], &sk1));
    survivors.insert(leaves["M.A.2"], unseal_leaf(&trees, &registry, leaves["M.A.2"], &sk2));
    evict_and_refresh(&mut trees, &registry, key_id, leaves["M.A.3"], &survivors).expect("evict");

    let listing = list_bridges(&trees, key_id);
    assert!(listing
        .established
        .iter()
        .any(|l| { (l.from == "M.A.1" && l.to == "M.B") || (l.from == "M.B" && l.to == "M.A.1") }));
    assert!(!listing
        .established
        .iter()
        .any(|l| l.from == "M.A.3" || l.to == "M.A.3"));
    assert!(!listing
        .allowed
        .iter()
        .any(|(from, to)| from == "M.A.3" || to == "M.A.3"));
}
