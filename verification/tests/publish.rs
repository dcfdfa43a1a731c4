//! The public side of stored trees.

use std::collections::HashSet;

use keyquorum::error::{Error, StoreError};
use keyquorum::key_tree::{
    add_bridge, allow_bridge, bind_pair, export_public_tree, split, visible_labels, NodeSpec,
    TreeStore,
};
use keyquorum::keys::{generate_encryption_keypair, register_key, KeyRegistry, KeyType};
use keyquorum::relay::public_tree::validate_public_tree;

const CREATED: &str = "2026-01-01 00:00:00";

fn register_encryption_key(registry: &mut KeyRegistry, label: &str) -> (i64, [u8; 32]) {
    let (secret, public) = generate_encryption_keypair();
    let id = register_key(registry, label, KeyType::Encryption, &public, CREATED)
        .expect("register_key should succeed");
    (id, secret)
}

fn seen_by(
    trees: &TreeStore,
    registry: &KeyRegistry,
    key_id: i64,
    label: &str,
) -> HashSet<String> {
    visible_labels(trees, registry, key_id, label).expect("visible").into_iter().collect()
}

fn two_branch_org_spec(a1: i64, a2: i64, s1: i64, s2: i64) -> NodeSpec {
    NodeSpec::Split {
        label: "M".into(),
        threshold: 2,
        allowed_bridges: vec![],
        children: vec![
            NodeSpec::Split {
                label: "M.A".into(),
                threshold: 2,
                allowed_bridges: vec![],
                children: vec![
                    NodeSpec::Leaf {
                        label: "M.A.1".into(),
                        hardware_key_id: a1,
                        allowed_bridges: vec![],
                    },
                    NodeSpec::Leaf {
                        label: "M.A.2".into(),
                        hardware_key_id: a2,
                        allowed_bridges: vec![],
                    },
                ],
            },
            NodeSpec::Split {
                label: "M.S".into(),
                threshold: 2,
                allowed_bridges: vec![],
                children: vec![
                    NodeSpec::Leaf {
                        label: "M.S.1".into(),
                        hardware_key_id: s1,
                        allowed_bridges: vec![],
                    },
                    NodeSpec::Leaf {
                        label: "M.S.2".into(),
                        hardware_key_id: s2,
                        allowed_bridges: vec![],
                    },
                ],
            },
        ],
    }
}

#[test]
fn ms2_sees_lineage_siblings_and_bridge_peer_but_not_peer_sibling() {
    let mut trees = TreeStore::new();
    let mut registry = KeyRegistry::new();
    let (a1, _) = register_encryption_key(&mut registry, "a1");
    let (a2, _) = register_encryption_key(&mut registry, "a2");
    let (s1, _) = register_encryption_key(&mut registry, "s1");
    let (s2, _) = register_encryption_key(&mut registry, "s2");
    let spec = two_branch_org_spec(a1, a2, s1, s2);
    let secret = b"company master secret 32 bytes!";
    let key_id = split(&mut trees, &registry, "org", secret, &spec).expect("split");

    let without_bridge = seen_by(&trees, &registry, key_id, "M.S.2");
    assert_eq!(
        without_bridge,
        HashSet::from(["M".into(), "M.S".into(), "M.S.1".into(), "M.S.2".into(),])
    );

    allow_bridge(&mut trees, key_id, "M.S.2", "M.A.2").expect("whitelist");
    let still_without_link = seen_by(&trees, &registry, key_id, "M.S.2");
    assert_eq!(still_without_link, without_bridge);

    add_bridge(&mut trees, key_id, "M.S.2", "M.A.2").expect("establish");
    let with_peer = seen_by(&trees, &registry, key_id, "M.S.2");
    assert_eq!(
        with_peer,
        HashSet::from([
            "M".into(),
            "M.A".into(),
            "M.A.2".into(),
            "M.S".into(),
            "M.S.1".into(),
            "M.S.2".into(),
        ])
    );
    assert!(!with_peer.contains("M.A.1"));

    bind_pair(&mut trees, key_id, "M.S.2", "M.A.1").expect("second bridge");
    let full = seen_by(&trees, &registry, key_id, "M.S.2");
    assert!(full.contains("M.A.1"));
}

#[test]
fn a_published_tree_holds_no_share_and_is_one_that_the_relay_takes() {
    let mut trees = TreeStore::new();
    let mut registry = KeyRegistry::new();
    let ids: Vec<i64> = ["a1", "a2", "s1", "s2"]
        .iter()
        .map(|label| register_encryption_key(&mut registry, label).0)
        .collect();
    let spec = two_branch_org_spec(ids[0], ids[1], ids[2], ids[3]);
    let key_id = split(&mut trees, &registry, "org", b"secret", &spec).expect("split");
    bind_pair(&mut trees, key_id, "M.S.2", "M.A.2").expect("paired");
    let tree = export_public_tree(&trees, &registry, key_id).expect("published");
    assert_eq!(tree.label, "org");
    assert_eq!(tree.nodes.len(), 7);
    assert_eq!(tree.nodes[0].parent_label, None);
    assert_eq!(tree.nodes[0].threshold, Some(2));
    let leaf = tree.nodes.iter().find(|node| node.label == "M.S.2").expect("a leaf");
    assert_eq!(leaf.parent_label.as_deref(), Some("M.S"));
    assert_eq!(leaf.encryption_public_key, Some(hex::encode(&registry.keys[3].public_key)));
    assert_eq!(leaf.encryption_fingerprint.as_ref(), Some(&registry.keys[3].fingerprint));
    assert_eq!((tree.whitelist.len(), tree.links.len()), (2, 1));
    assert_eq!(validate_public_tree(&tree), Ok(()));

    for row in trees.nodes.iter_mut() {
        row.wrapped_share = None;
    }
    let again = export_public_tree(&trees, &registry, key_id).expect("published");
    assert_eq!(format!("{again:?}"), format!("{tree:?}"));
}

#[test]
fn what_is_not_stored_is_not_published() {
    let trees = TreeStore::new();
    let registry = KeyRegistry::new();
    assert_eq!(
        export_public_tree(&trees, &registry, 1).unwrap_err(),
        Error::Db(StoreError::NoRows)
    );
    assert_eq!(
        visible_labels(&trees, &registry, 1, "M").unwrap_err(),
        Error::Db(StoreError::NoRows)
    );
}
