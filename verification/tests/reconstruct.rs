//! Splitting a secret and putting it together again.

use std::collections::HashMap;

use keyquorum::error::Error;
use keyquorum::key_tree::{
    reconstruct, split, unwrap_leaf_share, KeyQuorumTree, NodeSpec, TreeStore,
};
use keyquorum::keys::{register_key, KeyRegistry, KeyType};

const CREATED: &str = "2026-01-01 00:00:00";

fn register_encryption_key(
    registry: &mut KeyRegistry,
    label: &str,
) -> (i64, crypto_box::SecretKey) {
    let secret_key = crypto_box::SecretKey::generate(&mut rand::rngs::OsRng);
    let public_key = *secret_key.public_key().as_bytes();
    let id = register_key(registry, label, KeyType::Encryption, &public_key, CREATED)
        .expect("register_key should succeed");
    (id, secret_key)
}

fn unseal_leaf(
    trees: &TreeStore,
    registry: &KeyRegistry,
    node_id: i64,
    secret_key: &crypto_box::SecretKey,
) -> Vec<u8> {
    unwrap_leaf_share(trees, registry, node_id, &secret_key.to_bytes())
        .expect("unseal should succeed with the matching secret key")
}

fn leaf_ids_by_label(trees: &TreeStore, key_id: i64) -> HashMap<String, i64> {
    trees
        .nodes
        .iter()
        .filter(|row| row.key_id == key_id && row.hardware_key_id.is_some())
        .map(|row| (row.label.clone(), row.id))
        .collect()
}

fn department_tree_spec(ma1: i64, ma2: i64, ma3: i64, mb: i64) -> NodeSpec {
    NodeSpec::Split {
        label: "M".into(),
        threshold: 1,
        allowed_bridges: vec![],
        children: vec![
            NodeSpec::Split {
                label: "M.A".into(),
                threshold: 2,
                allowed_bridges: vec![],
                children: vec![
                    NodeSpec::Leaf {
                        label: "M.A.1".into(),
                        hardware_key_id: ma1,
                        allowed_bridges: vec!["M.B".into()],
                    },
                    NodeSpec::Leaf {
                        label: "M.A.2".into(),
                        hardware_key_id: ma2,
                        allowed_bridges: vec![],
                    },
                    NodeSpec::Leaf {
                        label: "M.A.3".into(),
                        hardware_key_id: ma3,
                        allowed_bridges: vec![],
                    },
                ],
            },
            NodeSpec::Leaf {
                label: "M.B".into(),
                hardware_key_id: mb,
                allowed_bridges: vec![],
            },
        ],
    }
}

#[test]
fn reconstruct_flat_tree_round_trips_split_and_reconstruct() {
    let mut trees = TreeStore::new();
    let mut registry = KeyRegistry::new();
    let (id_a, sk_a) = register_encryption_key(&mut registry, "a");
    let (id_b, sk_b) = register_encryption_key(&mut registry, "b");
    let (id_c, _sk_c) = register_encryption_key(&mut registry, "c");

    let spec = NodeSpec::Split {
        label: "root".into(),
        threshold: 2,
        allowed_bridges: vec![],
        children: vec![
            NodeSpec::Leaf {
                label: "a".into(),
                hardware_key_id: id_a,
                allowed_bridges: vec![],
            },
            NodeSpec::Leaf {
                label: "b".into(),
                hardware_key_id: id_b,
                allowed_bridges: vec![],
            },
            NodeSpec::Leaf {
                label: "c".into(),
                hardware_key_id: id_c,
                allowed_bridges: vec![],
            },
        ],
    };

    let secret = b"the quorum has been reached!!!!".to_vec();
    let key_id = split(&mut trees, &registry, "flat", &secret, &spec).expect("split should succeed");

    let leaves = leaf_ids_by_label(&trees, key_id);
    let raw_a = unseal_leaf(&trees, &registry, leaves[&"a".to_string()], &sk_a);
    let raw_b = unseal_leaf(&trees, &registry, leaves[&"b".to_string()], &sk_b);

    let mut shares = HashMap::new();
    shares.insert(leaves[&"a".to_string()], raw_a);
    shares.insert(leaves[&"b".to_string()], raw_b);

    let recovered = reconstruct(&trees, key_id, &shares).expect("reconstruct should succeed");
    assert_eq!(recovered, secret);
}

#[test]
fn reconstruct_reconstruct_skips_a_malformed_share_instead_of_aborting() {
    let mut trees = TreeStore::new();
    let mut registry = KeyRegistry::new();
    let (id_a, _sk_a) = register_encryption_key(&mut registry, "a");
    let (id_b, sk_b) = register_encryption_key(&mut registry, "b");
    let (id_c, sk_c) = register_encryption_key(&mut registry, "c");

    let spec = NodeSpec::Split {
        label: "root".into(),
        threshold: 2,
        allowed_bridges: vec![],
        children: vec![
            NodeSpec::Leaf {
                label: "a".into(),
                hardware_key_id: id_a,
                allowed_bridges: vec![],
            },
            NodeSpec::Leaf {
                label: "b".into(),
                hardware_key_id: id_b,
                allowed_bridges: vec![],
            },
            NodeSpec::Leaf {
                label: "c".into(),
                hardware_key_id: id_c,
                allowed_bridges: vec![],
            },
        ],
    };

    let secret = b"the quorum has been reached!!!!".to_vec();
    let key_id = split(&mut trees, &registry, "flat", &secret, &spec).expect("split should succeed");

    let leaves = leaf_ids_by_label(&trees, key_id);
    let raw_b = unseal_leaf(&trees, &registry, leaves[&"b".to_string()], &sk_b);
    let raw_c = unseal_leaf(&trees, &registry, leaves[&"c".to_string()], &sk_c);

    // A genuinely malformed "share" (not valid Share-encoded bytes)
    // for `a` — the first leaf tried, in id order, since children are
    // inserted in spec order — alongside two real, correctly-unwrapped
    // shares for b and c. Before the fix, hitting the malformed entry
    // while still under threshold aborted the *entire* reconstruction
    // via `?`, never even trying b or c.
    let mut shares = HashMap::new();
    shares.insert(leaves[&"a".to_string()], vec![0xFF]);
    shares.insert(leaves[&"b".to_string()], raw_b);
    shares.insert(leaves[&"c".to_string()], raw_c);

    let recovered = reconstruct(&trees, key_id, &shares)
        .expect("reconstruct should succeed despite one malformed share");
    assert_eq!(recovered, secret);
}

#[test]
fn reconstruct_flat_tree_reconstruct_fails_with_too_few_shares() {
    let mut trees = TreeStore::new();
    let mut registry = KeyRegistry::new();
    let (id_a, sk_a) = register_encryption_key(&mut registry, "a");
    let (id_b, _sk_b) = register_encryption_key(&mut registry, "b");

    let spec = NodeSpec::Split {
        label: "root".into(),
        threshold: 2,
        allowed_bridges: vec![],
        children: vec![
            NodeSpec::Leaf {
                label: "a".into(),
                hardware_key_id: id_a,
                allowed_bridges: vec![],
            },
            NodeSpec::Leaf {
                label: "b".into(),
                hardware_key_id: id_b,
                allowed_bridges: vec![],
            },
        ],
    };

    let secret = b"top secret data key value here!".to_vec();
    let key_id = split(&mut trees, &registry, "flat", &secret, &spec).expect("split should succeed");

    let leaves = leaf_ids_by_label(&trees, key_id);
    let raw_a = unseal_leaf(&trees, &registry, leaves[&"a".to_string()], &sk_a);
    let mut shares = HashMap::new();
    shares.insert(leaves[&"a".to_string()], raw_a);

    let result = reconstruct(&trees, key_id, &shares);
    assert!(matches!(result, Err(Error::QuorumNotMet)));
}

#[test]
fn reconstruct_nested_tree_round_trips_across_branches() {
    // "CEO alone" OR a 2-of-2 department quorum, where one department
    // (cxo) is itself split 2-of-2.
    let mut trees = TreeStore::new();
    let mut registry = KeyRegistry::new();
    let (ceo_id, _ceo_sk) = register_encryption_key(&mut registry, "ceo");
    let (cfo_id, cfo_sk) = register_encryption_key(&mut registry, "cfo");
    let (coo_id, coo_sk) = register_encryption_key(&mut registry, "coo");
    let (it_id, it_sk) = register_encryption_key(&mut registry, "it");

    let spec = NodeSpec::Split {
        label: "root".into(),
        threshold: 1,
        allowed_bridges: vec![],
        children: vec![
            NodeSpec::Leaf {
                label: "ceo".into(),
                hardware_key_id: ceo_id,
                allowed_bridges: vec![],
            },
            NodeSpec::Split {
                label: "departments".into(),
                threshold: 2,
                allowed_bridges: vec![],
                children: vec![
                    NodeSpec::Split {
                        label: "cxo".into(),
                        threshold: 2,
                        allowed_bridges: vec![],
                        children: vec![
                            NodeSpec::Leaf {
                                label: "cfo".into(),
                                hardware_key_id: cfo_id,
                                allowed_bridges: vec![],
                            },
                            NodeSpec::Leaf {
                                label: "coo".into(),
                                hardware_key_id: coo_id,
                                allowed_bridges: vec![],
                            },
                        ],
                    },
                    NodeSpec::Leaf {
                        label: "it".into(),
                        hardware_key_id: it_id,
                        allowed_bridges: vec![],
                    },
                ],
            },
        ],
    };

    let secret = b"company master secret 32 bytes!".to_vec();
    let key_id = split(&mut trees, &registry, "nested", &secret, &spec).expect("split should succeed");
    let leaves = leaf_ids_by_label(&trees, key_id);

    let raw_cfo = unseal_leaf(&trees, &registry, leaves[&"cfo".to_string()], &cfo_sk);
    let raw_coo = unseal_leaf(&trees, &registry, leaves[&"coo".to_string()], &coo_sk);
    let raw_it = unseal_leaf(&trees, &registry, leaves[&"it".to_string()], &it_sk);

    let mut shares = HashMap::new();
    shares.insert(leaves[&"cfo".to_string()], raw_cfo);
    shares.insert(leaves[&"coo".to_string()], raw_coo);
    shares.insert(leaves[&"it".to_string()], raw_it);

    let recovered = reconstruct(&trees, key_id, &shares)
        .expect("reconstruct should succeed via department branch");
    assert_eq!(recovered, secret);
}

#[test]
fn reconstruct_nested_tree_fails_when_a_branch_is_short_even_if_others_are_oversupplied() {
    let mut trees = TreeStore::new();
    let mut registry = KeyRegistry::new();
    let (ceo_id, _ceo_sk) = register_encryption_key(&mut registry, "ceo");
    let (cfo_id, cfo_sk) = register_encryption_key(&mut registry, "cfo");
    let (coo_id, _coo_sk) = register_encryption_key(&mut registry, "coo");
    let (it_id, it_sk) = register_encryption_key(&mut registry, "it");

    let spec = NodeSpec::Split {
        label: "root".into(),
        threshold: 2, // needs 2 of {ceo, departments} — ceo alone is no longer enough
        allowed_bridges: vec![],
        children: vec![
            NodeSpec::Leaf {
                label: "ceo".into(),
                hardware_key_id: ceo_id,
                allowed_bridges: vec![],
            },
            NodeSpec::Split {
                label: "departments".into(),
                threshold: 2,
                allowed_bridges: vec![],
                children: vec![
                    NodeSpec::Split {
                        label: "cxo".into(),
                        threshold: 2,
                        allowed_bridges: vec![],
                        children: vec![
                            NodeSpec::Leaf {
                                label: "cfo".into(),
                                hardware_key_id: cfo_id,
                                allowed_bridges: vec![],
                            },
                            NodeSpec::Leaf {
                                label: "coo".into(),
                                hardware_key_id: coo_id,
                                allowed_bridges: vec![],
                            },
                        ],
                    },
                    NodeSpec::Leaf {
                        label: "it".into(),
                        hardware_key_id: it_id,
                        allowed_bridges: vec![],
                    },
                ],
            },
        ],
    };

    let secret = b"another 32-byte company secret!".to_vec();
    let key_id = split(&mut trees, &registry, "nested", &secret, &spec).expect("split should succeed");
    let leaves = leaf_ids_by_label(&trees, key_id);

    // Only cfo (not coo) from the cxo branch, plus it: cxo's own 2-of-2
    // is short by one, so "departments" can't resolve, and ceo wasn't
    // supplied either, so root's 2-of-2 has nothing to work with.
    let raw_cfo = unseal_leaf(&trees, &registry, leaves[&"cfo".to_string()], &cfo_sk);
    let raw_it = unseal_leaf(&trees, &registry, leaves[&"it".to_string()], &it_sk);

    let mut shares = HashMap::new();
    shares.insert(leaves[&"cfo".to_string()], raw_cfo);
    shares.insert(leaves[&"it".to_string()], raw_it);

    let result = reconstruct(&trees, key_id, &shares);
    assert!(matches!(result, Err(Error::QuorumNotMet)));
}

#[test]
fn reconstruct_lca_of_department_siblings_is_the_department_node() {
    let mut trees = TreeStore::new();
    let mut registry = KeyRegistry::new();
    let (ma1, _) = register_encryption_key(&mut registry, "ma1");
    let (ma2, _) = register_encryption_key(&mut registry, "ma2");
    let (ma3, _) = register_encryption_key(&mut registry, "ma3");
    let (mb, _) = register_encryption_key(&mut registry, "mb");
    let spec = department_tree_spec(ma1, ma2, ma3, mb);
    let secret = b"company master secret 32 bytes!";
    let key_id = split(&mut trees, &registry, "org", secret, &spec).expect("split should succeed");

    let tree = KeyQuorumTree::load(&trees, key_id).expect("load should succeed");
    let a1 = tree.index_by_label("M.A.1").unwrap();
    let a2 = tree.index_by_label("M.A.2").unwrap();
    let mb_idx = tree.index_by_label("M.B").unwrap();
    let ma = tree.index_by_label("M.A").unwrap();

    assert_eq!(tree.find_lowest_common_ancestor(a1, a2).unwrap(), ma);
    assert_eq!(
        tree.find_lowest_common_ancestor(a1, mb_idx).unwrap(),
        tree.root_index
    );
    assert_eq!(tree.find_lowest_common_ancestor(a1, a1).unwrap(), a1);
    assert_eq!(
        tree.find_lowest_common_ancestor_of(&[a1, a2, ma]).unwrap(),
        ma
    );
}

#[test]
fn reconstruct_split_and_reconstruct_a_pub_file_payload() {
    let mut trees = TreeStore::new();
    let mut registry = KeyRegistry::new();
    let (id_a, sk_a) = register_encryption_key(&mut registry, "alice");
    let (id_b, sk_b) = register_encryption_key(&mut registry, "bob");
    let spec = NodeSpec::Split {
        label: "root".into(),
        threshold: 2,
        allowed_bridges: vec![],
        children: vec![
            NodeSpec::Leaf {
                label: "a".into(),
                hardware_key_id: id_a,
                allowed_bridges: vec![],
            },
            NodeSpec::Leaf {
                label: "b".into(),
                hardware_key_id: id_b,
                allowed_bridges: vec![],
            },
        ],
    };
    let pub_file = format!(
        "-----BEGIN PUBLIC KEY-----\n{}\n-----END PUBLIC KEY-----\n",
        "QUFBQUFBQUFBQUFBQUFBQUFBQUFBQUFBQUFBQUFBQUE="
    );
    let key_id = split(&mut trees, &registry, "master-pub", pub_file.as_bytes(), &spec)
        .expect("split should accept a pub-file payload");
    let leaves = leaf_ids_by_label(&trees, key_id);
    let mut shares = HashMap::new();
    shares.insert(leaves["a"], unseal_leaf(&trees, &registry, leaves["a"], &sk_a));
    shares.insert(leaves["b"], unseal_leaf(&trees, &registry, leaves["b"], &sk_b));
    let recovered = reconstruct(&trees, key_id, &shares).expect("reconstruct");
    assert_eq!(recovered, pub_file.as_bytes());
}

#[test]
fn a_loaded_tree_is_indexed_by_its_labels() {
    let mut trees = TreeStore::new();
    let mut registry = KeyRegistry::new();
    let ids: Vec<i64> = ["ma1", "ma2", "ma3", "mb"]
        .iter()
        .map(|label| register_encryption_key(&mut registry, label).0)
        .collect();
    let spec = department_tree_spec(ids[0], ids[1], ids[2], ids[3]);
    let key_id = split(&mut trees, &registry, "org", b"secret", &spec).unwrap();
    let tree = KeyQuorumTree::load(&trees, key_id).unwrap();
    assert_eq!(tree.id_to_index.len(), tree.nodes.len());
    for (place, node) in tree.nodes.iter().enumerate() {
        assert_eq!(tree.id_to_index.get(&node.id), Some(&place));
        assert_eq!(tree.index_by_label(&node.id), Ok(place));
    }
    assert!(!tree.id_to_index.contains_key("M.C"));
    assert_eq!(tree.index_by_label("M.C"), Err(Error::NodeNotFound));
}
