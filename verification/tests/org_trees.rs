//! Trees that the relay keeps, and what their members see of them.

use keyquorum::error::Error;
use keyquorum::keys::{fingerprint, generate_encryption_keypair};
use keyquorum::relay::org_tree::{list_public_trees, merge_all, merge_public_tree};
use keyquorum::relay::public_tree::{
    copy_edge, copy_tree, validate_public_tree, PublicEdge, PublicNode, PublicTree,
};
use keyquorum::relay::visibility::{filter_public_tree, visible_labels_in_public_tree};
use keyquorum::relay::{
    context_for_fingerprint, contexts_for_fingerprint, get_public_tree, put_public_tree, OrgTrees,
};

fn split_node(label: &str, parent: Option<&str>) -> PublicNode {
    PublicNode {
        label: label.into(),
        parent_label: parent.map(str::to_string),
        threshold: Some(2),
        is_active: true,
        encryption_fingerprint: None,
        encryption_public_key: None,
    }
}

fn leaf_node(label: &str, parent: &str, public_key: &[u8; 32]) -> PublicNode {
    PublicNode {
        label: label.into(),
        parent_label: Some(parent.into()),
        threshold: None,
        is_active: true,
        encryption_fingerprint: Some(fingerprint(public_key)),
        encryption_public_key: Some(hex::encode(public_key)),
    }
}

fn example_org_tree(link_ma1: bool) -> (PublicTree, [u8; 32]) {
    let (_a1_sk, a1) = generate_encryption_keypair();
    let (_a2_sk, a2) = generate_encryption_keypair();
    let (_s1_sk, s1) = generate_encryption_keypair();
    let (_s2_sk, s2) = generate_encryption_keypair();
    let mut links = vec![PublicEdge {
        from: "M.S.2".into(),
        to: "M.A.2".into(),
    }];
    let mut whitelist = vec![
        PublicEdge {
            from: "M.S.2".into(),
            to: "M.A.2".into(),
        },
        PublicEdge {
            from: "M.A.2".into(),
            to: "M.S.2".into(),
        },
    ];
    if link_ma1 {
        links.push(PublicEdge {
            from: "M.S.2".into(),
            to: "M.A.1".into(),
        });
        whitelist.push(PublicEdge {
            from: "M.S.2".into(),
            to: "M.A.1".into(),
        });
        whitelist.push(PublicEdge {
            from: "M.A.1".into(),
            to: "M.S.2".into(),
        });
    }
    let tree = PublicTree {
        label: "org".into(),
        generation: 1,
        nodes: vec![
            split_node("M", None),
            split_node("M.A", Some("M")),
            split_node("M.S", Some("M")),
            leaf_node("M.A.1", "M.A", &a1),
            leaf_node("M.A.2", "M.A", &a2),
            leaf_node("M.S.1", "M.S", &s1),
            leaf_node("M.S.2", "M.S", &s2),
        ],
        whitelist,
        links,
    };
    (tree, s2)
}

fn node_labels(tree: &PublicTree) -> Vec<String> {
    let mut labels: Vec<_> = tree.nodes.iter().map(|n| n.label.clone()).collect();
    labels.sort();
    labels
}

fn tiny_tree() -> PublicTree {
    PublicTree {
        label: "org".into(),
        generation: 1,
        nodes: vec![
            split_node("M", None),
            split_node("M.A", Some("M")),
            split_node("M.S", Some("M")),
        ],
        whitelist: vec![PublicEdge {
            from: "M.A".into(),
            to: "M.S".into(),
        }],
        links: vec![],
    }
}

#[test]
fn org_tree_put_and_context_omits_unrelated_peer_sibling() {
    let mut trees = OrgTrees::new();
    let (tree, s2) = example_org_tree(false);
    let stored = put_public_tree(&mut trees, &tree).expect("put");
    assert_eq!(stored.generation, 1);
    let fp = fingerprint(&s2);
    let slice = context_for_fingerprint(&trees, "org", &fp).expect("context");
    assert_eq!(
        node_labels(&slice),
        vec!["M", "M.A", "M.A.2", "M.S", "M.S.1", "M.S.2"]
    );

    let mut with_ma1 = copy_tree(&tree);
    with_ma1.links.push(PublicEdge {
        from: "M.S.2".into(),
        to: "M.A.1".into(),
    });
    with_ma1.whitelist.push(PublicEdge {
        from: "M.S.2".into(),
        to: "M.A.1".into(),
    });
    with_ma1.whitelist.push(PublicEdge {
        from: "M.A.1".into(),
        to: "M.S.2".into(),
    });
    let stored = put_public_tree(&mut trees, &with_ma1).expect("put again");
    assert_eq!(stored.generation, 2);
    let slice = context_for_fingerprint(&trees, "org", &fp).expect("expanded");
    assert!(node_labels(&slice).contains(&"M.A.1".to_string()));
    assert!(matches!(
        context_for_fingerprint(&trees, "org", "deadbeef"),
        Err(Error::NodeNotFound)
    ));
    assert!(contexts_for_fingerprint(&trees, "deadbeef")
        .is_empty());
    assert!(matches!(
        get_public_tree(&trees, "missing"),
        Err(Error::TreeNotFound)
    ));
}

#[test]
fn put_public_tree_rejects_a_parent_cycle() {
    let mut trees = OrgTrees::new();
    let tree = PublicTree {
        label: "org".into(),
        generation: 1,
        nodes: vec![
            split_node("M", None),
            split_node("A", Some("B")),
            split_node("B", Some("A")),
        ],
        whitelist: vec![],
        links: vec![],
    };
    assert!(matches!(
        put_public_tree(&mut trees, &tree),
        Err(Error::InvalidTreeSpec)
    ));
    assert!(matches!(
        get_public_tree(&trees, "org"),
        Err(Error::TreeNotFound)
    ));
}

#[test]
fn put_public_tree_keeps_the_previous_tree_when_a_duplicate_edge_is_rejected() {
    let mut trees = OrgTrees::new();
    let (mut tree, _) = example_org_tree(false);
    let stored = put_public_tree(&mut trees, &tree).expect("put");
    assert_eq!(stored.generation, 1);
    let repeated = copy_edge(&tree.whitelist[0]);
    tree.whitelist.push(repeated);
    assert!(matches!(
        put_public_tree(&mut trees, &tree),
        Err(Error::InvalidBridge)
    ));
    let kept = get_public_tree(&trees, "org").expect("kept");
    assert_eq!(kept.generation, 1);
    assert_eq!(kept.nodes.len(), 7);
}

#[test]
fn persist_rejects_duplicate_whitelist_without_replacing_the_document() {
    let mut trees = OrgTrees::new();
    let tree = tiny_tree();
    put_public_tree(&mut trees, &tree).expect("first put");
    let mut bad = copy_tree(&tree);
    bad.whitelist.push(copy_edge(&tree.whitelist[0]));
    assert!(put_public_tree(&mut trees, &bad).is_err());
    let stored = get_public_tree(&trees, "org").expect("still there");
    assert_eq!(stored.generation, 1);
    assert_eq!(stored.nodes.len(), 3);
    assert_eq!(stored.whitelist.len(), 1);
}

#[test]
fn persist_rejects_a_disconnected_parent_cycle() {
    let mut trees = OrgTrees::new();
    let tree = PublicTree {
        label: "org".into(),
        generation: 1,
        nodes: vec![
            split_node("M", None),
            split_node("A", Some("B")),
            split_node("B", Some("A")),
        ],
        whitelist: vec![],
        links: vec![],
    };
    assert!(matches!(
        put_public_tree(&mut trees, &tree),
        Err(Error::InvalidTreeSpec)
    ));
    assert!(matches!(
        get_public_tree(&trees, "org"),
        Err(Error::TreeNotFound)
    ));
}

fn edge(from: &str, to: &str) -> PublicEdge {
    PublicEdge { from: from.into(), to: to.into() }
}

#[test]
fn each_fault_of_a_tree_has_its_error() {
    let (tree, _) = example_org_tree(false);
    assert_eq!(validate_public_tree(&tree), Ok(()));

    let mut nameless = copy_tree(&tree);
    nameless.label = String::new();
    assert_eq!(validate_public_tree(&nameless), Err(Error::InvalidTreeSpec));

    let mut twice = copy_tree(&tree);
    twice.nodes.push(split_node("M.A", Some("M")));
    assert_eq!(validate_public_tree(&twice), Err(Error::DuplicateNodeLabel));

    let mut stray = copy_tree(&tree);
    stray.links.push(edge("M.S.2", "nowhere"));
    assert_eq!(validate_public_tree(&stray), Err(Error::InvalidBridge));

    let mut rootless = copy_tree(&tree);
    rootless.nodes[0].parent_label = Some("M.A".into());
    assert_eq!(validate_public_tree(&rootless), Err(Error::InvalidTreeSpec));
}

#[test]
fn a_merge_adds_to_what_is_kept() {
    let mut trees = OrgTrees::new();
    let (tree, _) = example_org_tree(false);
    put_public_tree(&mut trees, &tree).unwrap();
    let mut more = copy_tree(&tree);
    more.nodes.push(split_node("M.F", Some("M")));
    let merged = merge_public_tree(&mut trees, &more).unwrap();
    assert_eq!(merged.generation, 2);
    assert_eq!(merged.nodes.len(), 8);
    assert_eq!(merged.links.len(), 1);
    assert_eq!(list_public_trees(&trees).len(), 1);
}

#[test]
fn trees_are_merged_all_or_none() {
    let trees = OrgTrees::new();
    let (good, _) = example_org_tree(false);
    let cyclic = PublicTree {
        label: "other".into(),
        generation: 1,
        nodes: vec![
            split_node("M", None),
            split_node("A", Some("B")),
            split_node("B", Some("A")),
        ],
        whitelist: vec![],
        links: vec![],
    };
    assert_eq!(
        merge_all(&trees, &vec![copy_tree(&good), cyclic]).unwrap_err(),
        Error::InvalidTreeSpec
    );
    let merged = merge_all(&trees, &vec![good]).unwrap();
    assert_eq!(get_public_tree(&merged, "org").unwrap().nodes.len(), 7);
}

#[test]
fn a_member_sees_itself_and_never_more_by_asking_less() {
    let (tree, _) = example_org_tree(false);
    let one = visible_labels_in_public_tree(&tree, &vec!["M.S.2".into()]);
    assert!(one.contains(&"M.S.2".to_string()));
    let both = visible_labels_in_public_tree(&tree, &vec!["M.S.2".into(), "M.A.1".into()]);
    assert!(one.iter().all(|label| both.contains(label)));
    assert!(visible_labels_in_public_tree(&tree, &vec![]).is_empty());
    let slice = filter_public_tree(&tree, &one);
    assert_eq!(slice.nodes.len(), one.len());
    assert_eq!(slice.links.len(), 1);
}
