//! How the relay answers.

use base64::engine::general_purpose::STANDARD;
use base64::Engine;
use keyquorum::error::Error;
use keyquorum::keys::{fingerprint, generate_encryption_keypair};
use keyquorum::relay::api_key::create;
use keyquorum::relay::credential::{get, save, RelayKeys, StoredRelayKey};
use keyquorum::relay::public_tree::{copy_tree, PublicEdge, PublicNode, PublicTree};
use keyquorum::relay::server::{
    get_inbox, get_tree_context, keycheck, list_keys, post_inbox, pushed_envelope, put_tree,
    revoke_key,
    token_from_headers, ApiError, HeaderText, BAD_REQUEST, CREATED, FORBIDDEN, NOT_FOUND,
    NO_CONTENT, OK, UNAUTHORIZED,
};
use keyquorum::relay::{
    check_token, get_public_tree, hash_bearer, ApiKeyScope, ApiKeys, Mailbox, NewApiKey, OrgTrees,
    MAX_ENVELOPE_BYTES,
};

const NOW: i64 = 1_767_225_600;

const MADE: &str = "2026-01-01 00:00:00";

struct Relay {
    keys: ApiKeys,
    mailbox: Mailbox,
    trees: OrgTrees,
}

impl Relay {
    fn new() -> Relay {
        Relay { keys: ApiKeys::new(), mailbox: Mailbox::new(), trees: OrgTrees::new() }
    }

    fn key(&mut self, scope: ApiKeyScope, recipient: Option<&str>, label: &str) -> String {
        create(
            &mut self.keys,
            &NewApiKey {
                scope,
                recipient_fingerprint: recipient.map(str::to_string),
                label: Some(label.into()),
                ttl_seconds: None,
            },
            MADE,
            NOW,
        )
        .expect("a key")
        .token
    }

    fn push_key(&mut self) -> String {
        self.key(ApiKeyScope::InboxPush, None, "op")
    }

    fn pull_key(&mut self, recipient: &str) -> String {
        self.key(ApiKeyScope::InboxPull, Some(recipient), "device")
    }

    fn admin_key(&mut self) -> String {
        self.key(ApiKeyScope::Admin, None, "admin")
    }
}

fn fake_kqpb(public_key: [u8; 32], payload: &[u8]) -> Vec<u8> {
    let mut out = Vec::new();
    out.extend_from_slice(b"KQPB");
    out.push(2);
    out.push(1);
    out.extend_from_slice(&public_key);
    out.extend_from_slice(&(payload.len() as u32).to_be_bytes());
    out.extend_from_slice(payload);
    out
}

fn sample_envelope() -> (Vec<u8>, String) {
    let (_sk, pk) = generate_encryption_keypair();
    let bytes = fake_kqpb(pk, b"opaque-letter");
    (bytes, fingerprint(&pk))
}

fn split_node(label: &str, parent: Option<&str>) -> PublicNode {
    PublicNode {
        label: label.into(),
        parent_label: parent.map(str::to_string),
        threshold: Some(2),
        is_active: true,
        encryption_fingerprint: None,
        encryption_public_key: None,
    }
}

fn leaf_node(label: &str, parent: &str, public_key: &[u8; 32]) -> PublicNode {
    PublicNode {
        label: label.into(),
        parent_label: Some(parent.into()),
        threshold: None,
        is_active: true,
        encryption_fingerprint: Some(fingerprint(public_key)),
        encryption_public_key: Some(hex::encode(public_key)),
    }
}

fn example_org_tree(link_ma1: bool) -> (PublicTree, [u8; 32]) {
    let (_a1_sk, a1) = generate_encryption_keypair();
    let (_a2_sk, a2) = generate_encryption_keypair();
    let (_s1_sk, s1) = generate_encryption_keypair();
    let (_s2_sk, s2) = generate_encryption_keypair();
    let mut links = vec![PublicEdge {
        from: "M.S.2".into(),
        to: "M.A.2".into(),
    }];
    let mut whitelist = vec![
        PublicEdge {
            from: "M.S.2".into(),
            to: "M.A.2".into(),
        },
        PublicEdge {
            from: "M.A.2".into(),
            to: "M.S.2".into(),
        },
    ];
    if link_ma1 {
        links.push(PublicEdge {
            from: "M.S.2".into(),
            to: "M.A.1".into(),
        });
        whitelist.push(PublicEdge {
            from: "M.S.2".into(),
            to: "M.A.1".into(),
        });
        whitelist.push(PublicEdge {
            from: "M.A.1".into(),
            to: "M.S.2".into(),
        });
    }
    let tree = PublicTree {
        label: "org".into(),
        generation: 1,
        nodes: vec![
            split_node("M", None),
            split_node("M.A", Some("M")),
            split_node("M.S", Some("M")),
            leaf_node("M.A.1", "M.A", &a1),
            leaf_node("M.A.2", "M.A", &a2),
            leaf_node("M.S.1", "M.S", &s1),
            leaf_node("M.S.2", "M.S", &s2),
        ],
        whitelist,
        links,
    };
    (tree, s2)
}

fn with_ma1(tree: &PublicTree) -> PublicTree {
    let mut out = copy_tree(tree);
    out.links.push(PublicEdge { from: "M.S.2".into(), to: "M.A.1".into() });
    out.whitelist.push(PublicEdge { from: "M.S.2".into(), to: "M.A.1".into() });
    out.whitelist.push(PublicEdge { from: "M.A.1".into(), to: "M.S.2".into() });
    out
}

fn labels(tree: &PublicTree) -> Vec<&str> {
    tree.nodes.iter().map(|node| node.label.as_str()).collect()
}

#[test]
fn max_envelope_constant_is_one_mib() {
    assert_eq!(MAX_ENVELOPE_BYTES, 1024 * 1024);
}

#[test]
fn router_enforces_scopes_and_returns_opaque_bytes() {
    let mut relay = Relay::new();
    let (envelope, fp) = sample_envelope();
    let push = relay.push_key();
    let pull = relay.pull_key(&fp);
    let other_pull = relay.pull_key(&fingerprint(&[9u8; 32]));
    let admin = relay.admin_key();
    let Relay { keys, mailbox, trees } = &mut relay;
    let none = vec![];

    let denied = post_inbox(keys, mailbox, trees, &pull, &envelope, &none, NOW).unwrap_err();
    assert_eq!(denied.status, FORBIDDEN);
    let (status, accepted) =
        post_inbox(keys, mailbox, trees, &push, &envelope, &none, NOW).expect("stored");
    assert_eq!(status, CREATED);
    assert_eq!(accepted.recipient_fingerprint, fp);
    let (again, _) =
        post_inbox(keys, mailbox, trees, &push, &envelope, &none, NOW).expect("known");
    assert_eq!(again, OK);

    let as_push = get_inbox(keys, mailbox, trees, &push, None, None, NOW).unwrap_err();
    assert_eq!(as_push.status, FORBIDDEN);
    let got = get_inbox(keys, mailbox, trees, &pull, None, None, NOW).expect("listed");
    assert_eq!(STANDARD.decode(&got.envelopes[0].bytes).expect("base64"), envelope);

    let empty = get_inbox(keys, mailbox, trees, &other_pull, None, None, NOW).expect("empty");
    assert_eq!(empty.envelopes.len(), 0);
    assert_eq!(empty.trees.len(), 0);

    assert_eq!(list_keys(keys, &push, NOW).unwrap_err().status, FORBIDDEN);
    assert_eq!(list_keys(keys, &admin, NOW).expect("listed").len(), 4);
    assert_eq!(revoke_key(keys, &admin, 1, NOW).expect("revoked"), NO_CONTENT);
    let gone = post_inbox(keys, mailbox, trees, &push, &envelope, &none, NOW).unwrap_err();
    assert_eq!((gone.status, gone.message), (UNAUTHORIZED, "unauthorized"));
}

#[test]
fn pushing_an_envelope_updates_full_tree_and_pull_returns_a_slice() {
    let mut relay = Relay::new();
    let (envelope, mailbox_fp) = sample_envelope();
    let (tree, s2) = example_org_tree(false);
    let push = relay.push_key();
    let pull_s2 = relay.pull_key(&fingerprint(&s2));
    let pull_mailbox = relay.pull_key(&mailbox_fp);
    let Relay { keys, mailbox, trees } = &mut relay;

    post_inbox(keys, mailbox, trees, &push, &envelope, &vec![copy_tree(&tree)], NOW)
        .expect("push with tree");
    let for_member =
        get_inbox(keys, mailbox, trees, &pull_s2, None, None, NOW).expect("member pull");
    assert!(for_member.envelopes.is_empty());
    assert_eq!(for_member.trees.len(), 1);
    assert!(labels(&for_member.trees[0]).contains(&"M.A.2"));
    assert!(labels(&for_member.trees[0]).contains(&"M.S.2"));
    assert!(!labels(&for_member.trees[0]).contains(&"M.A.1"));

    post_inbox(keys, mailbox, trees, &push, &envelope, &vec![with_ma1(&tree)], NOW)
        .expect("push updated tree");
    let expanded = get_inbox(keys, mailbox, trees, &pull_s2, None, None, NOW).expect("expanded");
    assert_eq!(expanded.trees[0].generation, 2);
    assert!(labels(&expanded.trees[0]).contains(&"M.A.1"));

    let mail = get_inbox(keys, mailbox, trees, &pull_mailbox, None, None, NOW).expect("mail");
    assert_eq!(mail.envelopes.len(), 1);
    assert!(mail.trees.is_empty());
}

#[test]
fn inbox_get_rejects_invalid_page_sizes() {
    let mut relay = Relay::new();
    let pull = relay.pull_key(&fingerprint(&[1u8; 32]));
    for limit in [0, 501] {
        let Relay { keys, mailbox, trees } = &mut relay;
        let refused = get_inbox(keys, mailbox, trees, &pull, None, Some(limit), NOW).unwrap_err();
        assert_eq!(refused.status, BAD_REQUEST, "{limit}");
    }
}

#[test]
fn push_rolls_back_trees_and_envelope_when_a_later_tree_is_invalid() {
    let mut relay = Relay::new();
    let (envelope, mailbox_fp) = sample_envelope();
    let (good, s2) = example_org_tree(false);
    let push = relay.push_key();
    let pull_s2 = relay.pull_key(&fingerprint(&s2));
    let pull_mailbox = relay.pull_key(&mailbox_fp);
    let cyclic = PublicTree {
        label: "other".into(),
        generation: 1,
        nodes: vec![
            split_node("M", None),
            split_node("A", Some("B")),
            split_node("B", Some("A")),
        ],
        whitelist: vec![],
        links: vec![],
    };
    let Relay { keys, mailbox, trees } = &mut relay;
    let refused = post_inbox(keys, mailbox, trees, &push, &envelope, &vec![good, cyclic], NOW)
        .unwrap_err();
    assert_eq!(refused.status, BAD_REQUEST);
    let missing = get_tree_context(keys, trees, &pull_s2, "org", NOW).unwrap_err();
    assert_eq!(missing.status, NOT_FOUND);
    let listed = get_inbox(keys, mailbox, trees, &pull_mailbox, None, None, NOW).expect("listed");
    assert_eq!(listed.envelopes.len(), 0);
}

#[test]
fn router_publish_and_fetch_tree_context() {
    let mut relay = Relay::new();
    let (tree, s2) = example_org_tree(false);
    let admin = relay.admin_key();
    let pull = relay.pull_key(&fingerprint(&s2));
    let push = relay.push_key();
    let Relay { keys, mailbox, trees } = &mut relay;

    assert_eq!(put_tree(keys, trees, &pull, &tree, NOW).unwrap_err().status, FORBIDDEN);
    let published = put_tree(keys, trees, &admin, &tree, NOW).expect("published");
    assert_eq!(published.generation, 1);
    assert_eq!(get_tree_context(keys, trees, &push, "org", NOW).unwrap_err().status, FORBIDDEN);

    let got = get_tree_context(keys, trees, &pull, "org", NOW).expect("context");
    assert!(labels(&got).contains(&"M.A.2"));
    assert!(!labels(&got).contains(&"M.A.1"));
    let inbox = get_inbox(keys, mailbox, trees, &pull, None, None, NOW).expect("inbox");
    assert_eq!(inbox.envelopes.len(), 0);
    assert!(labels(&inbox.trees[0]).contains(&"M.A.2"));
    assert!(!labels(&inbox.trees[0]).contains(&"M.A.1"));

    put_tree(keys, trees, &admin, &with_ma1(&tree), NOW).expect("republished");
    let expanded = get_inbox(keys, mailbox, trees, &pull, None, None, NOW).expect("expanded");
    assert!(labels(&expanded.trees[0]).contains(&"M.A.1"));
    assert_eq!(get_public_tree(trees, "org").expect("kept").generation, 2);
}

#[test]
fn keycheck_route_is_public() {
    let mut relay = Relay::new();
    let token = relay.key(ApiKeyScope::InboxPush, None, "ops");
    let hash = hash_bearer(&token).expect("hash");
    let keys = &relay.keys;

    assert_eq!(keycheck(keys, None, None, NOW).unwrap_err().status, BAD_REQUEST);
    let ok = keycheck(keys, Some(&token), None, NOW).expect("by token");
    assert!(ok.valid);
    assert_eq!(ok.scope.as_deref(), Some("inbox.push"));
    assert!(keycheck(keys, None, Some(&hash), NOW).expect("by hash").valid);
    let unknown = "kq_AAAAAAAAAAAAAAAAAAAAAAAAAAAAAAAAAAAAAAAAAAA";
    assert!(!keycheck(keys, Some(unknown), None, NOW).expect("unknown").valid);
}

#[test]
fn check_key_client_and_stored_hash_can_push() {
    let mut relay = Relay::new();
    let (envelope, _) = sample_envelope();
    let token = relay.push_key();
    let base = "http://127.0.0.1:8787".to_string();
    let check = keycheck(&relay.keys, Some(&token), None, NOW).expect("check_key");
    assert!(check.valid);
    let hash = hash_bearer(&token).expect("hash");
    let mut held = RelayKeys::new();
    save(
        &mut held,
        &StoredRelayKey {
            relay_url: base.clone(),
            scope: check.scope.clone().expect("scope"),
            key_hash: hash.clone(),
            token: token.clone(),
            remote_id: check.id,
            label: check.label.clone(),
        },
        NOW,
    );
    assert_eq!(keycheck(&relay.keys, None, Some(&hash), NOW).expect("recheck"), check);
    let stored = get(&held, &base, "inbox.push").expect("get").expect("row");
    let Relay { keys, mailbox, trees } = &mut relay;
    let (_, accepted) =
        post_inbox(keys, mailbox, trees, &stored.token, &envelope, &vec![], NOW).expect("push");
    assert!(accepted.id > 0);
}

#[test]
fn a_token_is_taken_from_either_header() {
    let bearer = HeaderText::Text("Bearer kq_abc");
    assert_eq!(token_from_headers(bearer, HeaderText::Absent).unwrap(), "kq_abc");
    assert_eq!(token_from_headers(bearer, HeaderText::Text("kq_x")).unwrap(), "kq_abc");
    assert_eq!(
        token_from_headers(HeaderText::Absent, HeaderText::Text("kq_x")).unwrap(),
        "kq_x"
    );
    assert_eq!(
        token_from_headers(HeaderText::Text("Basic x"), HeaderText::Text("kq_x")).unwrap(),
        "kq_x"
    );
    assert_eq!(
        token_from_headers(HeaderText::Absent, HeaderText::Absent).unwrap_err().status,
        UNAUTHORIZED
    );
    assert_eq!(
        token_from_headers(HeaderText::Opaque, HeaderText::Text("kq_x")).unwrap_err().status,
        UNAUTHORIZED
    );
}

#[test]
fn errors_are_answered_with_their_status() {
    for (error, status, message) in [
        (Error::ApiKeyExpired, UNAUTHORIZED, "unauthorized"),
        (Error::ApiKeyScopeDenied, FORBIDDEN, "forbidden"),
        (Error::TreeNotFound, NOT_FOUND, Error::TreeNotFound.message()),
        (Error::InvalidBridge, BAD_REQUEST, Error::InvalidBridge.message()),
        (Error::BundleFieldTooLarge, 413, Error::BundleFieldTooLarge.message()),
        (Error::QuorumNotMet, 500, Error::QuorumNotMet.message()),
    ] {
        let answer = ApiError::of(error);
        assert_eq!((answer.status, answer.message), (status, message));
    }
}

#[test]
fn a_use_is_stamped_only_where_a_key_is_let_in() {
    let mut relay = Relay::new();
    let push = relay.push_key();
    assert!(list_keys(&mut relay.keys, &push, NOW).is_err());
    assert_eq!(relay.keys.rows[0].last_used_at, None);
    let (envelope, _) = sample_envelope();
    let Relay { keys, mailbox, trees } = &mut relay;
    post_inbox(keys, mailbox, trees, &push, &envelope, &vec![], NOW + 5).expect("stored");
    assert_eq!(keys.rows[0].last_used_at, Some(NOW + 5));
    assert!(check_token(keys, &push, NOW + 6).valid);
}

#[test]
fn an_envelope_in_json_comes_in_base64() {
    assert_eq!(pushed_envelope("a2V5cw=="), Ok(b"keys".to_vec()));
    assert_eq!(pushed_envelope(""), Ok(Vec::new()));
    assert_eq!(pushed_envelope(&STANDARD.encode([0xff, 0xfe])), Ok(vec![0xff, 0xfe]));
    assert_eq!(pushed_envelope("a2V5cw"), Err(Error::InvalidBridgePackage));
    assert_eq!(pushed_envelope("not base64!"), Err(Error::InvalidBridgePackage));
}
