//! Keys and trees from the command line: what is read, and what is said.

use std::collections::HashMap;

use keyquorum::cli::access::{password_plan, quorum_plan, PasswordPlan, QuorumPlan};
use keyquorum::cli::grammar::{Cli, UsageFault, DEFAULT_DB};
use keyquorum::cli::help::help_lines;
use keyquorum::cli::host::{host_command, HostCommand, DEFAULT_BIND};
use keyquorum::cli::lines::{collect_leaves, credential_lines, tree_lines};
use keyquorum::cli::trees::{
    ban_key, eviction_target, forget_key, hex_line, infer_root_label, leaf_threshold, list_lines,
    open_shares, parse_positive_i64, read_typed_share, reconstruct_hex, register_from_text,
    secret_lines, share_prompt, sibling_key_path, split_entry, tree_report,
};
use keyquorum::error::Error;
use keyquorum::key_tree::{bind_pair, describe, list_bridges, split, NodeSpec, TreeStore};
use keyquorum::keys::{generate_encryption_keypair, get_key, KeyRegistry, KeyType};
use keyquorum::vault::Credential;

const CREATED: &str = "2026-01-01 00:00:00";

struct Org {
    registry: KeyRegistry,
    trees: TreeStore,
    alice: [u8; 32],
    bob: [u8; 32],
    key_id: i64,
}

fn org() -> Org {
    let mut registry = KeyRegistry::new();
    let mut trees = TreeStore::new();
    let (alice, alice_public) = generate_encryption_keypair();
    let (bob, bob_public) = generate_encryption_keypair();
    for (label, public) in [("alice", alice_public), ("bob", bob_public)] {
        let text = hex::encode(public);
        register_from_text(&mut registry, label, KeyType::Encryption, &text, CREATED)
            .expect("registered");
    }
    let spec =
        NodeSpec::flat_split("M".into(), 2, vec![("M.S".into(), 1), ("M.A".into(), 2)]);
    let key_id = split(&mut trees, &registry, "master", b"secret", &spec).expect("split");
    Org { registry, trees, alice, bob, key_id }
}

fn parse(args: &[&str]) -> Cli {
    Cli::try_parse_from(args).expect("a command line")
}

fn refused(args: &[&str]) -> UsageFault {
    Cli::try_parse_from(args).expect_err("refused")
}

#[test]
fn each_fault_of_a_line_is_told_apart() {
    assert_eq!(refused(&["keyquorum"]), UsageFault::MissingCommand);
    assert_eq!(refused(&["keyquorum", "nonsense"]), UsageFault::UnknownCommand);
    assert_eq!(refused(&["keyquorum", "--help"]), UsageFault::Help);
    assert_eq!(refused(&["keyquorum", "--version"]), UsageFault::Version);
    assert_eq!(refused(&["keyquorum", "list", "--nonsense"]), UsageFault::UnknownOption);
    assert_eq!(refused(&["keyquorum", "list", "extra"]), UsageFault::UnexpectedArgument);
    assert_eq!(refused(&["keyquorum", "revoke"]), UsageFault::MissingArgument);
    assert_eq!(refused(&["keyquorum", "revoke", "three"]), UsageFault::InvalidValue);
    assert_eq!(
        refused(&["keyquorum", "loadkey", "kq_a", "--url"]),
        UsageFault::MissingValue
    );
    assert_eq!(
        refused(&["keyquorum", "loadkey", "--url", "a", "--url", "b"]),
        UsageFault::Repeated
    );
    assert_eq!(
        refused(&["keyquorum", "revoke", "3", "--evict=yes"]),
        UsageFault::UnneededValue
    );
    assert_eq!(
        refused(&["keyquorum", "tree", "1", "--node", "a", "b", "--output", "c"]),
        UsageFault::Conflict
    );
    assert_eq!(UsageFault::Conflict.message(), "two arguments cannot be given together");
}

#[test]
fn a_line_is_read_back() {
    let cli = parse(&["keyquorum", "--db", "org.sqlite", "tree", "1", "--node", "M.S", "M.A"]);
    assert_eq!(cli.db(), "org.sqlite");
    assert_eq!(cli.values("node"), vec!["M.S".to_string(), "M.A".to_string()]);
    let cli = parse(&["keyquorum", "loadkey", "kq_example", "--url=http://127.0.0.1:8787"]);
    assert_eq!(cli.db(), DEFAULT_DB);
    assert_eq!(cli.text("url").as_deref(), Some("http://127.0.0.1:8787"));
    assert!(!cli.has("nonsense"));
    assert_eq!(cli.number("url"), None);
}

#[test]
fn a_state_decides_what_is_done_with_a_file() {
    let lock = ["keyquorum", "access", "password", "--state", "0", "--source", "a", "--encrypted-path", "b"];
    match password_plan(&parse(&lock)) {
        Ok(PasswordPlan::Lock { source, encrypted_path, pin }) => {
            assert_eq!((source.as_str(), encrypted_path.as_str(), pin), ("a", "b", false));
        }
        other => panic!("{other:?}"),
    }
    match quorum_plan(&parse(&["keyquorum", "access", "quorum", "--status", "--id", "7"])) {
        Ok(QuorumPlan::Status { id }) => assert_eq!(id, 7),
        other => panic!("{other:?}"),
    }
    match host_command(&parse(&["keyquorum", "host", "serve"])) {
        Some(HostCommand::Serve { bind, .. }) => assert_eq!(bind, DEFAULT_BIND),
        other => panic!("{other:?}"),
    }
}

#[test]
fn keys_and_trees_are_listed() {
    let Org { registry, trees, .. } = org();
    let lines = list_lines(&registry, &trees);
    assert_eq!(lines.len(), 3);
    assert!(lines[0].starts_with("1\talice\tEncryption\t"));
    assert!(lines[0].ends_with("\t-"));
    assert_eq!(lines[2], "master (key 1)");
    assert_eq!(secret_lines(&trees), vec!["master (key 1)".to_string()]);
    assert_eq!(
        tree_report(&trees, &registry, 1).unwrap(),
        vec![
            "master (key 1)".to_string(),
            "M (node 1) [2 of 2]".to_string(),
            "  M.S (node 2) -> hardware key 1 (alice)".to_string(),
            "  M.A (node 3) -> hardware key 2 (bob)".to_string(),
        ]
    );
    let summary = describe(&trees, &registry, 1).unwrap();
    assert_eq!(tree_lines(&summary), tree_report(&trees, &registry, 1).unwrap());
    let mut leaves = Vec::new();
    collect_leaves(&summary.root, &mut leaves);
    let told: Vec<_> = leaves.iter().map(|l| (l.node_id, l.label.as_str())).collect();
    assert_eq!(told, vec![(2, "M.S"), (3, "M.A")]);
}

#[test]
fn shares_are_opened_by_the_keys_that_hold_them() {
    let Org { registry, trees, alice, bob, key_id } = org();
    let mut shares = open_shares(&trees, &registry, key_id, &alice).unwrap();
    assert_eq!(shares.keys().copied().collect::<Vec<_>>(), vec![2]);
    assert_eq!(reconstruct_hex(&trees, key_id, &shares), Err(Error::QuorumNotMet));
    shares.extend(open_shares(&trees, &registry, key_id, &bob).unwrap());
    assert_eq!(reconstruct_hex(&trees, key_id, &shares), Ok(hex::encode(b"secret")));
    let (stranger, _) = generate_encryption_keypair();
    assert_eq!(
        open_shares(&trees, &registry, key_id, &stranger).unwrap_err(),
        Error::SealedKeyNotHeld
    );
    assert_eq!(hex_line(b"secret"), "736563726574");
}

#[test]
fn a_banned_key_keeps_no_pairing() {
    let Org { mut registry, mut trees, key_id, .. } = org();
    bind_pair(&mut trees, key_id, "M.S", "M.A").expect("paired");
    assert_eq!(ban_key(&mut registry, &mut trees, 1, CREATED), "Revoked key 1");
    assert!(get_key(&registry, 1).unwrap().revoked_at.is_some());
    assert!(list_bridges(&trees, key_id).established.is_empty());
    assert!(forget_key(&mut registry, &trees, 1).is_err());
    assert_eq!(eviction_target(&trees, 1, None, None).unwrap().node_id, 2);
    assert_eq!(
        eviction_target(&trees, 9, None, None).unwrap_err(),
        Error::NodeNotFound
    );
}

#[test]
fn an_unused_key_is_forgotten() {
    let mut registry = KeyRegistry::new();
    let trees = TreeStore::new();
    let (_, public) = generate_encryption_keypair();
    let line = register_from_text(
        &mut registry,
        "carol",
        KeyType::Encryption,
        &hex::encode(public),
        CREATED,
    );
    assert_eq!(line, Ok("Registered key 1".to_string()));
    assert_eq!(forget_key(&mut registry, &trees, 1), Ok("Removed key 1".to_string()));
    assert!(registry.keys.is_empty());
}

#[test]
fn typed_shares_are_read() {
    assert_eq!(read_typed_share("  0a0B \n"), Ok(Some(vec![10, 11])));
    assert_eq!(read_typed_share("   "), Ok(None));
    assert_eq!(read_typed_share("zz"), Err("share must be hex-encoded"));
    assert_eq!(
        share_prompt("M.S", 2, 1),
        "Share for 'M.S' (node 2, hardware key 1, hex, blank to skip): "
    );
}

#[test]
fn names_are_taken_apart() {
    assert_eq!(sibling_key_path("keys/alice.pub").as_deref(), Some("keys/alice.key"));
    assert_eq!(sibling_key_path("keys/alice.txt"), None);
    assert_eq!(split_entry("M.S=a.pub"), Some(("M.S".to_string(), "a.pub".to_string())));
    assert_eq!(split_entry("M.S"), None);
    assert_eq!(infer_root_label(&["M.S".into(), "N.A".into()], None, "master").unwrap(), "master");
    assert!(infer_root_label(&["a".into()], Some(""), "master").is_err());
    assert_eq!(leaf_threshold(None, 3), 3);
    assert_eq!(leaf_threshold(Some(2), 3), 2);
    assert_eq!(parse_positive_i64("7"), Ok(7));
    assert_eq!(parse_positive_i64("0"), Err("must be greater than zero".to_string()));
    assert_eq!(parse_positive_i64("x"), Err("must be a positive integer".to_string()));
}

#[test]
fn a_credential_is_told_in_three_lines() {
    let credential = Credential {
        id: 1,
        label: "Email".into(),
        username: None,
        password: "s3cr3t".into(),
    };
    assert_eq!(
        credential_lines(&credential),
        vec![
            "Label:    Email".to_string(),
            "Username: -".to_string(),
            "Password: s3cr3t".to_string(),
        ]
    );
}

#[test]
fn too_few_shares_give_no_text() {
    let Org { trees, key_id, .. } = org();
    assert_eq!(
        reconstruct_hex(&trees, key_id, &HashMap::new()),
        Err(Error::QuorumNotMet)
    );
}

#[test]
fn help_tells_what_a_command_takes() {
    assert_eq!(
        help_lines(&["keyquorum", "--db", "x.db", "bridge", "-h"]),
        ["Commands:", "  allow", "  deny", "  add", "  remove", "  list", "Options:", "  --db <value>"]
    );
    assert_eq!(
        help_lines(&["keyquorum", "register", "--label", "split", "--help"]),
        [
            "Options:",
            "  --type <value>",
            "  --label <value>",
            "  --public-key-file <value>",
            "  --db <value>",
        ]
    );
    let revoke = help_lines(&["keyquorum", "revoke", "--help", "tree"]);
    assert_eq!(revoke[..2], ["Arguments:", "  <id>"]);
    assert!(revoke.contains(&"  --evict".to_string()));
    assert!(revoke.contains(&"  --share-file <value> (may be repeated)".to_string()));
    let top = help_lines(&["keyquorum"]);
    assert_eq!(top[..3], ["Commands:", "  generate", "  register"]);
    assert!(!top.contains(&"  host".to_string()));
    assert!(help_lines(&["keyquorum", "host", "--help"]).contains(&"  keys".to_string()));
}
