//! Share links from the command line: what is asked, and what is said.

use keyquorum::cli::grammar::Cli;
use keyquorum::cli::share::{
    answer_share, begin_share, share_command, ShareCommand, ShareDesk, ShareKind, SharePending,
    ShareStep, SHARE_TTL_SECONDS,
};
use keyquorum::error::Error;
use keyquorum::locked_files::{lock_file, LockedFiles};
use keyquorum::pin::PinTable;
use keyquorum::sharing::ShareTable;
use keyquorum::vault::{add_credential, Vault};

const NOW: i64 = 1_767_225_600;

fn desk() -> ShareDesk {
    let mut desk = ShareDesk {
        vault: Vault::new(),
        files: LockedFiles::new(),
        credential_shares: ShareTable::new(),
        file_shares: ShareTable::new(),
        pins: PinTable::new(),
    };
    add_credential(&mut desk.vault, "Email", None, "s3cr3t", "master-pw").expect("a credential");
    lock_file(&mut desk.files, "a.txt", "a.kqenc", b"text", "hunter2").expect("a file");
    desk
}

fn command(args: &[&str]) -> ShareCommand {
    share_command(&Cli::try_parse_from(args).expect("a command line")).expect("a share command")
}

fn said(step: ShareStep) -> Vec<String> {
    match step {
        ShareStep::Say { lines } => lines,
        ShareStep::Ask { prompt, .. } => panic!("asked {prompt}"),
    }
}

fn asked(step: ShareStep, wanted: &str) -> SharePending {
    match step {
        ShareStep::Ask { prompt, then } => {
            assert_eq!(prompt, wanted);
            then
        }
        ShareStep::Say { lines } => panic!("said {lines:?}"),
    }
}

#[test]
fn options_are_read_with_their_defaults() {
    match command(&["keyquorum", "share", "create-credential", "1"]) {
        ShareCommand::Create { kind, resource_id, ttl_seconds, max_uses, pin, .. } => {
            assert_eq!((kind, resource_id), (ShareKind::Credential, 1));
            assert_eq!((ttl_seconds, max_uses, pin), (SHARE_TTL_SECONDS, None, false));
        }
        other => panic!("{other:?}"),
    }
    let line = ["keyquorum", "share", "create-file", "1", "--ttl-seconds", "60", "--max-uses", "2"];
    match command(&line) {
        ShareCommand::Create { kind, ttl_seconds, max_uses, .. } => {
            assert_eq!((kind, ttl_seconds, max_uses), (ShareKind::File, 60, Some(2)));
        }
        other => panic!("{other:?}"),
    }
}

#[test]
fn a_share_without_a_pin_is_redeemed_by_its_token() {
    let mut desk = desk();
    let create = command(&["keyquorum", "share", "create-credential", "1", "--ttl-seconds", "60"]);
    let lines = said(begin_share(&mut desk, &create, NOW).unwrap());
    assert_eq!(lines[0], "Share id:   1");
    assert_eq!(lines[2], "Expires at: 2026-01-01 00:01:00");
    let token = lines[1].strip_prefix("Token:      ").expect("a token").to_string();

    let redeem = command(&["keyquorum", "share", "redeem-credential"]);
    let pending =
        asked(begin_share(&mut desk, &redeem, NOW).unwrap(), "Credential share token: ");
    let lines = said(answer_share(&mut desk, pending, &token, NOW).unwrap());
    assert_eq!(lines, vec!["Redeemed credential 1".to_string()]);
}

#[test]
fn a_share_with_a_pin_asks_for_it_before_it_is_used() {
    let mut desk = desk();
    let create = command(&["keyquorum", "share", "create-file", "1", "--max-uses", "1", "--pin"]);
    let pending = asked(
        begin_share(&mut desk, &create, NOW).unwrap(),
        "Set a 4-digit PIN for this share: ",
    );
    let lines = said(answer_share(&mut desk, pending, "1234", NOW).unwrap());
    let token = lines[1].strip_prefix("Token:      ").expect("a token").to_string();

    let redeem = command(&["keyquorum", "share", "redeem-file"]);
    let pending = asked(begin_share(&mut desk, &redeem, NOW).unwrap(), "File share token: ");
    let pending = asked(answer_share(&mut desk, pending, &token, NOW).unwrap(), "PIN: ");
    assert_eq!(
        answer_share(&mut desk, pending, "0000", NOW).unwrap_err(),
        Error::PinMismatch
    );
    assert_eq!(desk.file_shares.rows[0].use_count, 0);

    let pending = asked(begin_share(&mut desk, &redeem, NOW).unwrap(), "File share token: ");
    let pending = asked(answer_share(&mut desk, pending, &token, NOW).unwrap(), "PIN: ");
    let lines = said(answer_share(&mut desk, pending, "1234", NOW).unwrap());
    assert_eq!(lines, vec!["Redeemed file 1".to_string()]);
    assert_eq!(desk.file_shares.rows[0].use_count, 1);
}

#[test]
fn a_revoked_share_opens_nothing() {
    let mut desk = desk();
    let create = command(&["keyquorum", "share", "create-credential", "1"]);
    let lines = said(begin_share(&mut desk, &create, NOW).unwrap());
    let token = lines[1].strip_prefix("Token:      ").expect("a token").to_string();
    let revoke = command(&["keyquorum", "share", "revoke-credential", "1"]);
    assert_eq!(
        said(begin_share(&mut desk, &revoke, NOW).unwrap()),
        vec!["Revoked credential share 1".to_string()]
    );
    let redeem = command(&["keyquorum", "share", "redeem-credential"]);
    let pending =
        asked(begin_share(&mut desk, &redeem, NOW).unwrap(), "Credential share token: ");
    assert_eq!(
        answer_share(&mut desk, pending, &token, NOW).unwrap_err(),
        Error::ShareRevoked
    );
}
