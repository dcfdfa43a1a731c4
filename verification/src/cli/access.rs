//! Which way a file is to be gone: locked, unlocked, or looked at.

use vstd::prelude::*;

use crate::cli::grammar::{Cli, CliView};
use crate::encoding::{hex_in_text, hex_of_len, parse_hex_32, parse_hex_64};
use crate::error::{fault_of, Error};
use crate::signing::{signature_fault, verify_signature};
use crate::text::{chars_of, optional_text, push_text, text_of, text_views};

verus! {

/// What is said of an argument that the state needs.
pub open spec fn lacking(flag: Seq<char>) -> Seq<char> {
    "--"@ + flag + " is required for this --state value"@
}

fn lacking_text(flag: &str) -> (r: String)
    ensures
        r@ == lacking(flag@),
{
    let mut out = chars_of("--");
    push_text(&mut out, flag);
    push_text(&mut out, " is required for this --state value");
    text_of(out.as_slice())
}

/// What is to be done with a file under a password.
#[derive(Debug)]
pub enum PasswordPlan {
    Lock { source: String, encrypted_path: String, pin: bool },
    Unlock { id: i64, output: Option<String> },
}

/// What the command line says to do with a file under a password, or what it
/// lacks.
pub open spec fn password_planned(cli: CliView, r: Result<PasswordPlan, String>) -> bool {
    if cli.number("state"@) == Some(0int) {
        match (cli.text("source"@), cli.text("encrypted-path"@)) {
            (None, _) => r matches Err(message) && message@ == lacking("source"@),
            (_, None) => r matches Err(message) && message@ == lacking("encrypted-path"@),
            (Some(from), Some(to)) => r matches Ok(PasswordPlan::Lock {
                source,
                encrypted_path,
                pin,
            }) && source@ == from && encrypted_path@ == to && pin == cli.has("pin"@),
        }
    } else if cli.number("state"@) == Some(1int) {
        match cli.number("id"@) {
            None => r matches Err(message) && message@ == lacking("id"@),
            Some(n) => r matches Ok(PasswordPlan::Unlock { id, output }) && id == n
                && optional_text(output) == cli.text("output"@),
        }
    } else {
        r matches Err(message) && message@ == "--state must be 0 (lock) or 1 (unlock)"@
    }
}

/// What the command line says to do with a file under a password.
pub fn password_plan(cli: &Cli) -> (r: Result<PasswordPlan, String>)
    ensures
        password_planned(cli@, r),
{
    match cli.number("state") {
        Some(0) => {
            let source = match cli.text("source") {
                Some(source) => source,
                None => return Err(lacking_text("source")),
            };
            let encrypted_path = match cli.text("encrypted-path") {
                Some(encrypted_path) => encrypted_path,
                None => return Err(lacking_text("encrypted-path")),
            };
            Ok(PasswordPlan::Lock { source, encrypted_path, pin: cli.has("pin") })
        },
        Some(1) => match cli.number("id") {
            Some(id) => Ok(PasswordPlan::Unlock { id, output: cli.text("output") }),
            None => Err(lacking_text("id")),
        },
        _ => Err("--state must be 0 (lock) or 1 (unlock)".to_owned()),
    }
}

/// What is to be done with a file under a quorum.
#[derive(Debug)]
pub enum QuorumPlan {
    Status { id: i64 },
    Lock {
        source: String,
        encrypted_path: String,
        tree_spec: Option<String>,
        leaves: Vec<String>,
        name: Option<String>,
    },
    Unlock { id: i64, share_files: Vec<String>, output: Option<String> },
}

/// What the command line says to lock under a quorum, or what it lacks.
pub open spec fn quorum_lock_planned(cli: CliView, r: Result<QuorumPlan, String>) -> bool {
    match (cli.text("source"@), cli.text("encrypted-path"@)) {
        (None, _) => r matches Err(message) && message@ == lacking("source"@),
        (_, None) => r matches Err(message) && message@ == lacking("encrypted-path"@),
        (Some(from), Some(to)) => if cli.text("tree-spec"@) is None && cli.values("leaf"@).len()
            == 0 {
            r matches Err(message) && message@ == lacking("tree-spec"@)
        } else {
            r matches Ok(QuorumPlan::Lock { source, encrypted_path, tree_spec, leaves, name }) && {
                &&& source@ == from
                &&& encrypted_path@ == to
                &&& optional_text(tree_spec) == cli.text("tree-spec"@)
                &&& text_views(leaves@) == cli.values("leaf"@)
                &&& optional_text(name) == cli.text("name"@)
            }
        },
    }
}

/// What the command line says to do with a file under a quorum, or what it lacks.
pub open spec fn quorum_planned(cli: CliView, r: Result<QuorumPlan, String>) -> bool {
    if cli.has("status"@) {
        match cli.number("id"@) {
            None => r matches Err(message) && message@ == lacking("id"@),
            Some(n) => r matches Ok(QuorumPlan::Status { id }) && id == n,
        }
    } else if cli.number("state"@) == Some(0int) {
        quorum_lock_planned(cli, r)
    } else if cli.number("state"@) == Some(1int) {
        match cli.number("id"@) {
            None => r matches Err(message) && message@ == lacking("id"@),
            Some(n) => r matches Ok(QuorumPlan::Unlock { id, share_files, output }) && id == n
                && text_views(share_files@) == cli.values("share-file"@) && optional_text(output)
                == cli.text("output"@),
        }
    } else {
        r matches Err(message) && message@
            == "--state must be 0 (lock) or 1 (unlock), or pass --status"@
    }
}

fn quorum_lock_plan(cli: &Cli) -> (r: Result<QuorumPlan, String>)
    ensures
        quorum_lock_planned(cli@, r),
{
    let source = match cli.text("source") {
        Some(source) => source,
        None => return Err(lacking_text("source")),
    };
    let encrypted_path = match cli.text("encrypted-path") {
        Some(encrypted_path) => encrypted_path,
        None => return Err(lacking_text("encrypted-path")),
    };
    let tree_spec = cli.text("tree-spec");
    let leaves = cli.values("leaf");
    assert(cli@.values("leaf"@).len() == leaves@.len());
    if tree_spec.is_none() && leaves.len() == 0 {
        return Err(lacking_text("tree-spec"));
    }
    Ok(QuorumPlan::Lock { source, encrypted_path, tree_spec, leaves, name: cli.text("name") })
}

/// What the command line says to do with a file under a quorum.
pub fn quorum_plan(cli: &Cli) -> (r: Result<QuorumPlan, String>)
    ensures
        quorum_planned(cli@, r),
{
    if cli.has("status") {
        return match cli.number("id") {
            Some(id) => Ok(QuorumPlan::Status { id }),
            None => Err(lacking_text("id")),
        };
    }
    match cli.number("state") {
        Some(0) => quorum_lock_plan(cli),
        Some(1) => match cli.number("id") {
            Some(id) => Ok(
                QuorumPlan::Unlock {
                    id,
                    share_files: cli.values("share-file"),
                    output: cli.text("output"),
                },
            ),
            None => Err(lacking_text("id")),
        },
        _ => Err("--state must be 0 (lock) or 1 (unlock), or pass --status".to_owned()),
    }
}

/// Checks the signature that a text holds against the key that another holds.
pub fn check_signature(public_key: &str, message: &[u8], signature: &str) -> (r: Result<(), Error>)
    ensures
        fault_of(r) == (if !hex_of_len(public_key@, 32) || !hex_of_len(signature@, 64) {
            Some(Error::InvalidPublicKey)
        } else {
            signature_fault(
                hex_in_text(public_key@)->0,
                message@,
                hex_in_text(signature@)->0,
            )
        }),
{
    let public_key = match parse_hex_32(public_key) {
        Ok(public_key) => public_key,
        Err(e) => return Err(e),
    };
    let signature = match parse_hex_64(signature) {
        Ok(signature) => signature,
        Err(e) => return Err(e),
    };
    verify_signature(&public_key, message, &signature)
}

/// A file is locked under a password exactly if state 0 is asked for with a source and a
/// path, and unlocked exactly if state 1 is asked for with an id.
pub proof fn password_asks(cli: CliView, r: Result<PasswordPlan, String>)
    requires
        password_planned(cli, r),
    ensures
        r matches Ok(PasswordPlan::Lock { .. }) <==> cli.number("state"@) == Some(0int)
            && cli.text("source"@) is Some && cli.text("encrypted-path"@) is Some,
        r matches Ok(PasswordPlan::Unlock { .. }) <==> cli.number("state"@) == Some(1int)
            && cli.number("id"@) is Some,
        r matches Ok(PasswordPlan::Lock { source, encrypted_path, pin }) ==> cli.text("source"@)
            == Some(source@) && cli.text("encrypted-path"@) == Some(encrypted_path@) && pin
            == cli.has("pin"@),
        r matches Ok(PasswordPlan::Unlock { id, output }) ==> cli.number("id"@) == Some(id as int)
            && optional_text(output) == cli.text("output"@),
{
}

/// A file under a quorum is looked at exactly if its status is asked for with an id. It is
/// otherwise locked exactly if state 0 is asked for with a source, a path, and a tree or
/// leaves, and unlocked exactly if state 1 is asked for with an id.
pub proof fn quorum_asks(cli: CliView, r: Result<QuorumPlan, String>)
    requires
        quorum_planned(cli, r),
    ensures
        r matches Ok(QuorumPlan::Status { .. }) <==> cli.has("status"@) && cli.number("id"@)
            is Some,
        r matches Ok(QuorumPlan::Lock { .. }) <==> {
            &&& !cli.has("status"@)
            &&& cli.number("state"@) == Some(0int)
            &&& cli.text("source"@) is Some
            &&& cli.text("encrypted-path"@) is Some
            &&& cli.text("tree-spec"@) is Some || cli.values("leaf"@).len() > 0
        },
        r matches Ok(QuorumPlan::Unlock { .. }) <==> !cli.has("status"@) && cli.number("state"@)
            == Some(1int) && cli.number("id"@) is Some,
        r matches Ok(QuorumPlan::Status { id }) ==> cli.number("id"@) == Some(id as int),
        r matches Ok(QuorumPlan::Lock { source, encrypted_path, tree_spec, leaves, name }) ==> {
            &&& cli.text("source"@) == Some(source@)
            &&& cli.text("encrypted-path"@) == Some(encrypted_path@)
            &&& optional_text(tree_spec) == cli.text("tree-spec"@)
            &&& text_views(leaves@) == cli.values("leaf"@)
            &&& optional_text(name) == cli.text("name"@)
        },
        r matches Ok(QuorumPlan::Unlock { id, share_files, output }) ==> {
            &&& cli.number("id"@) == Some(id as int)
            &&& text_views(share_files@) == cli.values("share-file"@)
            &&& optional_text(output) == cli.text("output"@)
        },
{
}

} // verus!
