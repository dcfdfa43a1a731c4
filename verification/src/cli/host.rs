//! The commands of the mailbox host, and what its key commands do and tell.

use vstd::prelude::*;

use crate::cli::grammar::{Cli, CliView};
use crate::cli::lines::{numbered, or_hyphen, push_line, push_or, single};
use crate::cli::verbs::Verb;
use crate::clock::{instant_text, instant_told};
use crate::error::{Error, StoreError};
use crate::numbers::{integer_text, push_integer};
use crate::relay::api_key::{
    api_key_place, api_keys_wf, bearer_may_be_taken, create, minted, new_row, next_api_key_id,
    request_fault, revoke, rotate, with_revoked, with_rotated, ApiKeyRow, ApiKeyRowView, ApiKeyScope, ApiKeys, NewApiKey,
};
use crate::text::{chars_of, concat, copy_text, optional_text, push_text, text_of, text_views};

verus! {

/// Where the host listens, where the command line does not say.
pub const DEFAULT_BIND: &'static str = "127.0.0.1:8787";

/// How often the host looks for what has expired, where the command line does not
/// say.
pub const SCAN_INTERVAL_SECONDS: i64 = 60;

/// A command of the host.
#[allow(inconsistent_fields)]
#[derive(Debug)]
pub enum HostCommand {
    /// Listens for envelopes. No keys are made over the network.
    Serve {
        bind: String,
        cert: Option<String>,
        relay_key: Option<String>,
        krl: Option<String>,
        scan_db: Option<String>,
        scan_interval_seconds: i64,
    },
    Identity { command: IdentityCommand },
    /// Issues a certificate under the offline root key.
    Certify {
        root_key: Option<String>,
        relay_public_key: String,
        provider_id: String,
        serial: String,
        issued_at: Option<String>,
        expires_at: String,
        capabilities: String,
        issuer_id: String,
        out: String,
    },
    /// Issues a signed list of revoked certificates.
    Krl { root_key: Option<String>, issued_at: Option<String>, serials: Vec<String>, out: String },
    Keys { command: KeysCommand },
    Root { command: RootCommand },
    Policy { command: PolicyCommand },
}

/// Making the root key.
#[derive(Debug)]
pub enum RootCommand {
    Generate { public_key_out: String, networks: Vec<String>, ssids: Vec<String> },
}

/// Issuing a policy.
#[derive(Debug)]
pub enum PolicyCommand {
    Issue {
        root_key: Option<String>,
        relay_public_key: String,
        provider_id: String,
        policy_id: String,
        issued_at: Option<String>,
        expires_at: String,
        capabilities: String,
        hardware_fingerprints: Vec<String>,
        revoked_hardware: Vec<String>,
        corporate_networks: Vec<String>,
        network_mode: String,
        ssid: Option<String>,
        bssid: Option<String>,
        hardware_threshold: u8,
        permissions: Vec<String>,
        out: String,
    },
}

/// Making the identity of a relay.
#[derive(Debug)]
pub enum IdentityCommand {
    Generate { public_key_out: String },
}

/// Making, listing and ending bearer keys.
#[derive(Debug)]
pub enum KeysCommand {
    Create {
        scope: String,
        fingerprint: Option<String>,
        label: Option<String>,
        ttl_seconds: Option<i64>,
    },
    List,
    Revoke { id: i64 },
    Rotate { id: i64 },
}

/// The text of an argument, or another one where it is not given.
pub open spec fn text_or(cli: CliView, name: Seq<char>, other: Seq<char>) -> Seq<char> {
    match cli.text(name) {
        Some(text) => text,
        None => other,
    }
}

fn read_or(cli: &Cli, name: &str, other: &str) -> (r: String)
    ensures
        r@ == text_or(cli@, name@, other@),
{
    match cli.text(name) {
        Some(text) => text,
        None => other.to_owned(),
    }
}

/// The number is what an argument states, if it is given.
pub open spec fn states(cli: CliView, name: Seq<char>, n: Option<i64>) -> bool {
    cli.number(name) == (match n {
        Some(n) => Some(n as int),
        None => None,
    })
}

/// The key command is what the command line says.
pub open spec fn keys_said(cli: CliView, r: Option<KeysCommand>) -> bool {
    match cli.verb {
        Verb::HostKeysCreate => match cli.text("scope"@) {
            None => r is None,
            Some(text) => r matches Some(KeysCommand::Create {
                scope,
                fingerprint,
                label,
                ttl_seconds,
            }) && scope@ == text && optional_text(fingerprint) == cli.text("fingerprint"@)
                && optional_text(label) == cli.text("label"@) && states(
                cli,
                "ttl-seconds"@,
                ttl_seconds,
            ),
        },
        Verb::HostKeysList => r matches Some(KeysCommand::List),
        Verb::HostKeysRevoke => match cli.number("id"@) {
            None => r is None,
            Some(n) => r matches Some(KeysCommand::Revoke { id }) && id == n,
        },
        Verb::HostKeysRotate => match cli.number("id"@) {
            None => r is None,
            Some(n) => r matches Some(KeysCommand::Rotate { id }) && id == n,
        },
        _ => r is None,
    }
}

/// The key command that a command line says, if it says one.
pub fn keys_command(cli: &Cli) -> (r: Option<KeysCommand>)
    ensures
        keys_said(cli@, r),
{
    match cli.verb {
        Verb::HostKeysCreate => match cli.text("scope") {
            None => None,
            Some(scope) => Some(
                KeysCommand::Create {
                    scope,
                    fingerprint: cli.text("fingerprint"),
                    label: cli.text("label"),
                    ttl_seconds: cli.number("ttl-seconds"),
                },
            ),
        },
        Verb::HostKeysList => Some(KeysCommand::List),
        Verb::HostKeysRevoke => match cli.number("id") {
            None => None,
            Some(id) => Some(KeysCommand::Revoke { id }),
        },
        Verb::HostKeysRotate => match cli.number("id") {
            None => None,
            Some(id) => Some(KeysCommand::Rotate { id }),
        },
        _ => None,
    }
}

/// The command that makes the root key is what the command line says.
pub open spec fn root_said(cli: CliView, r: Option<RootCommand>) -> bool {
    match (cli.verb, cli.text("public-key-out"@)) {
        (Verb::HostRootGenerate, Some(path)) => r matches Some(RootCommand::Generate {
            public_key_out,
            networks,
            ssids,
        }) && public_key_out@ == path && text_views(networks@) == cli.values("network"@)
            && text_views(ssids@) == cli.values("ssid"@),
        _ => r is None,
    }
}

/// The command that makes the root key, if a command line says it.
pub fn root_command(cli: &Cli) -> (r: Option<RootCommand>)
    ensures
        root_said(cli@, r),
{
    match cli.verb {
        Verb::HostRootGenerate => match cli.text("public-key-out") {
            None => None,
            Some(public_key_out) => Some(
                RootCommand::Generate {
                    public_key_out,
                    networks: cli.values("network"),
                    ssids: cli.values("ssid"),
                },
            ),
        },
        _ => None,
    }
}

/// The command that makes a relay's identity is what the command line says.
pub open spec fn identity_said(cli: CliView, r: Option<IdentityCommand>) -> bool {
    match (cli.verb, cli.text("public-key-out"@)) {
        (Verb::HostIdentityGenerate, Some(path)) => r matches Some(IdentityCommand::Generate {
            public_key_out,
        }) && public_key_out@ == path,
        _ => r is None,
    }
}

/// The command that makes a relay's identity, if a command line says it.
pub fn identity_command(cli: &Cli) -> (r: Option<IdentityCommand>)
    ensures
        identity_said(cli@, r),
{
    match cli.verb {
        Verb::HostIdentityGenerate => match cli.text("public-key-out") {
            None => None,
            Some(public_key_out) => Some(IdentityCommand::Generate { public_key_out }),
        },
        _ => None,
    }
}

/// The values of an argument, or a single other one where it is not given.
pub open spec fn values_or(cli: CliView, name: Seq<char>, other: Seq<char>) -> Seq<Seq<char>> {
    if cli.values(name).len() > 0 {
        cli.values(name)
    } else {
        seq![other]
    }
}

fn read_values_or(cli: &Cli, name: &str, other: &str) -> (r: Vec<String>)
    ensures
        text_views(r@) == values_or(cli@, name@, other@),
{
    let given = cli.values(name);
    if given.len() > 0 {
        assert(cli@.values(name@).len() == given@.len());
        given
    } else {
        single(other.to_owned())
    }
}

/// The command that issues a policy is what the command line says.
pub open spec fn policy_said(cli: CliView, r: Option<PolicyCommand>) -> bool {
    if cli.verb == Verb::HostPolicyIssue && cli.text("relay-public-key"@) is Some && cli.text(
        "provider-id"@,
    ) is Some && cli.text("policy-id"@) is Some && cli.text("expires-at"@) is Some && cli.text(
        "out"@,
    ) is Some {
        r matches Some(PolicyCommand::Issue {
            root_key,
            relay_public_key,
            provider_id,
            policy_id,
            issued_at,
            expires_at,
            capabilities,
            hardware_fingerprints,
            revoked_hardware,
            corporate_networks,
            network_mode,
            ssid,
            bssid,
            hardware_threshold,
            permissions,
            out,
        }) && {
            &&& optional_text(root_key) == cli.text("root-key"@)
            &&& Some(relay_public_key@) == cli.text("relay-public-key"@)
            &&& Some(provider_id@) == cli.text("provider-id"@)
            &&& Some(policy_id@) == cli.text("policy-id"@)
            &&& optional_text(issued_at) == cli.text("issued-at"@)
            &&& Some(expires_at@) == cli.text("expires-at"@)
            &&& capabilities@ == text_or(cli, "capabilities"@, "provider"@)
            &&& text_views(hardware_fingerprints@) == cli.values("hardware-fingerprint"@)
            &&& text_views(revoked_hardware@) == cli.values("revoked-hardware"@)
            &&& text_views(corporate_networks@) == cli.values("corporate-network"@)
            &&& network_mode@ == text_or(cli, "network-mode"@, "vpn"@)
            &&& optional_text(ssid) == cli.text("ssid"@)
            &&& optional_text(bssid) == cli.text("bssid"@)
            &&& hardware_threshold == (match cli.number("hardware-threshold"@) {
                Some(n) => if 0 <= n <= 255 {
                    n
                } else {
                    1
                },
                None => 1,
            })
            &&& text_views(permissions@) == values_or(
                cli,
                "permission"@,
                "api-root.generate"@,
            )
            &&& Some(out@) == cli.text("out"@)
        }
    } else {
        r is None
    }
}

/// The command that issues a policy, if a command line says it.
pub fn policy_command(cli: &Cli) -> (r: Option<PolicyCommand>)
    ensures
        policy_said(cli@, r),
{
    match cli.verb {
        Verb::HostPolicyIssue => {},
        _ => return None,
    }
    let hardware_threshold: u8 = match cli.number("hardware-threshold") {
        Some(n) => if 0 <= n && n <= 255 {
            n as u8
        } else {
            1
        },
        None => 1,
    };
    match (
        cli.text("relay-public-key"),
        cli.text("provider-id"),
        cli.text("policy-id"),
        cli.text("expires-at"),
        cli.text("out"),
    ) {
        (
            Some(relay_public_key),
            Some(provider_id),
            Some(policy_id),
            Some(expires_at),
            Some(out),
        ) => Some(
            PolicyCommand::Issue {
                root_key: cli.text("root-key"),
                relay_public_key,
                provider_id,
                policy_id,
                issued_at: cli.text("issued-at"),
                expires_at,
                capabilities: read_or(cli, "capabilities", "provider"),
                hardware_fingerprints: cli.values("hardware-fingerprint"),
                revoked_hardware: cli.values("revoked-hardware"),
                corporate_networks: cli.values("corporate-network"),
                network_mode: read_or(cli, "network-mode", "vpn"),
                ssid: cli.text("ssid"),
                bssid: cli.text("bssid"),
                hardware_threshold,
                permissions: read_values_or(cli, "permission", "api-root.generate"),
                out,
            },
        ),
        _ => None,
    }
}

/// The command that listens is what the command line says.
pub open spec fn serve_said(cli: CliView, r: Option<HostCommand>) -> bool {
    r matches Some(HostCommand::Serve {
        bind,
        cert,
        relay_key,
        krl,
        scan_db,
        scan_interval_seconds,
    }) && {
        &&& bind@ == text_or(cli, "bind"@, DEFAULT_BIND@)
        &&& optional_text(cert) == cli.text("cert"@)
        &&& optional_text(relay_key) == cli.text("relay-key"@)
        &&& optional_text(krl) == cli.text("krl"@)
        &&& optional_text(scan_db) == cli.text("scan-db"@)
        &&& scan_interval_seconds == (match cli.number("scan-interval-seconds"@) {
            Some(n) => n,
            None => SCAN_INTERVAL_SECONDS as int,
        })
    }
}

/// The command that certifies is what the command line says.
pub open spec fn certify_said(cli: CliView, r: Option<HostCommand>) -> bool {
    if cli.text("relay-public-key"@) is Some && cli.text("provider-id"@) is Some && cli.text(
        "serial"@,
    ) is Some && cli.text("expires-at"@) is Some && cli.text("out"@) is Some {
        r matches Some(HostCommand::Certify {
            root_key,
            relay_public_key,
            provider_id,
            serial,
            issued_at,
            expires_at,
            capabilities,
            issuer_id,
            out,
        }) && {
            &&& optional_text(root_key) == cli.text("root-key"@)
            &&& Some(relay_public_key@) == cli.text("relay-public-key"@)
            &&& Some(provider_id@) == cli.text("provider-id"@)
            &&& Some(serial@) == cli.text("serial"@)
            &&& optional_text(issued_at) == cli.text("issued-at"@)
            &&& Some(expires_at@) == cli.text("expires-at"@)
            &&& capabilities@ == text_or(cli, "capabilities"@, "provider"@)
            &&& issuer_id@ == text_or(cli, "issuer-id"@, "KeyQuorumRoot"@)
            &&& Some(out@) == cli.text("out"@)
        }
    } else {
        r is None
    }
}

/// The command that lists revoked certificates is what the command line says.
pub open spec fn krl_said(cli: CliView, r: Option<HostCommand>) -> bool {
    match cli.text("out"@) {
        Some(path) => r matches Some(HostCommand::Krl { root_key, issued_at, serials, out }) && {
            &&& optional_text(root_key) == cli.text("root-key"@)
            &&& optional_text(issued_at) == cli.text("issued-at"@)
            &&& text_views(serials@) == cli.values("serial"@)
            &&& out@ == path
        },
        None => r is None,
    }
}

/// The host command is what the command line says.
pub open spec fn host_said(cli: CliView, r: Option<HostCommand>) -> bool {
    match cli.verb {
        Verb::HostServe => serve_said(cli, r),
        Verb::HostCertify => certify_said(cli, r),
        Verb::HostKrl => krl_said(cli, r),
        Verb::HostIdentityGenerate => match r {
            Some(HostCommand::Identity { command }) => identity_said(cli, Some(command)),
            Some(_) => false,
            None => identity_said(cli, None),
        },
        Verb::HostKeysCreate | Verb::HostKeysList | Verb::HostKeysRevoke | Verb::HostKeysRotate =>
        match r {
            Some(HostCommand::Keys { command }) => keys_said(cli, Some(command)),
            Some(_) => false,
            None => keys_said(cli, None),
        },
        Verb::HostRootGenerate => match r {
            Some(HostCommand::Root { command }) => root_said(cli, Some(command)),
            Some(_) => false,
            None => root_said(cli, None),
        },
        Verb::HostPolicyIssue => match r {
            Some(HostCommand::Policy { command }) => policy_said(cli, Some(command)),
            Some(_) => false,
            None => policy_said(cli, None),
        },
        _ => r is None,
    }
}

fn serve_command(cli: &Cli) -> (r: Option<HostCommand>)
    ensures
        serve_said(cli@, r),
{
    let scan_interval_seconds: i64 = match cli.number("scan-interval-seconds") {
        Some(n) => n,
        None => SCAN_INTERVAL_SECONDS,
    };
    Some(
        HostCommand::Serve {
            bind: read_or(cli, "bind", DEFAULT_BIND),
            cert: cli.text("cert"),
            relay_key: cli.text("relay-key"),
            krl: cli.text("krl"),
            scan_db: cli.text("scan-db"),
            scan_interval_seconds,
        },
    )
}

fn certify_command(cli: &Cli) -> (r: Option<HostCommand>)
    ensures
        certify_said(cli@, r),
{
    match (
        cli.text("relay-public-key"),
        cli.text("provider-id"),
        cli.text("serial"),
        cli.text("expires-at"),
        cli.text("out"),
    ) {
        (
            Some(relay_public_key),
            Some(provider_id),
            Some(serial),
            Some(expires_at),
            Some(out),
        ) => Some(
            HostCommand::Certify {
                root_key: cli.text("root-key"),
                relay_public_key,
                provider_id,
                serial,
                issued_at: cli.text("issued-at"),
                expires_at,
                capabilities: read_or(cli, "capabilities", "provider"),
                issuer_id: read_or(cli, "issuer-id", "KeyQuorumRoot"),
                out,
            },
        ),
        _ => None,
    }
}

fn krl_command(cli: &Cli) -> (r: Option<HostCommand>)
    ensures
        krl_said(cli@, r),
{
    match cli.text("out") {
        Some(out) => Some(
            HostCommand::Krl {
                root_key: cli.text("root-key"),
                issued_at: cli.text("issued-at"),
                serials: cli.values("serial"),
                out,
            },
        ),
        None => None,
    }
}

/// The host command that a command line says, if it says one.
pub fn host_command(cli: &Cli) -> (r: Option<HostCommand>)
    ensures
        host_said(cli@, r),
{
    match cli.verb {
        Verb::HostServe => serve_command(cli),
        Verb::HostCertify => certify_command(cli),
        Verb::HostKrl => krl_command(cli),
        Verb::HostIdentityGenerate => match identity_command(cli) {
            Some(command) => Some(HostCommand::Identity { command }),
            None => None,
        },
        Verb::HostKeysCreate | Verb::HostKeysList | Verb::HostKeysRevoke | Verb::HostKeysRotate =>
        match keys_command(cli) {
            Some(command) => Some(HostCommand::Keys { command }),
            None => None,
        },
        Verb::HostRootGenerate => match root_command(cli) {
            Some(command) => Some(HostCommand::Root { command }),
            None => None,
        },
        Verb::HostPolicyIssue => match policy_command(cli) {
            Some(command) => Some(HostCommand::Policy { command }),
            None => None,
        },
        _ => None,
    }
}

/// The line of a bearer key in a list, with tabs between its columns.
pub open spec fn api_key_told(row: ApiKeyRowView) -> Seq<char> {
    integer_text(row.id as int) + "\t"@ + row.scope.text() + "\t"@ + or_hyphen(
        row.recipient_fingerprint,
    ) + "\t"@ + (match row.revoked_at {
        Some(at) => instant_told(at as int),
        None => "live"@,
    }) + "\t"@ + or_hyphen(row.label)
}

/// What is told of all bearer keys.
pub open spec fn api_keys_told(rows: Seq<ApiKeyRowView>) -> Seq<Seq<char>> {
    if rows.len() == 0 {
        seq!["(no API keys)"@]
    } else {
        Seq::new(rows.len(), |i: int| api_key_told(rows[i]))
    }
}

fn api_key_line(row: &ApiKeyRow) -> (r: String)
    ensures
        r@ == api_key_told(row@),
{
    let mut out: Vec<char> = Vec::new();
    push_integer(&mut out, row.id);
    push_text(&mut out, "\t");
    push_text(&mut out, row.scope.as_str());
    push_text(&mut out, "\t");
    push_or(&mut out, &row.recipient_fingerprint, "-");
    push_text(&mut out, "\t");
    match row.revoked_at {
        Some(at) => push_text(&mut out, instant_text(at).as_str()),
        None => push_text(&mut out, "live"),
    }
    push_text(&mut out, "\t");
    push_or(&mut out, &row.label, "-");
    assert(out@ =~= api_key_told(row@));
    text_of(out.as_slice())
}

/// What is told of all bearer keys.
pub fn list_api_keys(keys: &ApiKeys) -> (r: Vec<String>)
    ensures
        text_views(r@) == api_keys_told(keys@),
{
    if keys.rows.len() == 0 {
        return single("(no API keys)".to_owned());
    }
    let ghost told = Seq::new(keys@.len(), |i: int| api_key_told(keys@[i]));
    let mut lines: Vec<String> = Vec::new();
    let mut i: usize = 0;
    assert(text_views(lines@) =~= told.take(0));
    while i < keys.rows.len()
        invariant
            i <= keys.rows.len(),
            told == Seq::new(keys@.len(), |i: int| api_key_told(keys@[i])),
            text_views(lines@) == told.take(i as int),
        decreases keys.rows.len() - i,
    {
        assert(keys@[i as int] == keys.rows@[i as int]@);
        push_line(&mut lines, api_key_line(&keys.rows[i]));
        assert(told.take(i + 1) =~= told.take(i as int).push(told[i as int]));
        i += 1;
    }
    assert(told.take(i as int) =~= told);
    lines
}

/// What is told of a bearer key that was just made.
pub open spec fn created_told(row: ApiKeyRowView, token: Seq<char>) -> Seq<Seq<char>> {
    let head = seq![
        "Created API key "@ + integer_text(row.id as int),
        "scope: "@ + row.scope.text(),
    ];
    let bound = match row.recipient_fingerprint {
        Some(fingerprint) => head.push("fingerprint: "@ + fingerprint),
        None => head,
    };
    let limited = match row.expires_at {
        Some(at) => bound.push("expires: "@ + instant_told(at as int)),
        None => bound,
    };
    limited.push("token (shown once): "@ + token)
}

fn created_lines(row: &ApiKeyRow, token: &str) -> (r: Vec<String>)
    ensures
        text_views(r@) == created_told(row@, token@),
{
    let mut lines = single(numbered("Created API key ", row.id));
    push_line(&mut lines, concat("scope: ", row.scope.as_str()));
    assert(text_views(lines@) =~= seq![
        "Created API key "@ + integer_text(row.id as int),
        "scope: "@ + row.scope.text(),
    ]);
    if let Some(fingerprint) = &row.recipient_fingerprint {
        push_line(&mut lines, concat("fingerprint: ", fingerprint.as_str()));
    }
    if let Some(at) = row.expires_at {
        push_line(&mut lines, concat("expires: ", instant_text(at).as_str()));
    }
    push_line(&mut lines, concat("token (shown once): ", token));
    lines
}

/// What is told of a bearer key that replaces another.
pub open spec fn rotated_told(id: i64, new_id: i64, token: Seq<char>) -> Seq<Seq<char>> {
    seq![
        "Rotated API key "@ + integer_text(id as int) + " -> "@ + integer_text(new_id as int),
        "token (shown once): "@ + token,
    ]
}

fn rotated_lines(id: i64, new_id: i64, token: &str) -> (r: Vec<String>)
    ensures
        text_views(r@) == rotated_told(id, new_id, token@),
{
    let mut out = chars_of("Rotated API key ");
    push_integer(&mut out, id);
    push_text(&mut out, " -> ");
    push_integer(&mut out, new_id);
    let mut lines = single(text_of(out.as_slice()));
    push_line(&mut lines, concat("token (shown once): ", token));
    assert(text_views(lines@) =~= rotated_told(id, new_id, token@));
    lines
}

/// The keys after one was made, and what is told of it.
pub open spec fn key_made(
    before: Seq<ApiKeyRowView>,
    after: Seq<ApiKeyRowView>,
    lines: Seq<Seq<char>>,
    request: NewApiKey,
    created_at: Seq<char>,
    now: i64,
    token: Seq<char>,
) -> bool {
    let id = next_api_key_id(before);
    &&& after == before.push(
        new_row(id, request, after.last().key_hash, created_at, now),
    )
    &&& minted(after, id as i64, token)
    &&& lines == created_told(after.last(), token)
}

/// The keys after one was replaced, and what is told of it.
pub open spec fn key_rotated(
    before: Seq<ApiKeyRowView>,
    after: Seq<ApiKeyRowView>,
    lines: Seq<Seq<char>>,
    i: int,
    created_at: Seq<char>,
    now: i64,
    token: Seq<char>,
) -> bool {
    let new_id = next_api_key_id(before) as i64;
    &&& after == with_rotated(before, i, new_id, after.last().key_hash, created_at, now)
    &&& minted(after, new_id, token)
    &&& lines == rotated_told(before[i].id, new_id, token)
}

/// The request is what the command asks for.
pub open spec fn asks_for(command: KeysCommand, request: NewApiKey) -> bool {
    command matches KeysCommand::Create { scope, fingerprint, label, ttl_seconds } && {
        &&& request.scope.text() == scope@
        &&& optional_text(request.recipient_fingerprint) == optional_text(fingerprint)
        &&& optional_text(request.label) == optional_text(label)
        &&& request.ttl_seconds == ttl_seconds
    }
}

/// Why a request is refused, if it is: it has a fault, or the bearer that was
/// drawn is taken.
pub open spec fn may_refuse(
    before: Seq<ApiKeyRowView>,
    request: NewApiKey,
    now: i64,
    e: Error,
) -> bool {
    match request_fault(
        request.scope,
        optional_text(request.recipient_fingerprint),
        request.ttl_seconds,
        now,
    ) {
        Some(fault) => e == fault,
        None => e == Error::Db(StoreError::ApiKeyHash) && bearer_may_be_taken(before),
    }
}

/// A key was made that could be, and its bearer is told.
pub open spec fn made_and_told(
    before: Seq<ApiKeyRowView>,
    after: Seq<ApiKeyRowView>,
    lines: Seq<Seq<char>>,
    request: NewApiKey,
    created_at: Seq<char>,
    now: i64,
) -> bool {
    &&& request_fault(
        request.scope,
        optional_text(request.recipient_fingerprint),
        request.ttl_seconds,
        now,
    ) is None
    &&& exists|token: Seq<char>| #[trigger]
        key_made(before, after, lines, request, created_at, now, token)
}

fn make_key(keys: &mut ApiKeys, request: &NewApiKey, created_at: &str, now: i64) -> (r: Result<
    Vec<String>,
    Error,
>)
    requires
        api_keys_wf(old(keys)@),
        next_api_key_id(old(keys)@) <= i64::MAX,
    ensures
        api_keys_wf(final(keys)@),
        r is Err ==> final(keys)@ == old(keys)@,
        match r {
            Ok(lines) => made_and_told(
                old(keys)@,
                final(keys)@,
                text_views(lines@),
                *request,
                created_at@,
                now,
            ),
            Err(e) => may_refuse(old(keys)@, *request, now, e),
        },
{
    let ghost before = keys@;
    match create(keys, request, created_at, now) {
        Ok(created) => {
            let last: usize = keys.rows.len() - 1;
            assert(keys@.last() == keys.rows@[last as int]@);
            let lines = created_lines(&keys.rows[last], created.token.as_str());
            assert(key_made(
                before,
                keys@,
                text_views(lines@),
                *request,
                created_at@,
                now,
                created.token@,
            ));
            Ok(lines)
        },
        Err(e) => Err(e),
    }
}

/// A scope has the name.
pub open spec fn names_scope(name: Seq<char>) -> bool {
    exists|scope: ApiKeyScope| #[trigger] scope.text() == name
}

/// A key was made as the command asks, and its bearer is told.
pub open spec fn creation_told(
    before: Seq<ApiKeyRowView>,
    after: Seq<ApiKeyRowView>,
    lines: Seq<Seq<char>>,
    command: KeysCommand,
    created_at: Seq<char>,
    now: i64,
) -> bool {
    exists|request: NewApiKey| #[trigger]
        asks_for(command, request) && made_and_told(
            before,
            after,
            lines,
            request,
            created_at,
            now,
        )
}

/// The command asks for a key that is refused: of no scope, with a fault, or with
/// a bearer that is taken.
pub open spec fn creation_refused(
    before: Seq<ApiKeyRowView>,
    command: KeysCommand,
    now: i64,
    e: Error,
) -> bool {
    ||| e == Error::InvalidApiKeyRequest && (command matches KeysCommand::Create { scope, .. }
        && !names_scope(scope@))
    ||| exists|request: NewApiKey| #[trigger]
        asks_for(command, request) && may_refuse(before, request, now, e)
}

/// A live key was replaced, and the bearer of the new one is told.
pub open spec fn rotation_told(
    before: Seq<ApiKeyRowView>,
    after: Seq<ApiKeyRowView>,
    lines: Seq<Seq<char>>,
    id: i64,
    created_at: Seq<char>,
    now: i64,
) -> bool {
    api_key_place(before, id) matches Some(i) && {
        &&& before[i].revoked_at is None
        &&& exists|token: Seq<char>| #[trigger]
            key_rotated(before, after, lines, i, created_at, now, token)
    }
}

/// Carries out a key command of the host, and tells what came of it.
///
/// Should the digest of a bearer that is drawn be taken already, a key is refused.
pub fn run_keys(keys: &mut ApiKeys, command: &KeysCommand, created_at: &str, now: i64) -> (r: Result<
    Vec<String>,
    Error,
>)
    requires
        api_keys_wf(old(keys)@),
        next_api_key_id(old(keys)@) <= i64::MAX,
    ensures
        api_keys_wf(final(keys)@),
        r is Err ==> final(keys)@ == old(keys)@,
        *command is Create ==> match r {
            Ok(lines) => creation_told(
                old(keys)@,
                final(keys)@,
                text_views(lines@),
                *command,
                created_at@,
                now,
            ),
            Err(e) => creation_refused(old(keys)@, *command, now, e),
        },
        *command is List ==> final(keys)@ == old(keys)@ && (r matches Ok(lines) && text_views(
            lines@,
        ) == api_keys_told(old(keys)@)),
        *command matches KeysCommand::Revoke { id } ==> match r {
            Ok(lines) => api_key_place(old(keys)@, id) matches Some(i) && {
                &&& final(keys)@ == with_revoked(old(keys)@, i, now)
                &&& text_views(lines@) == seq!["Revoked API key "@ + integer_text(id as int)]
            },
            Err(e) => api_key_place(old(keys)@, id) is None && e == Error::ApiKeyNotFound,
        },
        *command matches KeysCommand::Rotate { id } ==> match r {
            Ok(lines) => rotation_told(
                old(keys)@,
                final(keys)@,
                text_views(lines@),
                id,
                created_at@,
                now,
            ),
            Err(e) => match api_key_place(old(keys)@, id) {
                None => e == Error::ApiKeyNotFound,
                Some(i) => if old(keys)@[i].revoked_at is Some {
                    e == Error::ApiKeyRevoked
                } else {
                    e == Error::Db(StoreError::ApiKeyHash) && bearer_may_be_taken(old(keys)@)
                },
            },
        },
{
    match command {
        KeysCommand::Create { scope, fingerprint, label, ttl_seconds } => {
            let parsed = match ApiKeyScope::parse(scope.as_str()) {
                Ok(parsed) => parsed,
                Err(e) => {
                    assert(!names_scope(scope@));
                    return Err(e);
                },
            };
            let request = NewApiKey {
                scope: parsed,
                recipient_fingerprint: copy_text(fingerprint),
                label: copy_text(label),
                ttl_seconds: *ttl_seconds,
            };
            assert(asks_for(*command, request));
            make_key(keys, &request, created_at, now)
        },
        KeysCommand::List => Ok(list_api_keys(keys)),
        KeysCommand::Revoke { id } => match revoke(keys, *id, now) {
            Ok(()) => Ok(single(numbered("Revoked API key ", *id))),
            Err(e) => Err(e),
        },
        KeysCommand::Rotate { id } => {
            let ghost before = keys@;
            let ghost place = api_key_place(before, *id);
            match rotate(keys, *id, created_at, now) {
                Ok(created) => {
                    let lines = rotated_lines(*id, created.id, created.token.as_str());
                    assert(key_rotated(
                        before,
                        keys@,
                        text_views(lines@),
                        place->0,
                        created_at@,
                        now,
                        created.token@,
                    ));
                    Ok(lines)
                },
                Err(e) => Err(e),
            }
        },
    }
}

/// What the command line does not say of listening is said for it: the address of this
/// machine alone, and a look at what has expired every minute.
pub proof fn host_listens_so(cli: CliView, r: Option<HostCommand>)
    requires
        cli.verb == Verb::HostServe,
        host_said(cli, r),
    ensures
        r matches Some(HostCommand::Serve { bind, scan_interval_seconds, cert, .. }) && {
            &&& cli.text("bind"@) is None ==> bind@ == "127.0.0.1:8787"@
            &&& cli.text("bind"@) matches Some(text) ==> bind@ == text
            &&& cli.number("scan-interval-seconds"@) is None ==> scan_interval_seconds == 60
            &&& cli.number("scan-interval-seconds"@) matches Some(n) ==> scan_interval_seconds == n
            &&& optional_text(cert) == cli.text("cert"@)
        },
{
}

/// A policy is issued exactly if the command says for which relay and provider, under which
/// id, until when and whereto. It asks for one hardware key, where nothing else is said that
/// a byte can count.
pub proof fn policy_is_issued_so(cli: CliView, r: Option<PolicyCommand>)
    requires
        policy_said(cli, r),
    ensures
        r is Some <==> {
            &&& cli.verb == Verb::HostPolicyIssue
            &&& cli.text("relay-public-key"@) is Some
            &&& cli.text("provider-id"@) is Some
            &&& cli.text("policy-id"@) is Some
            &&& cli.text("expires-at"@) is Some
            &&& cli.text("out"@) is Some
        },
        r matches Some(PolicyCommand::Issue {
            hardware_threshold,
            capabilities,
            network_mode,
            permissions,
            ..
        }) ==> {
            &&& cli.number("hardware-threshold"@) is None ==> hardware_threshold == 1
            &&& (cli.number("hardware-threshold"@) matches Some(n) && 0 <= n <= 255)
                ==> hardware_threshold == cli.number("hardware-threshold"@)->0
            &&& (cli.number("hardware-threshold"@) matches Some(n) && n > 255)
                ==> hardware_threshold == 1
            &&& cli.text("capabilities"@) is None ==> capabilities@ == "provider"@
            &&& cli.text("capabilities"@) matches Some(text) ==> capabilities@ == text
            &&& cli.text("network-mode"@) is None ==> network_mode@ == "vpn"@
            &&& cli.text("network-mode"@) matches Some(text) ==> network_mode@ == text
            &&& cli.values("permission"@).len() == 0 ==> text_views(permissions@) == seq![
                "api-root.generate"@,
            ]
            &&& cli.values("permission"@).len() > 0 ==> text_views(permissions@) == cli.values(
                "permission"@,
            )
        },
{
}

/// A certificate is issued exactly if the command says for which relay and provider, under
/// which number, until when and whereto.
pub proof fn certificate_is_issued_so(cli: CliView, r: Option<HostCommand>)
    requires
        cli.verb == Verb::HostCertify,
        host_said(cli, r),
    ensures
        r is Some <==> {
            &&& cli.text("relay-public-key"@) is Some
            &&& cli.text("provider-id"@) is Some
            &&& cli.text("serial"@) is Some
            &&& cli.text("expires-at"@) is Some
            &&& cli.text("out"@) is Some
        },
        r matches Some(command) ==> (command matches HostCommand::Certify {
            capabilities,
            issuer_id,
            serial,
            provider_id,
            ..
        } && {
            &&& cli.text("capabilities"@) is None ==> capabilities@ == "provider"@
            &&& cli.text("issuer-id"@) is None ==> issuer_id@ == "KeyQuorumRoot"@
            &&& cli.text("serial"@) == Some(serial@)
            &&& cli.text("provider-id"@) == Some(provider_id@)
        }),
{
}

/// The lines of a key that was just made tell its id, its scope, whom it is bound to and
/// when it ends where it is or does, and its bearer last.
pub proof fn made_key_is_told(row: ApiKeyRowView, token: Seq<char>)
    ensures
        ({
            let lines = created_told(row, token);
            &&& lines.len() == 3 + (if row.recipient_fingerprint is Some {
                1int
            } else {
                0
            }) + (if row.expires_at is Some {
                1int
            } else {
                0
            })
            &&& lines[0] == "Created API key "@ + integer_text(row.id as int)
            &&& lines[1] == "scope: "@ + row.scope.text()
            &&& row.recipient_fingerprint matches Some(fingerprint) ==> lines[2]
                == "fingerprint: "@ + fingerprint
            &&& row.expires_at matches Some(at) ==> lines[lines.len() - 2] == "expires: "@
                + instant_told(at as int)
            &&& lines.last() == "token (shown once): "@ + token
        }),
{
}

/// One line is told of every key, in order, and one line where there is none.
pub proof fn every_key_is_told(rows: Seq<ApiKeyRowView>, i: int)
    ensures
        rows.len() == 0 ==> api_keys_told(rows) == seq!["(no API keys)"@],
        rows.len() > 0 ==> api_keys_told(rows).len() == rows.len(),
        0 <= i < rows.len() ==> api_keys_told(rows)[i] == api_key_told(rows[i]),
        0 <= i < rows.len() ==> begins_with_id(api_keys_told(rows)[i], rows[i].id),
{
    if 0 <= i < rows.len() {
        let line = api_key_told(rows[i]);
        let id = integer_text(rows[i].id as int);
        assert(line.take(id.len() as int) =~= id);
    }
}

/// The line starts with an id.
pub open spec fn begins_with_id(line: Seq<char>, id: i64) -> bool {
    crate::text::begins_with(line, integer_text(id as int))
}

/// Each key command is the one that the command line names, of the key that it names.
pub proof fn key_commands_say_which(cli: CliView, r: Option<KeysCommand>)
    requires
        keys_said(cli, r),
    ensures
        r matches Some(KeysCommand::Create { .. }) <==> cli.verb == Verb::HostKeysCreate
            && cli.text("scope"@) is Some,
        r matches Some(KeysCommand::List) <==> cli.verb == Verb::HostKeysList,
        r matches Some(KeysCommand::Revoke { .. }) <==> cli.verb == Verb::HostKeysRevoke
            && cli.number("id"@) is Some,
        r matches Some(KeysCommand::Rotate { .. }) <==> cli.verb == Verb::HostKeysRotate
            && cli.number("id"@) is Some,
        r matches Some(KeysCommand::Create { scope, fingerprint, label, ttl_seconds }) ==> {
            &&& cli.text("scope"@) == Some(scope@)
            &&& cli.text("fingerprint"@) == optional_text(fingerprint)
            &&& cli.text("label"@) == optional_text(label)
            &&& cli.number("ttl-seconds"@) is None <==> ttl_seconds is None
            &&& ttl_seconds matches Some(n) ==> cli.number("ttl-seconds"@) == Some(n as int)
        },
        r matches Some(KeysCommand::Revoke { id }) ==> cli.number("id"@) == Some(id as int),
        r matches Some(KeysCommand::Rotate { id }) ==> cli.number("id"@) == Some(id as int),
{
}

/// The root key is made where a path is named, on the networks that are named.
pub proof fn root_key_is_made_so(
    cli: CliView,
    root: Option<RootCommand>,
    identity: Option<IdentityCommand>,
)
    requires
        root_said(cli, root),
        identity_said(cli, identity),
    ensures
        root is Some <==> cli.verb == Verb::HostRootGenerate && cli.text("public-key-out"@) is Some,
        root matches Some(RootCommand::Generate { public_key_out, networks, ssids }) ==> cli.text(
            "public-key-out"@,
        ) == Some(public_key_out@) && text_views(networks@) == cli.values("network"@) && text_views(
            ssids@,
        ) == cli.values("ssid"@),
        identity is Some <==> cli.verb == Verb::HostIdentityGenerate && cli.text("public-key-out"@)
            is Some,
        identity matches Some(IdentityCommand::Generate { public_key_out }) ==> cli.text(
            "public-key-out"@,
        ) == Some(public_key_out@),
{
}

/// A key of a scope is made as the command asks, and told of; a scope that there is not is
/// refused, and so is a request that cannot be met.
pub proof fn keys_are_made_as_asked(command: KeysCommand, request: NewApiKey)
    requires
        asks_for(command, request),
    ensures
        command matches KeysCommand::Create { scope, fingerprint, label, ttl_seconds } && {
            &&& scope@ == request.scope.text()
            &&& optional_text(fingerprint) == optional_text(request.recipient_fingerprint)
            &&& optional_text(label) == optional_text(request.label)
            &&& ttl_seconds == request.ttl_seconds
        },
{
}

/// A request that has a fault is refused for it. Any other is refused only where the bearer
/// that was drawn is taken.
pub proof fn requests_are_refused_for_their_fault(
    before: Seq<ApiKeyRowView>,
    request: NewApiKey,
    now: i64,
    e: Error,
)
    requires
        may_refuse(before, request, now, e),
    ensures
        ({
            let fault = request_fault(
                request.scope,
                optional_text(request.recipient_fingerprint),
                request.ttl_seconds,
                now,
            );
            &&& fault is Some ==> fault == Some(e)
            &&& fault is None ==> e == Error::Db(StoreError::ApiKeyHash)
        }),
{
}

} // verus!
