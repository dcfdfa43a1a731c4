//! The words of the command line: what there is to say, and what each saying
//! takes.

use vstd::prelude::*;

verus! {

/// What the program can be told to do.
#[derive(Clone, Copy, PartialEq, Eq, Debug, Structural)]
pub enum Verb {
    Generate,
    Register,
    List,
    Revoke,
    Remove,
    Split,
    Tree,
    TreePublish,
    TreeFetch,
    Reconstruct,
    Bind,
    Add,
    BridgeAllow,
    BridgeDeny,
    BridgeAdd,
    BridgeRemove,
    BridgeList,
    AccessPassword,
    AccessQuorum,
    Verify,
    VaultAdd,
    VaultGet,
    ExportCredential,
    ExportFile,
    ShareCreateCredential,
    ShareCreateFile,
    ShareRedeemCredential,
    ShareRedeemFile,
    ShareRevokeCredential,
    ShareRevokeFile,
    PinRelock,
    RelayPush,
    RelayPull,
    Loadkey,
    HostServe,
    HostIdentityGenerate,
    HostCertify,
    HostKrl,
    HostKeysCreate,
    HostKeysList,
    HostKeysRevoke,
    HostKeysRotate,
    HostRootGenerate,
    HostPolicyIssue,
}

/// Words that another word has to follow.
#[derive(Clone, Copy, PartialEq, Eq, Debug, Structural)]
pub enum Group {
    Bridge,
    Access,
    Vault,
    Export,
    Share,
    Pin,
    Relay,
    Host,
    HostIdentity,
    HostKeys,
    HostRoot,
    HostPolicy,
}

/// How far the words have been read.
#[derive(Clone, Copy, PartialEq, Eq, Debug, Structural)]
pub enum Path {
    Top,
    Group(Group),
    Verb(Verb),
}

/// How many values an option takes: none, one, one each time that it is given, or
/// at least two.
#[derive(Clone, Copy, PartialEq, Eq, Debug, Structural)]
pub enum Taking {
    Nothing,
    One,
    Each,
    Several,
}

/// What a value has to be.
#[derive(Clone, Copy, PartialEq, Eq, Debug, Structural)]
pub enum Kind {
    Text,
    Path,
    Integer,
    Positive,
    Interval,
    Byte,
    State,
    KeyKind,
    Resource,
}

/// A word, and where it leads.
#[derive(Clone, Copy, Debug)]
pub struct Word {
    pub word: &'static str,
    pub leads: Path,
}

/// An argument that is known by its place.
#[derive(Clone, Copy, Debug)]
pub struct Place {
    pub name: &'static str,
    pub kind: Kind,
}

/// An argument that is known by its name.
#[derive(Clone, Copy, Debug)]
pub struct Opt {
    pub name: &'static str,
    pub taking: Taking,
    pub kind: Kind,
}

/// What has to hold of the arguments that are given together.
#[derive(Clone, Copy, Debug)]
pub enum Rule {
    /// The argument is needed.
    Needs(&'static str),
    /// The first argument needs the second.
    Implies(&'static str, &'static str),
    /// The two arguments are not given together.
    Excludes(&'static str, &'static str),
    /// Where the first argument has the value, the other one is needed.
    NeedsWhen(&'static str, &'static str, &'static str),
    /// One of the two arguments is needed.
    OneOf(&'static str, &'static str),
    /// Where the first argument has the value, one of the two others is needed.
    OneOfWhen(&'static str, &'static str, &'static str, &'static str),
}

/// The words that may come next.
pub open spec fn words_of(path: Path) -> Seq<Word> {
    match path {
        Path::Top => seq![
            Word { word: "generate", leads: Path::Verb(Verb::Generate) },
            Word { word: "register", leads: Path::Verb(Verb::Register) },
            Word { word: "list", leads: Path::Verb(Verb::List) },
            Word { word: "revoke", leads: Path::Verb(Verb::Revoke) },
            Word { word: "remove", leads: Path::Verb(Verb::Remove) },
            Word { word: "split", leads: Path::Verb(Verb::Split) },
            Word { word: "tree", leads: Path::Verb(Verb::Tree) },
            Word { word: "reconstruct", leads: Path::Verb(Verb::Reconstruct) },
            Word { word: "bind", leads: Path::Verb(Verb::Bind) },
            Word { word: "add", leads: Path::Verb(Verb::Add) },
            Word { word: "bridge", leads: Path::Group(Group::Bridge) },
            Word { word: "access", leads: Path::Group(Group::Access) },
            Word { word: "verify", leads: Path::Verb(Verb::Verify) },
            Word { word: "vault", leads: Path::Group(Group::Vault) },
            Word { word: "export", leads: Path::Group(Group::Export) },
            Word { word: "share", leads: Path::Group(Group::Share) },
            Word { word: "pin", leads: Path::Group(Group::Pin) },
            Word { word: "relay", leads: Path::Group(Group::Relay) },
            Word { word: "loadkey", leads: Path::Verb(Verb::Loadkey) },
            Word { word: "host", leads: Path::Group(Group::Host) },
        ],
        Path::Group(Group::Bridge) => seq![
            Word { word: "allow", leads: Path::Verb(Verb::BridgeAllow) },
            Word { word: "deny", leads: Path::Verb(Verb::BridgeDeny) },
            Word { word: "add", leads: Path::Verb(Verb::BridgeAdd) },
            Word { word: "remove", leads: Path::Verb(Verb::BridgeRemove) },
            Word { word: "list", leads: Path::Verb(Verb::BridgeList) },
        ],
        Path::Group(Group::Access) => seq![
            Word { word: "password", leads: Path::Verb(Verb::AccessPassword) },
            Word { word: "quorum", leads: Path::Verb(Verb::AccessQuorum) },
        ],
        Path::Group(Group::Vault) => seq![
            Word { word: "add", leads: Path::Verb(Verb::VaultAdd) },
            Word { word: "get", leads: Path::Verb(Verb::VaultGet) },
        ],
        Path::Group(Group::Export) => seq![
            Word { word: "credential", leads: Path::Verb(Verb::ExportCredential) },
            Word { word: "file", leads: Path::Verb(Verb::ExportFile) },
        ],
        Path::Group(Group::Share) => seq![
            Word { word: "create-credential", leads: Path::Verb(Verb::ShareCreateCredential) },
            Word { word: "create-file", leads: Path::Verb(Verb::ShareCreateFile) },
            Word { word: "redeem-credential", leads: Path::Verb(Verb::ShareRedeemCredential) },
            Word { word: "redeem-file", leads: Path::Verb(Verb::ShareRedeemFile) },
            Word { word: "revoke-credential", leads: Path::Verb(Verb::ShareRevokeCredential) },
            Word { word: "revoke-file", leads: Path::Verb(Verb::ShareRevokeFile) },
        ],
        Path::Group(Group::Pin) => seq![
            Word { word: "relock", leads: Path::Verb(Verb::PinRelock) },
        ],
        Path::Group(Group::Relay) => seq![
            Word { word: "push", leads: Path::Verb(Verb::RelayPush) },
            Word { word: "pull", leads: Path::Verb(Verb::RelayPull) },
        ],
        Path::Group(Group::Host) => seq![
            Word { word: "serve", leads: Path::Verb(Verb::HostServe) },
            Word { word: "identity", leads: Path::Group(Group::HostIdentity) },
            Word { word: "certify", leads: Path::Verb(Verb::HostCertify) },
            Word { word: "krl", leads: Path::Verb(Verb::HostKrl) },
            Word { word: "keys", leads: Path::Group(Group::HostKeys) },
            Word { word: "root", leads: Path::Group(Group::HostRoot) },
            Word { word: "policy", leads: Path::Group(Group::HostPolicy) },
        ],
        Path::Group(Group::HostIdentity) => seq![
            Word { word: "generate", leads: Path::Verb(Verb::HostIdentityGenerate) },
        ],
        Path::Group(Group::HostKeys) => seq![
            Word { word: "create", leads: Path::Verb(Verb::HostKeysCreate) },
            Word { word: "list", leads: Path::Verb(Verb::HostKeysList) },
            Word { word: "revoke", leads: Path::Verb(Verb::HostKeysRevoke) },
            Word { word: "rotate", leads: Path::Verb(Verb::HostKeysRotate) },
        ],
        Path::Group(Group::HostRoot) => seq![
            Word { word: "generate", leads: Path::Verb(Verb::HostRootGenerate) },
        ],
        Path::Group(Group::HostPolicy) => seq![
            Word { word: "issue", leads: Path::Verb(Verb::HostPolicyIssue) },
        ],
        Path::Verb(Verb::Tree) => seq![
            Word { word: "publish", leads: Path::Verb(Verb::TreePublish) },
            Word { word: "fetch", leads: Path::Verb(Verb::TreeFetch) },
        ],
        _ => Seq::empty(),
    }
}

/// The words that may come next.
pub fn words_after(path: Path) -> (r: Vec<Word>)
    ensures
        r@ == words_of(path),
{
    match path {
        Path::Top => vec![
            Word { word: "generate", leads: Path::Verb(Verb::Generate) },
            Word { word: "register", leads: Path::Verb(Verb::Register) },
            Word { word: "list", leads: Path::Verb(Verb::List) },
            Word { word: "revoke", leads: Path::Verb(Verb::Revoke) },
            Word { word: "remove", leads: Path::Verb(Verb::Remove) },
            Word { word: "split", leads: Path::Verb(Verb::Split) },
            Word { word: "tree", leads: Path::Verb(Verb::Tree) },
            Word { word: "reconstruct", leads: Path::Verb(Verb::Reconstruct) },
            Word { word: "bind", leads: Path::Verb(Verb::Bind) },
            Word { word: "add", leads: Path::Verb(Verb::Add) },
            Word { word: "bridge", leads: Path::Group(Group::Bridge) },
            Word { word: "access", leads: Path::Group(Group::Access) },
            Word { word: "verify", leads: Path::Verb(Verb::Verify) },
            Word { word: "vault", leads: Path::Group(Group::Vault) },
            Word { word: "export", leads: Path::Group(Group::Export) },
            Word { word: "share", leads: Path::Group(Group::Share) },
            Word { word: "pin", leads: Path::Group(Group::Pin) },
            Word { word: "relay", leads: Path::Group(Group::Relay) },
            Word { word: "loadkey", leads: Path::Verb(Verb::Loadkey) },
            Word { word: "host", leads: Path::Group(Group::Host) },
        ],
        Path::Group(Group::Bridge) => vec![
            Word { word: "allow", leads: Path::Verb(Verb::BridgeAllow) },
            Word { word: "deny", leads: Path::Verb(Verb::BridgeDeny) },
            Word { word: "add", leads: Path::Verb(Verb::BridgeAdd) },
            Word { word: "remove", leads: Path::Verb(Verb::BridgeRemove) },
            Word { word: "list", leads: Path::Verb(Verb::BridgeList) },
        ],
        Path::Group(Group::Access) => vec![
            Word { word: "password", leads: Path::Verb(Verb::AccessPassword) },
            Word { word: "quorum", leads: Path::Verb(Verb::AccessQuorum) },
        ],
        Path::Group(Group::Vault) => vec![
            Word { word: "add", leads: Path::Verb(Verb::VaultAdd) },
            Word { word: "get", leads: Path::Verb(Verb::VaultGet) },
        ],
        Path::Group(Group::Export) => vec![
            Word { word: "credential", leads: Path::Verb(Verb::ExportCredential) },
            Word { word: "file", leads: Path::Verb(Verb::ExportFile) },
        ],
        Path::Group(Group::Share) => vec![
            Word { word: "create-credential", leads: Path::Verb(Verb::ShareCreateCredential) },
            Word { word: "create-file", leads: Path::Verb(Verb::ShareCreateFile) },
            Word { word: "redeem-credential", leads: Path::Verb(Verb::ShareRedeemCredential) },
            Word { word: "redeem-file", leads: Path::Verb(Verb::ShareRedeemFile) },
            Word { word: "revoke-credential", leads: Path::Verb(Verb::ShareRevokeCredential) },
            Word { word: "revoke-file", leads: Path::Verb(Verb::ShareRevokeFile) },
        ],
        Path::Group(Group::Pin) => vec![
            Word { word: "relock", leads: Path::Verb(Verb::PinRelock) },
        ],
        Path::Group(Group::Relay) => vec![
            Word { word: "push", leads: Path::Verb(Verb::RelayPush) },
            Word { word: "pull", leads: Path::Verb(Verb::RelayPull) },
        ],
        Path::Group(Group::Host) => vec![
            Word { word: "serve", leads: Path::Verb(Verb::HostServe) },
            Word { word: "identity", leads: Path::Group(Group::HostIdentity) },
            Word { word: "certify", leads: Path::Verb(Verb::HostCertify) },
            Word { word: "krl", leads: Path::Verb(Verb::HostKrl) },
            Word { word: "keys", leads: Path::Group(Group::HostKeys) },
            Word { word: "root", leads: Path::Group(Group::HostRoot) },
            Word { word: "policy", leads: Path::Group(Group::HostPolicy) },
        ],
        Path::Group(Group::HostIdentity) => vec![
            Word { word: "generate", leads: Path::Verb(Verb::HostIdentityGenerate) },
        ],
        Path::Group(Group::HostKeys) => vec![
            Word { word: "create", leads: Path::Verb(Verb::HostKeysCreate) },
            Word { word: "list", leads: Path::Verb(Verb::HostKeysList) },
            Word { word: "revoke", leads: Path::Verb(Verb::HostKeysRevoke) },
            Word { word: "rotate", leads: Path::Verb(Verb::HostKeysRotate) },
        ],
        Path::Group(Group::HostRoot) => vec![
            Word { word: "generate", leads: Path::Verb(Verb::HostRootGenerate) },
        ],
        Path::Group(Group::HostPolicy) => vec![
            Word { word: "issue", leads: Path::Verb(Verb::HostPolicyIssue) },
        ],
        Path::Verb(Verb::Tree) => vec![
            Word { word: "publish", leads: Path::Verb(Verb::TreePublish) },
            Word { word: "fetch", leads: Path::Verb(Verb::TreeFetch) },
        ],
        _ => Vec::new(),
    }
}

/// The arguments of a verb that are known by their place.
pub open spec fn places_of(verb: Verb) -> Seq<Place> {
    match verb {
        Verb::Revoke | Verb::Remove | Verb::VaultGet | Verb::ExportCredential | Verb::ExportFile | Verb::HostKeysRevoke | Verb::HostKeysRotate => seq![
            Place { name: "id", kind: Kind::Integer },
        ],
        Verb::Tree | Verb::TreePublish | Verb::TreeFetch | Verb::Reconstruct | Verb::Bind | Verb::Add | Verb::BridgeAllow | Verb::BridgeDeny | Verb::BridgeAdd | Verb::BridgeRemove | Verb::BridgeList => seq![
            Place { name: "key-id", kind: Kind::Integer },
        ],
        Verb::VaultAdd => seq![
            Place { name: "label", kind: Kind::Text },
        ],
        Verb::ShareCreateCredential => seq![
            Place { name: "credential-id", kind: Kind::Integer },
        ],
        Verb::ShareCreateFile => seq![
            Place { name: "file-id", kind: Kind::Integer },
        ],
        Verb::ShareRevokeCredential | Verb::ShareRevokeFile => seq![
            Place { name: "share-id", kind: Kind::Integer },
        ],
        Verb::Loadkey => seq![
            Place { name: "key", kind: Kind::Text },
        ],
        _ => Seq::empty(),
    }
}

/// The arguments of a verb that are known by their place.
pub fn places_for(verb: Verb) -> (r: Vec<Place>)
    ensures
        r@ == places_of(verb),
{
    match verb {
        Verb::Revoke | Verb::Remove | Verb::VaultGet | Verb::ExportCredential | Verb::ExportFile | Verb::HostKeysRevoke | Verb::HostKeysRotate => vec![
            Place { name: "id", kind: Kind::Integer },
        ],
        Verb::Tree | Verb::TreePublish | Verb::TreeFetch | Verb::Reconstruct | Verb::Bind | Verb::Add | Verb::BridgeAllow | Verb::BridgeDeny | Verb::BridgeAdd | Verb::BridgeRemove | Verb::BridgeList => vec![
            Place { name: "key-id", kind: Kind::Integer },
        ],
        Verb::VaultAdd => vec![
            Place { name: "label", kind: Kind::Text },
        ],
        Verb::ShareCreateCredential => vec![
            Place { name: "credential-id", kind: Kind::Integer },
        ],
        Verb::ShareCreateFile => vec![
            Place { name: "file-id", kind: Kind::Integer },
        ],
        Verb::ShareRevokeCredential | Verb::ShareRevokeFile => vec![
            Place { name: "share-id", kind: Kind::Integer },
        ],
        Verb::Loadkey => vec![
            Place { name: "key", kind: Kind::Text },
        ],
        _ => Vec::new(),
    }
}

/// The arguments of a verb that are known by their name.
pub open spec fn options_of(verb: Verb) -> Seq<Opt> {
    match verb {
        Verb::Generate => seq![
            Opt { name: "type", taking: Taking::One, kind: Kind::KeyKind },
            Opt { name: "public-key-out", taking: Taking::One, kind: Kind::Path },
            Opt { name: "label", taking: Taking::One, kind: Kind::Text },
            Opt { name: "register", taking: Taking::Nothing, kind: Kind::Text },
        ],
        Verb::Register => seq![
            Opt { name: "type", taking: Taking::One, kind: Kind::KeyKind },
            Opt { name: "label", taking: Taking::One, kind: Kind::Text },
            Opt { name: "public-key-file", taking: Taking::One, kind: Kind::Path },
        ],
        Verb::Revoke => seq![
            Opt { name: "key-id", taking: Taking::One, kind: Kind::Integer },
            Opt { name: "node", taking: Taking::One, kind: Kind::Text },
            Opt { name: "evict", taking: Taking::Nothing, kind: Kind::Text },
            Opt { name: "share-file", taking: Taking::Each, kind: Kind::Path },
            Opt { name: "deny-peer", taking: Taking::Each, kind: Kind::Text },
            Opt { name: "remove-peer", taking: Taking::Each, kind: Kind::Text },
        ],
        Verb::Split => seq![
            Opt { name: "label", taking: Taking::One, kind: Kind::Text },
            Opt { name: "tree-spec", taking: Taking::One, kind: Kind::Path },
            Opt { name: "leaf", taking: Taking::Each, kind: Kind::Text },
            Opt { name: "threshold", taking: Taking::One, kind: Kind::Byte },
            Opt { name: "source", taking: Taking::One, kind: Kind::Path },
            Opt { name: "bind", taking: Taking::Each, kind: Kind::Text },
            Opt { name: "generate-keys", taking: Taking::Nothing, kind: Kind::Text },
            Opt { name: "register", taking: Taking::Nothing, kind: Kind::Text },
        ],
        Verb::Tree => seq![
            Opt { name: "node", taking: Taking::Several, kind: Kind::Text },
            Opt { name: "output", taking: Taking::One, kind: Kind::Path },
        ],
        Verb::TreePublish | Verb::Loadkey => seq![
            Opt { name: "url", taking: Taking::One, kind: Kind::Text },
        ],
        Verb::TreeFetch => seq![
            Opt { name: "label", taking: Taking::One, kind: Kind::Text },
            Opt { name: "url", taking: Taking::One, kind: Kind::Text },
        ],
        Verb::Reconstruct => seq![
            Opt { name: "node", taking: Taking::Several, kind: Kind::Text },
            Opt { name: "share-file", taking: Taking::Each, kind: Kind::Path },
            Opt { name: "output", taking: Taking::One, kind: Kind::Path },
        ],
        Verb::Bind => seq![
            Opt { name: "node", taking: Taking::One, kind: Kind::Text },
            Opt { name: "peer", taking: Taking::One, kind: Kind::Text },
            Opt { name: "public-key-file", taking: Taking::One, kind: Kind::Path },
            Opt { name: "share-file", taking: Taking::Each, kind: Kind::Path },
            Opt { name: "register", taking: Taking::Nothing, kind: Kind::Text },
        ],
        Verb::Add => seq![
            Opt { name: "parent", taking: Taking::One, kind: Kind::Text },
            Opt { name: "node", taking: Taking::One, kind: Kind::Text },
            Opt { name: "public-key-file", taking: Taking::One, kind: Kind::Path },
            Opt { name: "share-file", taking: Taking::Each, kind: Kind::Path },
            Opt { name: "generate-keys", taking: Taking::Nothing, kind: Kind::Text },
            Opt { name: "register", taking: Taking::Nothing, kind: Kind::Text },
        ],
        Verb::BridgeAllow | Verb::BridgeDeny => seq![
            Opt { name: "node", taking: Taking::One, kind: Kind::Text },
            Opt { name: "peer", taking: Taking::One, kind: Kind::Text },
        ],
        Verb::BridgeAdd | Verb::BridgeRemove => seq![
            Opt { name: "from", taking: Taking::One, kind: Kind::Text },
            Opt { name: "to", taking: Taking::One, kind: Kind::Text },
        ],
        Verb::AccessPassword => seq![
            Opt { name: "state", taking: Taking::One, kind: Kind::State },
            Opt { name: "source", taking: Taking::One, kind: Kind::Path },
            Opt { name: "encrypted-path", taking: Taking::One, kind: Kind::Path },
            Opt { name: "id", taking: Taking::One, kind: Kind::Integer },
            Opt { name: "output", taking: Taking::One, kind: Kind::Path },
            Opt { name: "pin", taking: Taking::Nothing, kind: Kind::Text },
        ],
        Verb::AccessQuorum => seq![
            Opt { name: "state", taking: Taking::One, kind: Kind::State },
            Opt { name: "status", taking: Taking::Nothing, kind: Kind::Text },
            Opt { name: "source", taking: Taking::One, kind: Kind::Path },
            Opt { name: "encrypted-path", taking: Taking::One, kind: Kind::Path },
            Opt { name: "tree-spec", taking: Taking::One, kind: Kind::Path },
            Opt { name: "leaf", taking: Taking::Each, kind: Kind::Text },
            Opt { name: "threshold", taking: Taking::One, kind: Kind::Byte },
            Opt { name: "generate-keys", taking: Taking::Nothing, kind: Kind::Text },
            Opt { name: "register", taking: Taking::Nothing, kind: Kind::Text },
            Opt { name: "name", taking: Taking::One, kind: Kind::Text },
            Opt { name: "id", taking: Taking::One, kind: Kind::Integer },
            Opt { name: "share-file", taking: Taking::Each, kind: Kind::Path },
            Opt { name: "output", taking: Taking::One, kind: Kind::Path },
        ],
        Verb::Verify => seq![
            Opt { name: "public-key-file", taking: Taking::One, kind: Kind::Path },
            Opt { name: "message-file", taking: Taking::One, kind: Kind::Path },
            Opt { name: "signature-file", taking: Taking::One, kind: Kind::Path },
        ],
        Verb::VaultAdd => seq![
            Opt { name: "username", taking: Taking::One, kind: Kind::Text },
            Opt { name: "pin", taking: Taking::Nothing, kind: Kind::Text },
        ],
        Verb::ExportCredential | Verb::ExportFile => seq![
            Opt { name: "recipient-key-file", taking: Taking::One, kind: Kind::Path },
            Opt { name: "output", taking: Taking::One, kind: Kind::Path },
        ],
        Verb::ShareCreateCredential | Verb::ShareCreateFile => seq![
            Opt { name: "ttl-seconds", taking: Taking::One, kind: Kind::Positive },
            Opt { name: "max-uses", taking: Taking::One, kind: Kind::Positive },
            Opt { name: "pin", taking: Taking::Nothing, kind: Kind::Text },
            Opt { name: "pin-required-every-use", taking: Taking::Nothing, kind: Kind::Text },
        ],
        Verb::PinRelock => seq![
            Opt { name: "resource", taking: Taking::One, kind: Kind::Resource },
            Opt { name: "id", taking: Taking::One, kind: Kind::Integer },
        ],
        Verb::RelayPush => seq![
            Opt { name: "dir", taking: Taking::One, kind: Kind::Path },
            Opt { name: "url", taking: Taking::One, kind: Kind::Text },
        ],
        Verb::RelayPull => seq![
            Opt { name: "output", taking: Taking::One, kind: Kind::Path },
            Opt { name: "import", taking: Taking::Nothing, kind: Kind::Text },
            Opt { name: "share-file", taking: Taking::Each, kind: Kind::Path },
            Opt { name: "url", taking: Taking::One, kind: Kind::Text },
        ],
        Verb::HostServe => seq![
            Opt { name: "bind", taking: Taking::One, kind: Kind::Text },
            Opt { name: "cert", taking: Taking::One, kind: Kind::Path },
            Opt { name: "relay-key", taking: Taking::One, kind: Kind::Path },
            Opt { name: "krl", taking: Taking::One, kind: Kind::Path },
            Opt { name: "scan-db", taking: Taking::One, kind: Kind::Path },
            Opt { name: "scan-interval-seconds", taking: Taking::One, kind: Kind::Interval },
        ],
        Verb::HostIdentityGenerate => seq![
            Opt { name: "public-key-out", taking: Taking::One, kind: Kind::Path },
        ],
        Verb::HostCertify => seq![
            Opt { name: "root-key", taking: Taking::One, kind: Kind::Path },
            Opt { name: "relay-public-key", taking: Taking::One, kind: Kind::Path },
            Opt { name: "provider-id", taking: Taking::One, kind: Kind::Text },
            Opt { name: "serial", taking: Taking::One, kind: Kind::Text },
            Opt { name: "issued-at", taking: Taking::One, kind: Kind::Text },
            Opt { name: "expires-at", taking: Taking::One, kind: Kind::Text },
            Opt { name: "capabilities", taking: Taking::One, kind: Kind::Text },
            Opt { name: "issuer-id", taking: Taking::One, kind: Kind::Text },
            Opt { name: "out", taking: Taking::One, kind: Kind::Path },
        ],
        Verb::HostKrl => seq![
            Opt { name: "root-key", taking: Taking::One, kind: Kind::Path },
            Opt { name: "issued-at", taking: Taking::One, kind: Kind::Text },
            Opt { name: "serial", taking: Taking::Each, kind: Kind::Text },
            Opt { name: "out", taking: Taking::One, kind: Kind::Path },
        ],
        Verb::HostKeysCreate => seq![
            Opt { name: "scope", taking: Taking::One, kind: Kind::Text },
            Opt { name: "fingerprint", taking: Taking::One, kind: Kind::Text },
            Opt { name: "label", taking: Taking::One, kind: Kind::Text },
            Opt { name: "ttl-seconds", taking: Taking::One, kind: Kind::Integer },
        ],
        Verb::HostRootGenerate => seq![
            Opt { name: "public-key-out", taking: Taking::One, kind: Kind::Path },
            Opt { name: "network", taking: Taking::Each, kind: Kind::Text },
            Opt { name: "ssid", taking: Taking::Each, kind: Kind::Text },
        ],
        Verb::HostPolicyIssue => seq![
            Opt { name: "root-key", taking: Taking::One, kind: Kind::Path },
            Opt { name: "relay-public-key", taking: Taking::One, kind: Kind::Path },
            Opt { name: "provider-id", taking: Taking::One, kind: Kind::Text },
            Opt { name: "policy-id", taking: Taking::One, kind: Kind::Text },
            Opt { name: "issued-at", taking: Taking::One, kind: Kind::Text },
            Opt { name: "expires-at", taking: Taking::One, kind: Kind::Text },
            Opt { name: "capabilities", taking: Taking::One, kind: Kind::Text },
            Opt { name: "hardware-fingerprint", taking: Taking::Each, kind: Kind::Text },
            Opt { name: "revoked-hardware", taking: Taking::Each, kind: Kind::Text },
            Opt { name: "corporate-network", taking: Taking::Each, kind: Kind::Text },
            Opt { name: "network-mode", taking: Taking::One, kind: Kind::Text },
            Opt { name: "ssid", taking: Taking::One, kind: Kind::Text },
            Opt { name: "bssid", taking: Taking::One, kind: Kind::Text },
            Opt { name: "hardware-threshold", taking: Taking::One, kind: Kind::Byte },
            Opt { name: "permission", taking: Taking::Each, kind: Kind::Text },
            Opt { name: "out", taking: Taking::One, kind: Kind::Path },
        ],
        _ => Seq::empty(),
    }
}

/// The arguments of a verb that are known by their name.
pub fn options_for(verb: Verb) -> (r: Vec<Opt>)
    ensures
        r@ == options_of(verb),
{
    match verb {
        Verb::Generate => vec![
            Opt { name: "type", taking: Taking::One, kind: Kind::KeyKind },
            Opt { name: "public-key-out", taking: Taking::One, kind: Kind::Path },
            Opt { name: "label", taking: Taking::One, kind: Kind::Text },
            Opt { name: "register", taking: Taking::Nothing, kind: Kind::Text },
        ],
        Verb::Register => vec![
            Opt { name: "type", taking: Taking::One, kind: Kind::KeyKind },
            Opt { name: "label", taking: Taking::One, kind: Kind::Text },
            Opt { name: "public-key-file", taking: Taking::One, kind: Kind::Path },
        ],
        Verb::Revoke => vec![
            Opt { name: "key-id", taking: Taking::One, kind: Kind::Integer },
            Opt { name: "node", taking: Taking::One, kind: Kind::Text },
            Opt { name: "evict", taking: Taking::Nothing, kind: Kind::Text },
            Opt { name: "share-file", taking: Taking::Each, kind: Kind::Path },
            Opt { name: "deny-peer", taking: Taking::Each, kind: Kind::Text },
            Opt { name: "remove-peer", taking: Taking::Each, kind: Kind::Text },
        ],
        Verb::Split => vec![
            Opt { name: "label", taking: Taking::One, kind: Kind::Text },
            Opt { name: "tree-spec", taking: Taking::One, kind: Kind::Path },
            Opt { name: "leaf", taking: Taking::Each, kind: Kind::Text },
            Opt { name: "threshold", taking: Taking::One, kind: Kind::Byte },
            Opt { name: "source", taking: Taking::One, kind: Kind::Path },
            Opt { name: "bind", taking: Taking::Each, kind: Kind::Text },
            Opt { name: "generate-keys", taking: Taking::Nothing, kind: Kind::Text },
            Opt { name: "register", taking: Taking::Nothing, kind: Kind::Text },
        ],
        Verb::Tree => vec![
            Opt { name: "node", taking: Taking::Several, kind: Kind::Text },
            Opt { name: "output", taking: Taking::One, kind: Kind::Path },
        ],
        Verb::TreePublish | Verb::Loadkey => vec![
            Opt { name: "url", taking: Taking::One, kind: Kind::Text },
        ],
        Verb::TreeFetch => vec![
            Opt { name: "label", taking: Taking::One, kind: Kind::Text },
            Opt { name: "url", taking: Taking::One, kind: Kind::Text },
        ],
        Verb::Reconstruct => vec![
            Opt { name: "node", taking: Taking::Several, kind: Kind::Text },
            Opt { name: "share-file", taking: Taking::Each, kind: Kind::Path },
            Opt { name: "output", taking: Taking::One, kind: Kind::Path },
        ],
        Verb::Bind => vec![
            Opt { name: "node", taking: Taking::One, kind: Kind::Text },
            Opt { name: "peer", taking: Taking::One, kind: Kind::Text },
            Opt { name: "public-key-file", taking: Taking::One, kind: Kind::Path },
            Opt { name: "share-file", taking: Taking::Each, kind: Kind::Path },
            Opt { name: "register", taking: Taking::Nothing, kind: Kind::Text },
        ],
        Verb::Add => vec![
            Opt { name: "parent", taking: Taking::One, kind: Kind::Text },
            Opt { name: "node", taking: Taking::One, kind: Kind::Text },
            Opt { name: "public-key-file", taking: Taking::One, kind: Kind::Path },
            Opt { name: "share-file", taking: Taking::Each, kind: Kind::Path },
            Opt { name: "generate-keys", taking: Taking::Nothing, kind: Kind::Text },
            Opt { name: "register", taking: Taking::Nothing, kind: Kind::Text },
        ],
        Verb::BridgeAllow | Verb::BridgeDeny => vec![
            Opt { name: "node", taking: Taking::One, kind: Kind::Text },
            Opt { name: "peer", taking: Taking::One, kind: Kind::Text },
        ],
        Verb::BridgeAdd | Verb::BridgeRemove => vec![
            Opt { name: "from", taking: Taking::One, kind: Kind::Text },
            Opt { name: "to", taking: Taking::One, kind: Kind::Text },
        ],
        Verb::AccessPassword => vec![
            Opt { name: "state", taking: Taking::One, kind: Kind::State },
            Opt { name: "source", taking: Taking::One, kind: Kind::Path },
            Opt { name: "encrypted-path", taking: Taking::One, kind: Kind::Path },
            Opt { name: "id", taking: Taking::One, kind: Kind::Integer },
            Opt { name: "output", taking: Taking::One, kind: Kind::Path },
            Opt { name: "pin", taking: Taking::Nothing, kind: Kind::Text },
        ],
        Verb::AccessQuorum => vec![
            Opt { name: "state", taking: Taking::One, kind: Kind::State },
            Opt { name: "status", taking: Taking::Nothing, kind: Kind::Text },
            Opt { name: "source", taking: Taking::One, kind: Kind::Path },
            Opt { name: "encrypted-path", taking: Taking::One, kind: Kind::Path },
            Opt { name: "tree-spec", taking: Taking::One, kind: Kind::Path },
            Opt { name: "leaf", taking: Taking::Each, kind: Kind::Text },
            Opt { name: "threshold", taking: Taking::One, kind: Kind::Byte },
            Opt { name: "generate-keys", taking: Taking::Nothing, kind: Kind::Text },
            Opt { name: "register", taking: Taking::Nothing, kind: Kind::Text },
            Opt { name: "name", taking: Taking::One, kind: Kind::Text },
            Opt { name: "id", taking: Taking::One, kind: Kind::Integer },
            Opt { name: "share-file", taking: Taking::Each, kind: Kind::Path },
            Opt { name: "output", taking: Taking::One, kind: Kind::Path },
        ],
        Verb::Verify => vec![
            Opt { name: "public-key-file", taking: Taking::One, kind: Kind::Path },
            Opt { name: "message-file", taking: Taking::One, kind: Kind::Path },
            Opt { name: "signature-file", taking: Taking::One, kind: Kind::Path },
        ],
        Verb::VaultAdd => vec![
            Opt { name: "username", taking: Taking::One, kind: Kind::Text },
            Opt { name: "pin", taking: Taking::Nothing, kind: Kind::Text },
        ],
        Verb::ExportCredential | Verb::ExportFile => vec![
            Opt { name: "recipient-key-file", taking: Taking::One, kind: Kind::Path },
            Opt { name: "output", taking: Taking::One, kind: Kind::Path },
        ],
        Verb::ShareCreateCredential | Verb::ShareCreateFile => vec![
            Opt { name: "ttl-seconds", taking: Taking::One, kind: Kind::Positive },
            Opt { name: "max-uses", taking: Taking::One, kind: Kind::Positive },
            Opt { name: "pin", taking: Taking::Nothing, kind: Kind::Text },
            Opt { name: "pin-required-every-use", taking: Taking::Nothing, kind: Kind::Text },
        ],
        Verb::PinRelock => vec![
            Opt { name: "resource", taking: Taking::One, kind: Kind::Resource },
            Opt { name: "id", taking: Taking::One, kind: Kind::Integer },
        ],
        Verb::RelayPush => vec![
            Opt { name: "dir", taking: Taking::One, kind: Kind::Path },
            Opt { name: "url", taking: Taking::One, kind: Kind::Text },
        ],
        Verb::RelayPull => vec![
            Opt { name: "output", taking: Taking::One, kind: Kind::Path },
            Opt { name: "import", taking: Taking::Nothing, kind: Kind::Text },
            Opt { name: "share-file", taking: Taking::Each, kind: Kind::Path },
            Opt { name: "url", taking: Taking::One, kind: Kind::Text },
        ],
        Verb::HostServe => vec![
            Opt { name: "bind", taking: Taking::One, kind: Kind::Text },
            Opt { name: "cert", taking: Taking::One, kind: Kind::Path },
            Opt { name: "relay-key", taking: Taking::One, kind: Kind::Path },
            Opt { name: "krl", taking: Taking::One, kind: Kind::Path },
            Opt { name: "scan-db", taking: Taking::One, kind: Kind::Path },
            Opt { name: "scan-interval-seconds", taking: Taking::One, kind: Kind::Interval },
        ],
        Verb::HostIdentityGenerate => vec![
            Opt { name: "public-key-out", taking: Taking::One, kind: Kind::Path },
        ],
        Verb::HostCertify => vec![
            Opt { name: "root-key", taking: Taking::One, kind: Kind::Path },
            Opt { name: "relay-public-key", taking: Taking::One, kind: Kind::Path },
            Opt { name: "provider-id", taking: Taking::One, kind: Kind::Text },
            Opt { name: "serial", taking: Taking::One, kind: Kind::Text },
            Opt { name: "issued-at", taking: Taking::One, kind: Kind::Text },
            Opt { name: "expires-at", taking: Taking::One, kind: Kind::Text },
            Opt { name: "capabilities", taking: Taking::One, kind: Kind::Text },
            Opt { name: "issuer-id", taking: Taking::One, kind: Kind::Text },
            Opt { name: "out", taking: Taking::One, kind: Kind::Path },
        ],
        Verb::HostKrl => vec![
            Opt { name: "root-key", taking: Taking::One, kind: Kind::Path },
            Opt { name: "issued-at", taking: Taking::One, kind: Kind::Text },
            Opt { name: "serial", taking: Taking::Each, kind: Kind::Text },
            Opt { name: "out", taking: Taking::One, kind: Kind::Path },
        ],
        Verb::HostKeysCreate => vec![
            Opt { name: "scope", taking: Taking::One, kind: Kind::Text },
            Opt { name: "fingerprint", taking: Taking::One, kind: Kind::Text },
            Opt { name: "label", taking: Taking::One, kind: Kind::Text },
            Opt { name: "ttl-seconds", taking: Taking::One, kind: Kind::Integer },
        ],
        Verb::HostRootGenerate => vec![
            Opt { name: "public-key-out", taking: Taking::One, kind: Kind::Path },
            Opt { name: "network", taking: Taking::Each, kind: Kind::Text },
            Opt { name: "ssid", taking: Taking::Each, kind: Kind::Text },
        ],
        Verb::HostPolicyIssue => vec![
            Opt { name: "root-key", taking: Taking::One, kind: Kind::Path },
            Opt { name: "relay-public-key", taking: Taking::One, kind: Kind::Path },
            Opt { name: "provider-id", taking: Taking::One, kind: Kind::Text },
            Opt { name: "policy-id", taking: Taking::One, kind: Kind::Text },
            Opt { name: "issued-at", taking: Taking::One, kind: Kind::Text },
            Opt { name: "expires-at", taking: Taking::One, kind: Kind::Text },
            Opt { name: "capabilities", taking: Taking::One, kind: Kind::Text },
            Opt { name: "hardware-fingerprint", taking: Taking::Each, kind: Kind::Text },
            Opt { name: "revoked-hardware", taking: Taking::Each, kind: Kind::Text },
            Opt { name: "corporate-network", taking: Taking::Each, kind: Kind::Text },
            Opt { name: "network-mode", taking: Taking::One, kind: Kind::Text },
            Opt { name: "ssid", taking: Taking::One, kind: Kind::Text },
            Opt { name: "bssid", taking: Taking::One, kind: Kind::Text },
            Opt { name: "hardware-threshold", taking: Taking::One, kind: Kind::Byte },
            Opt { name: "permission", taking: Taking::Each, kind: Kind::Text },
            Opt { name: "out", taking: Taking::One, kind: Kind::Path },
        ],
        _ => Vec::new(),
    }
}

/// What has to hold of the arguments of a verb.
pub open spec fn rules_of(verb: Verb) -> Seq<Rule> {
    match verb {
        Verb::Generate => seq![
            Rule::Needs("type"),
            Rule::Needs("public-key-out"),
            Rule::Implies("register", "label"),
        ],
        Verb::Register => seq![
            Rule::Needs("type"),
            Rule::Needs("label"),
            Rule::Needs("public-key-file"),
        ],
        Verb::Revoke => seq![
            Rule::Needs("id"),
            Rule::Implies("key-id", "node"),
            Rule::Implies("node", "key-id"),
            Rule::Implies("share-file", "evict"),
            Rule::Implies("deny-peer", "node"),
            Rule::Implies("remove-peer", "node"),
        ],
        Verb::Remove | Verb::VaultGet | Verb::HostKeysRevoke | Verb::HostKeysRotate => seq![
            Rule::Needs("id"),
        ],
        Verb::Split => seq![
            Rule::Needs("label"),
            Rule::Excludes("tree-spec", "leaf"),
            Rule::OneOf("tree-spec", "leaf"),
        ],
        Verb::Tree => seq![
            Rule::Excludes("node", "output"),
            Rule::Implies("node", "key-id"),
            Rule::Implies("output", "key-id"),
        ],
        Verb::TreePublish | Verb::Reconstruct | Verb::BridgeList => seq![
            Rule::Needs("key-id"),
        ],
        Verb::TreeFetch => seq![
            Rule::OneOf("key-id", "label"),
        ],
        Verb::Bind => seq![
            Rule::Needs("key-id"),
            Rule::Needs("node"),
            Rule::Excludes("peer", "public-key-file"),
            Rule::OneOf("peer", "public-key-file"),
        ],
        Verb::Add => seq![
            Rule::Needs("key-id"),
            Rule::Needs("parent"),
            Rule::Needs("node"),
            Rule::Needs("public-key-file"),
        ],
        Verb::BridgeAllow | Verb::BridgeDeny => seq![
            Rule::Needs("key-id"),
            Rule::Needs("node"),
            Rule::Needs("peer"),
        ],
        Verb::BridgeAdd | Verb::BridgeRemove => seq![
            Rule::Needs("key-id"),
            Rule::Needs("from"),
            Rule::Needs("to"),
        ],
        Verb::AccessPassword => seq![
            Rule::Needs("state"),
            Rule::NeedsWhen("state", "0", "source"),
            Rule::NeedsWhen("state", "0", "encrypted-path"),
            Rule::NeedsWhen("state", "1", "id"),
            Rule::Excludes("source", "id"),
            Rule::Excludes("source", "output"),
            Rule::Excludes("encrypted-path", "id"),
            Rule::Excludes("encrypted-path", "output"),
            Rule::Excludes("pin", "id"),
            Rule::Excludes("pin", "output"),
        ],
        Verb::AccessQuorum => seq![
            Rule::Excludes("state", "status"),
            Rule::Excludes("status", "source"),
            Rule::Excludes("status", "encrypted-path"),
            Rule::Excludes("status", "tree-spec"),
            Rule::Excludes("status", "leaf"),
            Rule::Excludes("status", "name"),
            Rule::Excludes("status", "share-file"),
            Rule::Excludes("status", "output"),
            Rule::NeedsWhen("state", "0", "source"),
            Rule::NeedsWhen("state", "0", "encrypted-path"),
            Rule::OneOfWhen("state", "0", "tree-spec", "leaf"),
            Rule::NeedsWhen("state", "1", "id"),
            Rule::Excludes("tree-spec", "leaf"),
            Rule::Excludes("source", "id"),
            Rule::Excludes("source", "share-file"),
            Rule::Excludes("source", "output"),
            Rule::Excludes("encrypted-path", "id"),
            Rule::Excludes("encrypted-path", "share-file"),
            Rule::Excludes("encrypted-path", "output"),
            Rule::Excludes("tree-spec", "id"),
            Rule::Excludes("tree-spec", "share-file"),
            Rule::Excludes("tree-spec", "output"),
            Rule::Excludes("leaf", "id"),
            Rule::Excludes("leaf", "share-file"),
            Rule::Excludes("leaf", "output"),
            Rule::Excludes("name", "id"),
            Rule::Excludes("name", "share-file"),
            Rule::Excludes("name", "output"),
        ],
        Verb::Verify => seq![
            Rule::Needs("public-key-file"),
            Rule::Needs("message-file"),
            Rule::Needs("signature-file"),
        ],
        Verb::VaultAdd => seq![
            Rule::Needs("label"),
        ],
        Verb::ExportCredential | Verb::ExportFile => seq![
            Rule::Needs("id"),
            Rule::Needs("recipient-key-file"),
            Rule::Needs("output"),
        ],
        Verb::ShareCreateCredential => seq![
            Rule::Needs("credential-id"),
            Rule::Implies("pin-required-every-use", "pin"),
        ],
        Verb::ShareCreateFile => seq![
            Rule::Needs("file-id"),
            Rule::Implies("pin-required-every-use", "pin"),
        ],
        Verb::ShareRevokeCredential | Verb::ShareRevokeFile => seq![
            Rule::Needs("share-id"),
        ],
        Verb::PinRelock => seq![
            Rule::Needs("resource"),
            Rule::Needs("id"),
        ],
        Verb::RelayPush => seq![
            Rule::Needs("dir"),
        ],
        Verb::RelayPull => seq![
            Rule::OneOf("output", "import"),
            Rule::Implies("import", "share-file"),
        ],
        Verb::HostIdentityGenerate | Verb::HostRootGenerate => seq![
            Rule::Needs("public-key-out"),
        ],
        Verb::HostCertify => seq![
            Rule::Needs("relay-public-key"),
            Rule::Needs("provider-id"),
            Rule::Needs("serial"),
            Rule::Needs("expires-at"),
            Rule::Needs("out"),
        ],
        Verb::HostKrl => seq![
            Rule::Needs("serial"),
            Rule::Needs("out"),
        ],
        Verb::HostKeysCreate => seq![
            Rule::Needs("scope"),
        ],
        Verb::HostPolicyIssue => seq![
            Rule::Needs("relay-public-key"),
            Rule::Needs("provider-id"),
            Rule::Needs("policy-id"),
            Rule::Needs("expires-at"),
            Rule::Needs("hardware-fingerprint"),
            Rule::Needs("corporate-network"),
            Rule::Needs("out"),
        ],
        _ => Seq::empty(),
    }
}

/// What has to hold of the arguments of a verb.
pub fn rules_for(verb: Verb) -> (r: Vec<Rule>)
    ensures
        r@ == rules_of(verb),
{
    match verb {
        Verb::Generate => vec![
            Rule::Needs("type"),
            Rule::Needs("public-key-out"),
            Rule::Implies("register", "label"),
        ],
        Verb::Register => vec![
            Rule::Needs("type"),
            Rule::Needs("label"),
            Rule::Needs("public-key-file"),
        ],
        Verb::Revoke => vec![
            Rule::Needs("id"),
            Rule::Implies("key-id", "node"),
            Rule::Implies("node", "key-id"),
            Rule::Implies("share-file", "evict"),
            Rule::Implies("deny-peer", "node"),
            Rule::Implies("remove-peer", "node"),
        ],
        Verb::Remove | Verb::VaultGet | Verb::HostKeysRevoke | Verb::HostKeysRotate => vec![
            Rule::Needs("id"),
        ],
        Verb::Split => vec![
            Rule::Needs("label"),
            Rule::Excludes("tree-spec", "leaf"),
            Rule::OneOf("tree-spec", "leaf"),
        ],
        Verb::Tree => vec![
            Rule::Excludes("node", "output"),
            Rule::Implies("node", "key-id"),
            Rule::Implies("output", "key-id"),
        ],
        Verb::TreePublish | Verb::Reconstruct | Verb::BridgeList => vec![
            Rule::Needs("key-id"),
        ],
        Verb::TreeFetch => vec![
            Rule::OneOf("key-id", "label"),
        ],
        Verb::Bind => vec![
            Rule::Needs("key-id"),
            Rule::Needs("node"),
            Rule::Excludes("peer", "public-key-file"),
            Rule::OneOf("peer", "public-key-file"),
        ],
        Verb::Add => vec![
            Rule::Needs("key-id"),
            Rule::Needs("parent"),
            Rule::Needs("node"),
            Rule::Needs("public-key-file"),
        ],
        Verb::BridgeAllow | Verb::BridgeDeny => vec![
            Rule::Needs("key-id"),
            Rule::Needs("node"),
            Rule::Needs("peer"),
        ],
        Verb::BridgeAdd | Verb::BridgeRemove => vec![
            Rule::Needs("key-id"),
            Rule::Needs("from"),
            Rule::Needs("to"),
        ],
        Verb::AccessPassword => vec![
            Rule::Needs("state"),
            Rule::NeedsWhen("state", "0", "source"),
            Rule::NeedsWhen("state", "0", "encrypted-path"),
            Rule::NeedsWhen("state", "1", "id"),
            Rule::Excludes("source", "id"),
            Rule::Excludes("source", "output"),
            Rule::Excludes("encrypted-path", "id"),
            Rule::Excludes("encrypted-path", "output"),
            Rule::Excludes("pin", "id"),
            Rule::Excludes("pin", "output"),
        ],
        Verb::AccessQuorum => vec![
            Rule::Excludes("state", "status"),
            Rule::Excludes("status", "source"),
            Rule::Excludes("status", "encrypted-path"),
            Rule::Excludes("status", "tree-spec"),
            Rule::Excludes("status", "leaf"),
            Rule::Excludes("status", "name"),
            Rule::Excludes("status", "share-file"),
            Rule::Excludes("status", "output"),
            Rule::NeedsWhen("state", "0", "source"),
            Rule::NeedsWhen("state", "0", "encrypted-path"),
            Rule::OneOfWhen("state", "0", "tree-spec", "leaf"),
            Rule::NeedsWhen("state", "1", "id"),
            Rule::Excludes("tree-spec", "leaf"),
            Rule::Excludes("source", "id"),
            Rule::Excludes("source", "share-file"),
            Rule::Excludes("source", "output"),
            Rule::Excludes("encrypted-path", "id"),
            Rule::Excludes("encrypted-path", "share-file"),
            Rule::Excludes("encrypted-path", "output"),
            Rule::Excludes("tree-spec", "id"),
            Rule::Excludes("tree-spec", "share-file"),
            Rule::Excludes("tree-spec", "output"),
            Rule::Excludes("leaf", "id"),
            Rule::Excludes("leaf", "share-file"),
            Rule::Excludes("leaf", "output"),
            Rule::Excludes("name", "id"),
            Rule::Excludes("name", "share-file"),
            Rule::Excludes("name", "output"),
        ],
        Verb::Verify => vec![
            Rule::Needs("public-key-file"),
            Rule::Needs("message-file"),
            Rule::Needs("signature-file"),
        ],
        Verb::VaultAdd => vec![
            Rule::Needs("label"),
        ],
        Verb::ExportCredential | Verb::ExportFile => vec![
            Rule::Needs("id"),
            Rule::Needs("recipient-key-file"),
            Rule::Needs("output"),
        ],
        Verb::ShareCreateCredential => vec![
            Rule::Needs("credential-id"),
            Rule::Implies("pin-required-every-use", "pin"),
        ],
        Verb::ShareCreateFile => vec![
            Rule::Needs("file-id"),
            Rule::Implies("pin-required-every-use", "pin"),
        ],
        Verb::ShareRevokeCredential | Verb::ShareRevokeFile => vec![
            Rule::Needs("share-id"),
        ],
        Verb::PinRelock => vec![
            Rule::Needs("resource"),
            Rule::Needs("id"),
        ],
        Verb::RelayPush => vec![
            Rule::Needs("dir"),
        ],
        Verb::RelayPull => vec![
            Rule::OneOf("output", "import"),
            Rule::Implies("import", "share-file"),
        ],
        Verb::HostIdentityGenerate | Verb::HostRootGenerate => vec![
            Rule::Needs("public-key-out"),
        ],
        Verb::HostCertify => vec![
            Rule::Needs("relay-public-key"),
            Rule::Needs("provider-id"),
            Rule::Needs("serial"),
            Rule::Needs("expires-at"),
            Rule::Needs("out"),
        ],
        Verb::HostKrl => vec![
            Rule::Needs("serial"),
            Rule::Needs("out"),
        ],
        Verb::HostKeysCreate => vec![
            Rule::Needs("scope"),
        ],
        Verb::HostPolicyIssue => vec![
            Rule::Needs("relay-public-key"),
            Rule::Needs("provider-id"),
            Rule::Needs("policy-id"),
            Rule::Needs("expires-at"),
            Rule::Needs("hardware-fingerprint"),
            Rule::Needs("corporate-network"),
            Rule::Needs("out"),
        ],
        _ => Vec::new(),
    }
}

} // verus!
