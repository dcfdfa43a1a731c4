//! What the command lines have in common that are accepted.

use vstd::prelude::*;

use crate::cli::grammar::{accepted_lines_keep_the_rules, parsed, rule_fault};
use crate::cli::verbs::{rules_of, Verb};

verus! {

/// A key is generated only on these terms.
pub proof fn generating_a_key(args: Seq<Seq<char>>)
    ensures
        parsed(args) matches Ok(cli) ==> cli.verb == Verb::Generate ==> {
            &&& cli.has("type"@)
            &&& cli.has("public-key-out"@)
            &&& cli.has("register"@) ==> cli.has("label"@)
        },
{
    accepted_lines_keep_the_rules(args);
    if let Ok(cli) = parsed(args) {
        if cli.verb == Verb::Generate {
            let rules = rules_of(cli.verb);
            assert(rule_fault(cli, rules[0]) is None);
            assert(rule_fault(cli, rules[1]) is None);
            assert(rule_fault(cli, rules[2]) is None);
        }
    }
}

/// A key is registered only on these terms.
pub proof fn registering_a_key(args: Seq<Seq<char>>)
    ensures
        parsed(args) matches Ok(cli) ==> cli.verb == Verb::Register ==> {
            &&& cli.has("type"@)
            &&& cli.has("label"@)
            &&& cli.has("public-key-file"@)
        },
{
    accepted_lines_keep_the_rules(args);
    if let Ok(cli) = parsed(args) {
        if cli.verb == Verb::Register {
            let rules = rules_of(cli.verb);
            assert(rule_fault(cli, rules[0]) is None);
            assert(rule_fault(cli, rules[1]) is None);
            assert(rule_fault(cli, rules[2]) is None);
        }
    }
}

/// A key is revoked only on these terms.
pub proof fn revoking_a_key(args: Seq<Seq<char>>)
    ensures
        parsed(args) matches Ok(cli) ==> cli.verb == Verb::Revoke ==> {
            &&& cli.has("id"@)
            &&& cli.has("key-id"@) ==> cli.has("node"@)
            &&& cli.has("node"@) ==> cli.has("key-id"@)
            &&& cli.has("share-file"@) ==> cli.has("evict"@)
            &&& cli.has("deny-peer"@) ==> cli.has("node"@)
            &&& cli.has("remove-peer"@) ==> cli.has("node"@)
        },
{
    accepted_lines_keep_the_rules(args);
    if let Ok(cli) = parsed(args) {
        if cli.verb == Verb::Revoke {
            let rules = rules_of(cli.verb);
            assert(rule_fault(cli, rules[0]) is None);
            assert(rule_fault(cli, rules[1]) is None);
            assert(rule_fault(cli, rules[2]) is None);
            assert(rule_fault(cli, rules[3]) is None);
            assert(rule_fault(cli, rules[4]) is None);
            assert(rule_fault(cli, rules[5]) is None);
        }
    }
}

/// What is removed, given, revoked or replaced is named only on these terms.
pub proof fn naming_by_id(args: Seq<Seq<char>>)
    ensures
        parsed(args) matches Ok(cli) ==> (cli.verb == Verb::Remove
            || cli.verb == Verb::VaultGet
            || cli.verb == Verb::HostKeysRevoke
            || cli.verb == Verb::HostKeysRotate) ==> {
            &&& cli.has("id"@)
        },
{
    accepted_lines_keep_the_rules(args);
    if let Ok(cli) = parsed(args) {
        if cli.verb == Verb::Remove
            || cli.verb == Verb::VaultGet
            || cli.verb == Verb::HostKeysRevoke
            || cli.verb == Verb::HostKeysRotate {
            let rules = rules_of(cli.verb);
            assert(rule_fault(cli, rules[0]) is None);
        }
    }
}

/// A secret is split only on these terms.
pub proof fn splitting_a_secret(args: Seq<Seq<char>>)
    ensures
        parsed(args) matches Ok(cli) ==> cli.verb == Verb::Split ==> {
            &&& cli.has("label"@)
            &&& !(cli.has("tree-spec"@) && cli.has("leaf"@))
            &&& cli.has("tree-spec"@) || cli.has("leaf"@)
        },
{
    accepted_lines_keep_the_rules(args);
    if let Ok(cli) = parsed(args) {
        if cli.verb == Verb::Split {
            let rules = rules_of(cli.verb);
            assert(rule_fault(cli, rules[0]) is None);
            assert(rule_fault(cli, rules[1]) is None);
            assert(rule_fault(cli, rules[2]) is None);
        }
    }
}

/// A tree is looked at only on these terms.
pub proof fn looking_at_a_tree(args: Seq<Seq<char>>)
    ensures
        parsed(args) matches Ok(cli) ==> cli.verb == Verb::Tree ==> {
            &&& !(cli.has("node"@) && cli.has("output"@))
            &&& cli.has("node"@) ==> cli.has("key-id"@)
            &&& cli.has("output"@) ==> cli.has("key-id"@)
        },
{
    accepted_lines_keep_the_rules(args);
    if let Ok(cli) = parsed(args) {
        if cli.verb == Verb::Tree {
            let rules = rules_of(cli.verb);
            assert(rule_fault(cli, rules[0]) is None);
            assert(rule_fault(cli, rules[1]) is None);
            assert(rule_fault(cli, rules[2]) is None);
        }
    }
}

/// What is published, reconstructed or listed is named only on these terms.
pub proof fn naming_a_secret(args: Seq<Seq<char>>)
    ensures
        parsed(args) matches Ok(cli) ==> (cli.verb == Verb::TreePublish
            || cli.verb == Verb::Reconstruct
            || cli.verb == Verb::BridgeList) ==> {
            &&& cli.has("key-id"@)
        },
{
    accepted_lines_keep_the_rules(args);
    if let Ok(cli) = parsed(args) {
        if cli.verb == Verb::TreePublish
            || cli.verb == Verb::Reconstruct
            || cli.verb == Verb::BridgeList {
            let rules = rules_of(cli.verb);
            assert(rule_fault(cli, rules[0]) is None);
        }
    }
}

/// A tree is fetched only on these terms.
pub proof fn fetching_a_tree(args: Seq<Seq<char>>)
    ensures
        parsed(args) matches Ok(cli) ==> cli.verb == Verb::TreeFetch ==> {
            &&& cli.has("key-id"@) || cli.has("label"@)
        },
{
    accepted_lines_keep_the_rules(args);
    if let Ok(cli) = parsed(args) {
        if cli.verb == Verb::TreeFetch {
            let rules = rules_of(cli.verb);
            assert(rule_fault(cli, rules[0]) is None);
        }
    }
}

/// A node is bound only on these terms.
pub proof fn binding_a_node(args: Seq<Seq<char>>)
    ensures
        parsed(args) matches Ok(cli) ==> cli.verb == Verb::Bind ==> {
            &&& cli.has("key-id"@)
            &&& cli.has("node"@)
            &&& !(cli.has("peer"@) && cli.has("public-key-file"@))
            &&& cli.has("peer"@) || cli.has("public-key-file"@)
        },
{
    accepted_lines_keep_the_rules(args);
    if let Ok(cli) = parsed(args) {
        if cli.verb == Verb::Bind {
            let rules = rules_of(cli.verb);
            assert(rule_fault(cli, rules[0]) is None);
            assert(rule_fault(cli, rules[1]) is None);
            assert(rule_fault(cli, rules[2]) is None);
            assert(rule_fault(cli, rules[3]) is None);
        }
    }
}

/// A leaf is added only on these terms.
pub proof fn adding_a_leaf(args: Seq<Seq<char>>)
    ensures
        parsed(args) matches Ok(cli) ==> cli.verb == Verb::Add ==> {
            &&& cli.has("key-id"@)
            &&& cli.has("parent"@)
            &&& cli.has("node"@)
            &&& cli.has("public-key-file"@)
        },
{
    accepted_lines_keep_the_rules(args);
    if let Ok(cli) = parsed(args) {
        if cli.verb == Verb::Add {
            let rules = rules_of(cli.verb);
            assert(rule_fault(cli, rules[0]) is None);
            assert(rule_fault(cli, rules[1]) is None);
            assert(rule_fault(cli, rules[2]) is None);
            assert(rule_fault(cli, rules[3]) is None);
        }
    }
}

/// A pairing is permitted or denied only on these terms.
pub proof fn permitting_a_pairing(args: Seq<Seq<char>>)
    ensures
        parsed(args) matches Ok(cli) ==> (cli.verb == Verb::BridgeAllow
            || cli.verb == Verb::BridgeDeny) ==> {
            &&& cli.has("key-id"@)
            &&& cli.has("node"@)
            &&& cli.has("peer"@)
        },
{
    accepted_lines_keep_the_rules(args);
    if let Ok(cli) = parsed(args) {
        if cli.verb == Verb::BridgeAllow
            || cli.verb == Verb::BridgeDeny {
            let rules = rules_of(cli.verb);
            assert(rule_fault(cli, rules[0]) is None);
            assert(rule_fault(cli, rules[1]) is None);
            assert(rule_fault(cli, rules[2]) is None);
        }
    }
}

/// A pairing is made or torn down only on these terms.
pub proof fn making_a_pairing(args: Seq<Seq<char>>)
    ensures
        parsed(args) matches Ok(cli) ==> (cli.verb == Verb::BridgeAdd
            || cli.verb == Verb::BridgeRemove) ==> {
            &&& cli.has("key-id"@)
            &&& cli.has("from"@)
            &&& cli.has("to"@)
        },
{
    accepted_lines_keep_the_rules(args);
    if let Ok(cli) = parsed(args) {
        if cli.verb == Verb::BridgeAdd
            || cli.verb == Verb::BridgeRemove {
            let rules = rules_of(cli.verb);
            assert(rule_fault(cli, rules[0]) is None);
            assert(rule_fault(cli, rules[1]) is None);
            assert(rule_fault(cli, rules[2]) is None);
        }
    }
}

/// A file is locked or unlocked under a password only on these terms.
pub proof fn opening_by_password(args: Seq<Seq<char>>)
    ensures
        parsed(args) matches Ok(cli) ==> cli.verb == Verb::AccessPassword ==> {
            &&& cli.has("state"@)
            &&& cli.says("state"@, "0"@) ==> cli.has("source"@)
            &&& cli.says("state"@, "0"@) ==> cli.has("encrypted-path"@)
            &&& cli.says("state"@, "1"@) ==> cli.has("id"@)
            &&& !(cli.has("source"@) && cli.has("id"@))
            &&& !(cli.has("source"@) && cli.has("output"@))
            &&& !(cli.has("encrypted-path"@) && cli.has("id"@))
            &&& !(cli.has("encrypted-path"@) && cli.has("output"@))
            &&& !(cli.has("pin"@) && cli.has("id"@))
            &&& !(cli.has("pin"@) && cli.has("output"@))
        },
{
    accepted_lines_keep_the_rules(args);
    if let Ok(cli) = parsed(args) {
        if cli.verb == Verb::AccessPassword {
            let rules = rules_of(cli.verb);
            assert(rule_fault(cli, rules[0]) is None);
            assert(rule_fault(cli, rules[1]) is None);
            assert(rule_fault(cli, rules[2]) is None);
            assert(rule_fault(cli, rules[3]) is None);
            assert(rule_fault(cli, rules[4]) is None);
            assert(rule_fault(cli, rules[5]) is None);
            assert(rule_fault(cli, rules[6]) is None);
            assert(rule_fault(cli, rules[7]) is None);
            assert(rule_fault(cli, rules[8]) is None);
            assert(rule_fault(cli, rules[9]) is None);
        }
    }
}

/// A file is locked, unlocked or looked at under a quorum only on these terms.
pub proof fn opening_by_quorum(args: Seq<Seq<char>>)
    ensures
        parsed(args) matches Ok(cli) ==> cli.verb == Verb::AccessQuorum ==> {
            &&& !(cli.has("state"@) && cli.has("status"@))
            &&& !(cli.has("status"@) && cli.has("source"@))
            &&& !(cli.has("status"@) && cli.has("encrypted-path"@))
            &&& !(cli.has("status"@) && cli.has("tree-spec"@))
            &&& !(cli.has("status"@) && cli.has("leaf"@))
            &&& !(cli.has("status"@) && cli.has("name"@))
            &&& !(cli.has("status"@) && cli.has("share-file"@))
            &&& !(cli.has("status"@) && cli.has("output"@))
            &&& cli.says("state"@, "0"@) ==> cli.has("source"@)
            &&& cli.says("state"@, "0"@) ==> cli.has("encrypted-path"@)
            &&& cli.says("state"@, "0"@) ==> cli.has("tree-spec"@) || cli.has("leaf"@)
            &&& cli.says("state"@, "1"@) ==> cli.has("id"@)
            &&& !(cli.has("tree-spec"@) && cli.has("leaf"@))
            &&& !(cli.has("source"@) && cli.has("id"@))
            &&& !(cli.has("source"@) && cli.has("share-file"@))
            &&& !(cli.has("source"@) && cli.has("output"@))
            &&& !(cli.has("encrypted-path"@) && cli.has("id"@))
            &&& !(cli.has("encrypted-path"@) && cli.has("share-file"@))
            &&& !(cli.has("encrypted-path"@) && cli.has("output"@))
            &&& !(cli.has("tree-spec"@) && cli.has("id"@))
            &&& !(cli.has("tree-spec"@) && cli.has("share-file"@))
            &&& !(cli.has("tree-spec"@) && cli.has("output"@))
            &&& !(cli.has("leaf"@) && cli.has("id"@))
            &&& !(cli.has("leaf"@) && cli.has("share-file"@))
            &&& !(cli.has("leaf"@) && cli.has("output"@))
            &&& !(cli.has("name"@) && cli.has("id"@))
            &&& !(cli.has("name"@) && cli.has("share-file"@))
            &&& !(cli.has("name"@) && cli.has("output"@))
        },
{
    accepted_lines_keep_the_rules(args);
    if let Ok(cli) = parsed(args) {
        if cli.verb == Verb::AccessQuorum {
            let rules = rules_of(cli.verb);
            assert(rule_fault(cli, rules[0]) is None);
            assert(rule_fault(cli, rules[1]) is None);
            assert(rule_fault(cli, rules[2]) is None);
            assert(rule_fault(cli, rules[3]) is None);
            assert(rule_fault(cli, rules[4]) is None);
            assert(rule_fault(cli, rules[5]) is None);
            assert(rule_fault(cli, rules[6]) is None);
            assert(rule_fault(cli, rules[7]) is None);
            assert(rule_fault(cli, rules[8]) is None);
            assert(rule_fault(cli, rules[9]) is None);
            assert(rule_fault(cli, rules[10]) is None);
            assert(rule_fault(cli, rules[11]) is None);
            assert(rule_fault(cli, rules[12]) is None);
            assert(rule_fault(cli, rules[13]) is None);
            assert(rule_fault(cli, rules[14]) is None);
            assert(rule_fault(cli, rules[15]) is None);
            assert(rule_fault(cli, rules[16]) is None);
            assert(rule_fault(cli, rules[17]) is None);
            assert(rule_fault(cli, rules[18]) is None);
            assert(rule_fault(cli, rules[19]) is None);
            assert(rule_fault(cli, rules[20]) is None);
            assert(rule_fault(cli, rules[21]) is None);
            assert(rule_fault(cli, rules[22]) is None);
            assert(rule_fault(cli, rules[23]) is None);
            assert(rule_fault(cli, rules[24]) is None);
            assert(rule_fault(cli, rules[25]) is None);
            assert(rule_fault(cli, rules[26]) is None);
            assert(rule_fault(cli, rules[27]) is None);
        }
    }
}

/// A signature is verified only on these terms.
pub proof fn verifying_a_signature(args: Seq<Seq<char>>)
    ensures
        parsed(args) matches Ok(cli) ==> cli.verb == Verb::Verify ==> {
            &&& cli.has("public-key-file"@)
            &&& cli.has("message-file"@)
            &&& cli.has("signature-file"@)
        },
{
    accepted_lines_keep_the_rules(args);
    if let Ok(cli) = parsed(args) {
        if cli.verb == Verb::Verify {
            let rules = rules_of(cli.verb);
            assert(rule_fault(cli, rules[0]) is None);
            assert(rule_fault(cli, rules[1]) is None);
            assert(rule_fault(cli, rules[2]) is None);
        }
    }
}

/// A credential is added only on these terms.
pub proof fn adding_a_credential(args: Seq<Seq<char>>)
    ensures
        parsed(args) matches Ok(cli) ==> cli.verb == Verb::VaultAdd ==> {
            &&& cli.has("label"@)
        },
{
    accepted_lines_keep_the_rules(args);
    if let Ok(cli) = parsed(args) {
        if cli.verb == Verb::VaultAdd {
            let rules = rules_of(cli.verb);
            assert(rule_fault(cli, rules[0]) is None);
        }
    }
}

/// Something is exported only on these terms.
pub proof fn exporting(args: Seq<Seq<char>>)
    ensures
        parsed(args) matches Ok(cli) ==> (cli.verb == Verb::ExportCredential
            || cli.verb == Verb::ExportFile) ==> {
            &&& cli.has("id"@)
            &&& cli.has("recipient-key-file"@)
            &&& cli.has("output"@)
        },
{
    accepted_lines_keep_the_rules(args);
    if let Ok(cli) = parsed(args) {
        if cli.verb == Verb::ExportCredential
            || cli.verb == Verb::ExportFile {
            let rules = rules_of(cli.verb);
            assert(rule_fault(cli, rules[0]) is None);
            assert(rule_fault(cli, rules[1]) is None);
            assert(rule_fault(cli, rules[2]) is None);
        }
    }
}

/// A credential is shared only on these terms.
pub proof fn sharing_a_credential(args: Seq<Seq<char>>)
    ensures
        parsed(args) matches Ok(cli) ==> cli.verb == Verb::ShareCreateCredential ==> {
            &&& cli.has("credential-id"@)
            &&& cli.has("pin-required-every-use"@) ==> cli.has("pin"@)
        },
{
    accepted_lines_keep_the_rules(args);
    if let Ok(cli) = parsed(args) {
        if cli.verb == Verb::ShareCreateCredential {
            let rules = rules_of(cli.verb);
            assert(rule_fault(cli, rules[0]) is None);
            assert(rule_fault(cli, rules[1]) is None);
        }
    }
}

/// A file is shared only on these terms.
pub proof fn sharing_a_file(args: Seq<Seq<char>>)
    ensures
        parsed(args) matches Ok(cli) ==> cli.verb == Verb::ShareCreateFile ==> {
            &&& cli.has("file-id"@)
            &&& cli.has("pin-required-every-use"@) ==> cli.has("pin"@)
        },
{
    accepted_lines_keep_the_rules(args);
    if let Ok(cli) = parsed(args) {
        if cli.verb == Verb::ShareCreateFile {
            let rules = rules_of(cli.verb);
            assert(rule_fault(cli, rules[0]) is None);
            assert(rule_fault(cli, rules[1]) is None);
        }
    }
}

/// A share is revoked only on these terms.
pub proof fn revoking_a_share(args: Seq<Seq<char>>)
    ensures
        parsed(args) matches Ok(cli) ==> (cli.verb == Verb::ShareRevokeCredential
            || cli.verb == Verb::ShareRevokeFile) ==> {
            &&& cli.has("share-id"@)
        },
{
    accepted_lines_keep_the_rules(args);
    if let Ok(cli) = parsed(args) {
        if cli.verb == Verb::ShareRevokeCredential
            || cli.verb == Verb::ShareRevokeFile {
            let rules = rules_of(cli.verb);
            assert(rule_fault(cli, rules[0]) is None);
        }
    }
}

/// A PIN is asked for anew only on these terms.
pub proof fn relocking(args: Seq<Seq<char>>)
    ensures
        parsed(args) matches Ok(cli) ==> cli.verb == Verb::PinRelock ==> {
            &&& cli.has("resource"@)
            &&& cli.has("id"@)
        },
{
    accepted_lines_keep_the_rules(args);
    if let Ok(cli) = parsed(args) {
        if cli.verb == Verb::PinRelock {
            let rules = rules_of(cli.verb);
            assert(rule_fault(cli, rules[0]) is None);
            assert(rule_fault(cli, rules[1]) is None);
        }
    }
}

/// Envelopes are pushed only on these terms.
pub proof fn pushing_envelopes(args: Seq<Seq<char>>)
    ensures
        parsed(args) matches Ok(cli) ==> cli.verb == Verb::RelayPush ==> {
            &&& cli.has("dir"@)
        },
{
    accepted_lines_keep_the_rules(args);
    if let Ok(cli) = parsed(args) {
        if cli.verb == Verb::RelayPush {
            let rules = rules_of(cli.verb);
            assert(rule_fault(cli, rules[0]) is None);
        }
    }
}

/// Envelopes are pulled only on these terms.
pub proof fn pulling_envelopes(args: Seq<Seq<char>>)
    ensures
        parsed(args) matches Ok(cli) ==> cli.verb == Verb::RelayPull ==> {
            &&& cli.has("output"@) || cli.has("import"@)
            &&& cli.has("import"@) ==> cli.has("share-file"@)
        },
{
    accepted_lines_keep_the_rules(args);
    if let Ok(cli) = parsed(args) {
        if cli.verb == Verb::RelayPull {
            let rules = rules_of(cli.verb);
            assert(rule_fault(cli, rules[0]) is None);
            assert(rule_fault(cli, rules[1]) is None);
        }
    }
}

/// A root key or an identity is made only on these terms.
pub proof fn making_an_identity(args: Seq<Seq<char>>)
    ensures
        parsed(args) matches Ok(cli) ==> (cli.verb == Verb::HostIdentityGenerate
            || cli.verb == Verb::HostRootGenerate) ==> {
            &&& cli.has("public-key-out"@)
        },
{
    accepted_lines_keep_the_rules(args);
    if let Ok(cli) = parsed(args) {
        if cli.verb == Verb::HostIdentityGenerate
            || cli.verb == Verb::HostRootGenerate {
            let rules = rules_of(cli.verb);
            assert(rule_fault(cli, rules[0]) is None);
        }
    }
}

/// A certificate is issued only on these terms.
pub proof fn certifying(args: Seq<Seq<char>>)
    ensures
        parsed(args) matches Ok(cli) ==> cli.verb == Verb::HostCertify ==> {
            &&& cli.has("relay-public-key"@)
            &&& cli.has("provider-id"@)
            &&& cli.has("serial"@)
            &&& cli.has("expires-at"@)
            &&& cli.has("out"@)
        },
{
    accepted_lines_keep_the_rules(args);
    if let Ok(cli) = parsed(args) {
        if cli.verb == Verb::HostCertify {
            let rules = rules_of(cli.verb);
            assert(rule_fault(cli, rules[0]) is None);
            assert(rule_fault(cli, rules[1]) is None);
            assert(rule_fault(cli, rules[2]) is None);
            assert(rule_fault(cli, rules[3]) is None);
            assert(rule_fault(cli, rules[4]) is None);
        }
    }
}

/// A list of what is revoked is issued only on these terms.
pub proof fn listing_revoked(args: Seq<Seq<char>>)
    ensures
        parsed(args) matches Ok(cli) ==> cli.verb == Verb::HostKrl ==> {
            &&& cli.has("serial"@)
            &&& cli.has("out"@)
        },
{
    accepted_lines_keep_the_rules(args);
    if let Ok(cli) = parsed(args) {
        if cli.verb == Verb::HostKrl {
            let rules = rules_of(cli.verb);
            assert(rule_fault(cli, rules[0]) is None);
            assert(rule_fault(cli, rules[1]) is None);
        }
    }
}

/// A bearer is made only on these terms.
pub proof fn making_a_bearer(args: Seq<Seq<char>>)
    ensures
        parsed(args) matches Ok(cli) ==> cli.verb == Verb::HostKeysCreate ==> {
            &&& cli.has("scope"@)
        },
{
    accepted_lines_keep_the_rules(args);
    if let Ok(cli) = parsed(args) {
        if cli.verb == Verb::HostKeysCreate {
            let rules = rules_of(cli.verb);
            assert(rule_fault(cli, rules[0]) is None);
        }
    }
}

/// A policy is issued only on these terms.
pub proof fn issuing_a_policy(args: Seq<Seq<char>>)
    ensures
        parsed(args) matches Ok(cli) ==> cli.verb == Verb::HostPolicyIssue ==> {
            &&& cli.has("relay-public-key"@)
            &&& cli.has("provider-id"@)
            &&& cli.has("policy-id"@)
            &&& cli.has("expires-at"@)
            &&& cli.has("hardware-fingerprint"@)
            &&& cli.has("corporate-network"@)
            &&& cli.has("out"@)
        },
{
    accepted_lines_keep_the_rules(args);
    if let Ok(cli) = parsed(args) {
        if cli.verb == Verb::HostPolicyIssue {
            let rules = rules_of(cli.verb);
            assert(rule_fault(cli, rules[0]) is None);
            assert(rule_fault(cli, rules[1]) is None);
            assert(rule_fault(cli, rules[2]) is None);
            assert(rule_fault(cli, rules[3]) is None);
            assert(rule_fault(cli, rules[4]) is None);
            assert(rule_fault(cli, rules[5]) is None);
            assert(rule_fault(cli, rules[6]) is None);
        }
    }
}

} // verus!
