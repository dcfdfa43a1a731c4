//! What the key and tree commands do and tell.

use std::collections::HashMap;

use vstd::prelude::*;

use crate::cli::grammar::{equals_place, find_equals};
use crate::cli::lines::{key_line, key_told, numbered, push_line, tree_lines, tree_told};
use crate::encoding::{hex_bytes, hex_decode, hex_encode, hex_text};
use crate::error::{fault_of, Error, StoreError};
use crate::key_tree::listing::{
    active_leaves_for_hardware, all_leaves_on, bindings_dropped_for, describable, describe,
    describes, drop_bindings_for_hardware, hardware_registered, leaf_views, list_trees,
    HardwareLeafRef, HardwareLeafView, TreeSummary,
};
use crate::key_tree::mutate::{leaf_share, unwrap_leaf_share};
use crate::key_tree::reconstruct::{reconstruct, reconstructed, share_views};
use crate::key_tree::store::{KeyRowView, NodeRowView, TreeStore, TreeStoreView};
use crate::keys::parse::{key_in_text, parse_key_text};
use crate::keys::{
    fingerprint_taken, fingerprint_text, get_key, key_in_use, key_place, key_with_id, list_keys,
    next_registry_id, register_key, registry_wf, remove_key, revoke_key, revoked, HardwareKeyView,
    KeyRegistry, KeyType,
};
use crate::numbers::{integer_of, integer_text, parse_integer, push_integer};
use crate::sealing::{box_public_key, derive_box_public_key, key_array, KEY_LEN};
use crate::text::{
    chars_of, concat, finishes_with, has_suffix, lent_text, part, push_text, text_equal, text_of,
    text_views, trim, trimmed,
};

verus! {

broadcast use vstd::std_specs::hash::group_hash_axioms;

/// Registers the key that a text holds, and tells its id.
pub fn register_from_text(
    registry: &mut KeyRegistry,
    label: &str,
    key_type: KeyType,
    contents: &str,
    created_at: &str,
) -> (r: Result<String, Error>)
    requires
        registry_wf(old(registry)@),
        next_registry_id(old(registry)@) <= i64::MAX,
    ensures
        registry_wf(final(registry)@),
        match r {
            Ok(line) => key_in_text(contents@) matches Some(key) && {
                let id = next_registry_id(old(registry)@);
                &&& key.len() == KEY_LEN
                &&& !fingerprint_taken(old(registry)@, fingerprint_text(key))
                &&& line@ == "Registered key "@ + integer_text(id)
                &&& final(registry)@ == old(registry)@.push(
                    HardwareKeyView {
                        id: id as i64,
                        label: label@,
                        key_type,
                        fingerprint: fingerprint_text(key),
                        public_key: key,
                        created_at: created_at@,
                        revoked_at: None,
                    },
                )
            },
            Err(e) => {
                &&& final(registry)@ == old(registry)@
                &&& match key_in_text(contents@) {
                    None => e == Error::InvalidPublicKey,
                    Some(key) => if key.len() != KEY_LEN {
                        e == Error::InvalidPublicKey
                    } else {
                        fingerprint_taken(old(registry)@, fingerprint_text(key)) && e == Error::Db(
                            StoreError::HardwareKeyFingerprint,
                        )
                    },
                }
            },
        },
{
    let key = match parse_key_text(contents) {
        Ok(key) => key,
        Err(e) => return Err(e),
    };
    match register_key(registry, label, key_type, key.as_slice(), created_at) {
        Ok(id) => Ok(numbered("Registered key ", id)),
        Err(e) => Err(e),
    }
}

/// The line of a secret in a list.
pub open spec fn secret_told(key: KeyRowView) -> Seq<char> {
    key.label + " (key "@ + integer_text(key.id as int) + ")"@
}

/// What is told of all secrets.
pub open spec fn secrets_told(keys: Seq<KeyRowView>) -> Seq<Seq<char>> {
    Seq::new(keys.len(), |i: int| secret_told(keys[i]))
}

/// What is told of all registered keys.
pub open spec fn keys_told(keys: Seq<HardwareKeyView>) -> Seq<Seq<char>> {
    Seq::new(keys.len(), |i: int| key_told(keys[i]))
}

fn push_key_lines(lines: &mut Vec<String>, registry: &KeyRegistry)
    ensures
        text_views(final(lines)@) == text_views(old(lines)@) + keys_told(registry@),
{
    let ghost before = text_views(lines@);
    let ghost told = keys_told(registry@);
    let keys = list_keys(registry);
    let mut i: usize = 0;
    assert(text_views(lines@) =~= before + told.take(0));
    while i < keys.len()
        invariant
            i <= keys.len(),
            keys@ == registry.keys@,
            told == keys_told(registry@),
            text_views(lines@) == before + told.take(i as int),
        decreases keys.len() - i,
    {
        assert(registry@[i as int] == keys@[i as int]@);
        push_line(lines, key_line(&keys[i]));
        assert(before + told.take(i + 1) =~= (before + told.take(i as int)).push(told[i as int]));
        i += 1;
    }
    assert(told.take(i as int) =~= told);
}

fn push_secret_lines(lines: &mut Vec<String>, trees: &TreeStore)
    ensures
        text_views(final(lines)@) == text_views(old(lines)@) + secrets_told(trees@.keys),
{
    let ghost before = text_views(lines@);
    let ghost told = secrets_told(trees@.keys);
    let listed = list_trees(trees);
    let mut i: usize = 0;
    assert(text_views(lines@) =~= before + told.take(0));
    while i < listed.len()
        invariant
            i <= listed.len(),
            told == secrets_told(trees@.keys),
            listed@.len() == trees@.keys.len(),
            forall|k: int|
                0 <= k < listed@.len() ==> (#[trigger] listed@[k]).key_id == trees@.keys[k].id
                    && listed@[k].label@ == trees@.keys[k].label,
            text_views(lines@) == before + told.take(i as int),
        decreases listed.len() - i,
    {
        let mut out = chars_of(listed[i].label.as_str());
        push_text(&mut out, " (key ");
        push_integer(&mut out, listed[i].key_id);
        push_text(&mut out, ")");
        push_line(lines, text_of(out.as_slice()));
        assert(before + told.take(i + 1) =~= (before + told.take(i as int)).push(told[i as int]));
        i += 1;
    }
    assert(told.take(i as int) =~= told);
}

/// What is told of all registered keys and of all secrets.
pub fn list_lines(registry: &KeyRegistry, trees: &TreeStore) -> (r: Vec<String>)
    ensures
        text_views(r@) == keys_told(registry@) + secrets_told(trees@.keys),
{
    let mut lines: Vec<String> = Vec::new();
    let ghost none = text_views(lines@);
    push_key_lines(&mut lines, registry);
    assert(none + keys_told(registry@) =~= keys_told(registry@));
    push_secret_lines(&mut lines, trees);
    lines
}

/// What is told of all secrets.
pub fn secret_lines(trees: &TreeStore) -> (r: Vec<String>)
    ensures
        text_views(r@) == secrets_told(trees@.keys),
{
    let mut lines: Vec<String> = Vec::new();
    let ghost none = text_views(lines@);
    push_secret_lines(&mut lines, trees);
    assert(none + secrets_told(trees@.keys) =~= secrets_told(trees@.keys));
    lines
}

/// Bans a registered key: revokes it, and drops the pairings and permissions of
/// every active leaf that is sealed to it.
pub fn ban_key(registry: &mut KeyRegistry, trees: &mut TreeStore, id: i64, now: &str) -> (r: String)
    requires
        registry_wf(old(registry)@),
        old(trees).wf(),
    ensures
        registry_wf(final(registry)@),
        final(trees).wf(),
        r@ == "Revoked key "@ + integer_text(id as int),
        final(registry)@ == revoked(old(registry)@, id, now@),
        ({
            let leaves = all_leaves_on(old(trees)@.keys, old(trees)@.nodes, id);
            final(trees)@ == bindings_dropped_for(old(trees)@, leaves, leaves.len())
        }),
{
    revoke_key(registry, id, now);
    let _ = drop_bindings_for_hardware(trees, id);
    numbered("Revoked key ", id)
}

/// Removes a registered key, and tells so.
pub fn forget_key(registry: &mut KeyRegistry, trees: &TreeStore, id: i64) -> (r: Result<
    String,
    Error,
>)
    requires
        registry_wf(old(registry)@),
    ensures
        registry_wf(final(registry)@),
        match r {
            Ok(line) => {
                &&& !(key_in_use(trees@.nodes, id) && key_place(old(registry)@, id) is Some)
                &&& line@ == "Removed key "@ + integer_text(id as int)
                &&& final(registry)@ == (match key_place(old(registry)@, id) {
                    Some(i) => old(registry)@.remove(i),
                    None => old(registry)@,
                })
            },
            Err(e) => {
                &&& key_in_use(trees@.nodes, id) && key_place(old(registry)@, id) is Some
                &&& e == Error::Db(StoreError::ForeignKey)
                &&& final(registry)@ == old(registry)@
            },
        },
{
    match remove_key(registry, trees, id) {
        Ok(()) => Ok(numbered("Removed key ", id)),
        Err(e) => Err(e),
    }
}

/// What is told of the tree of one secret.
pub fn tree_report(trees: &TreeStore, registry: &KeyRegistry, key_id: i64) -> (r: Result<
    Vec<String>,
    Error,
>)
    requires
        trees.wf(),
        registry_wf(registry@),
        hardware_registered(trees@.nodes, registry@),
    ensures
        match r {
            Ok(lines) => exists|summary: TreeSummary| #[trigger]
                describes(trees@, registry@, key_id, summary) && text_views(lines@) == tree_told(
                    summary,
                ),
            Err(e) => e == Error::Db(StoreError::NoRows) && !describable(trees@, key_id),
        },
{
    match describe(trees, registry, key_id) {
        Ok(summary) => Ok(tree_lines(&summary)),
        Err(e) => Err(e),
    }
}

/// The secret that shares give, in hexadecimal.
pub fn reconstruct_hex(trees: &TreeStore, key_id: i64, shares: &HashMap<i64, Vec<u8>>) -> (r:
    Result<String, Error>)
    requires
        trees.wf(),
    ensures
        match reconstructed(trees@, key_id, share_views(shares@)) {
            Ok(secret) => r matches Ok(text) && text@ == hex_text(secret),
            Err(e) => fault_of(r) == Some(e),
        },
{
    match reconstruct(trees, key_id, shares) {
        Ok(secret) => Ok(hex_encode(secret.as_slice())),
        Err(e) => Err(e),
    }
}

/// Bytes in hexadecimal.
pub fn hex_line(bytes: &[u8]) -> (r: String)
    ensures
        r@ == hex_text(bytes@),
{
    hex_encode(bytes)
}

/// The leaf belongs to the secret, is active, and is sealed to the public key.
pub open spec fn sealed_to(
    row: NodeRowView,
    keys: Seq<HardwareKeyView>,
    key_id: i64,
    public_key: Seq<u8>,
) -> bool {
    &&& row.key_id == key_id
    &&& row.is_active
    &&& row.hardware_key_id matches Some(id) && (key_with_id(keys, id) matches Ok(key)
        && key.public_key == public_key)
}

/// The shares that a secret key opens among the first rows, by the ids of their
/// leaves.
pub open spec fn opened(
    nodes: Seq<NodeRowView>,
    n: nat,
    keys: Seq<HardwareKeyView>,
    key_id: i64,
    secret: Seq<u8>,
) -> Result<Map<i64, Seq<u8>>, Error>
    decreases n,
{
    if n == 0 {
        Ok(Map::empty())
    } else {
        match opened(nodes, (n - 1) as nat, keys, key_id, secret) {
            Err(e) => Err(e),
            Ok(shares) => {
                let row = nodes[n - 1];
                if sealed_to(row, keys, key_id, box_public_key(secret)) {
                    match leaf_share(nodes, keys, row.id, secret) {
                        Ok(share) => Ok(shares.insert(row.id, share)),
                        Err(e) => Err(e),
                    }
                } else {
                    Ok(shares)
                }
            },
        }
    }
}

/// The shares that a secret key opens. One that opens none is no key of the tree.
pub open spec fn opened_by(
    s: TreeStoreView,
    keys: Seq<HardwareKeyView>,
    key_id: i64,
    secret: Seq<u8>,
) -> Result<Map<i64, Seq<u8>>, Error> {
    if secret.len() != KEY_LEN {
        Err(Error::InvalidPublicKey)
    } else {
        match opened(s.nodes, s.nodes.len(), keys, key_id, secret) {
            Err(e) => Err(e),
            Ok(shares) => if shares.dom() =~= Set::empty() {
                Err(Error::SealedKeyNotHeld)
            } else {
                Ok(shares)
            },
        }
    }
}

proof fn lemma_opening_fails(
    nodes: Seq<NodeRowView>,
    n: nat,
    m: nat,
    keys: Seq<HardwareKeyView>,
    key_id: i64,
    secret: Seq<u8>,
)
    requires
        n <= m,
        opened(nodes, n, keys, key_id, secret) is Err,
    ensures
        opened(nodes, m, keys, key_id, secret) == opened(nodes, n, keys, key_id, secret),
    decreases m,
{
    if n < m {
        lemma_opening_fails(nodes, n, (m - 1) as nat, keys, key_id, secret);
    }
}

fn check_sealed(
    trees: &TreeStore,
    place: usize,
    registry: &KeyRegistry,
    key_id: i64,
    public_key: &[u8],
) -> (r: bool)
    requires
        registry_wf(registry@),
        place < trees@.nodes.len(),
    ensures
        r == sealed_to(trees@.nodes[place as int], registry@, key_id, public_key@),
{
    assert(trees@.nodes[place as int] == trees.nodes@[place as int]@);
    let row = &trees.nodes[place];
    if row.key_id != key_id || !row.is_active {
        return false;
    }
    match row.hardware_key_id {
        Some(id) => match get_key(registry, id) {
            Ok(key) => crate::bytes::bytes_equal(key.public_key.as_slice(), public_key),
            Err(_) => false,
        },
        None => false,
    }
}

/// Opens the shares of every active leaf of a secret that is sealed to a key.
pub fn open_shares(
    trees: &TreeStore,
    registry: &KeyRegistry,
    key_id: i64,
    secret_key: &[u8],
) -> (r: Result<HashMap<i64, Vec<u8>>, Error>)
    requires
        trees.wf(),
        registry_wf(registry@),
    ensures
        match r {
            Ok(shares) => opened_by(trees@, registry@, key_id, secret_key@) == Ok::<
                Map<i64, Seq<u8>>,
                Error,
            >(share_views(shares@)),
            Err(e) => opened_by(trees@, registry@, key_id, secret_key@) == Err::<
                Map<i64, Seq<u8>>,
                Error,
            >(e),
        },
{
    let secret = match key_array(secret_key) {
        Some(secret) => secret,
        None => return Err(Error::InvalidPublicKey),
    };
    let public_key = derive_box_public_key(&secret);
    let ghost s = trees@;
    let mut shares: HashMap<i64, Vec<u8>> = HashMap::new();
    let mut found = false;
    let mut i: usize = 0;
    assert(share_views(shares@) =~= Map::<i64, Seq<u8>>::empty());
    while i < trees.nodes.len()
        invariant
            i <= trees.nodes.len(),
            s == trees@,
            s.nodes.len() == trees.nodes@.len(),
            trees.wf(),
            registry_wf(registry@),
            secret_key@.len() == KEY_LEN,
            public_key@ == box_public_key(secret_key@),
            found == !(share_views(shares@).dom() =~= Set::empty()),
            opened(s.nodes, i as nat, registry@, key_id, secret_key@) == Ok::<
                Map<i64, Seq<u8>>,
                Error,
            >(share_views(shares@)),
        decreases trees.nodes.len() - i,
    {
        assert(s.nodes[i as int] == trees.nodes@[i as int]@);
        if check_sealed(trees, i, registry, key_id, &public_key) {
            let node_id: i64 = trees.nodes[i].id;
            match unwrap_leaf_share(trees, registry, node_id, secret_key) {
                Ok(share) => {
                    let ghost before = share_views(shares@);
                    let ghost added = share@;
                    shares.insert(node_id, share);
                    found = true;
                    proof {
                        assert(share_views(shares@) =~= before.insert(node_id, added));
                        assert(share_views(shares@).dom().contains(node_id));
                    }
                },
                Err(e) => {
                    proof {
                        lemma_opening_fails(
                            s.nodes,
                            (i + 1) as nat,
                            s.nodes.len(),
                            registry@,
                            key_id,
                            secret_key@,
                        );
                    }
                    return Err(e);
                },
            }
        }
        i += 1;
    }
    if !found {
        return Err(Error::SealedKeyNotHeld);
    }
    Ok(shares)
}

/// A share that was typed in: nothing where the entry is blank.
pub open spec fn share_typed(entered: Seq<char>) -> Result<Option<Seq<u8>>, Seq<char>> {
    let text = trimmed(entered);
    if text.len() == 0 {
        Ok(None)
    } else {
        match hex_bytes(text) {
            Some(bytes) => Ok(Some(bytes)),
            None => Err("share must be hex-encoded"@),
        }
    }
}

/// Reads a share that was typed in.
pub fn read_typed_share(entered: &str) -> (r: Result<Option<Vec<u8>>, &'static str>)
    ensures
        match r {
            Ok(Some(bytes)) => share_typed(entered@) == Ok::<Option<Seq<u8>>, Seq<char>>(
                Some(bytes@),
            ),
            Ok(None) => share_typed(entered@) == Ok::<Option<Seq<u8>>, Seq<char>>(None),
            Err(message) => share_typed(entered@) == Err::<Option<Seq<u8>>, Seq<char>>(message@),
        },
{
    let text = text_of(trim(chars_of(entered).as_slice()).as_slice());
    if text.as_str().is_empty() {
        return Ok(None);
    }
    match hex_decode(text.as_str()) {
        Some(bytes) => Ok(Some(bytes)),
        None => Err("share must be hex-encoded"),
    }
}

/// The question for the share of a leaf.
pub open spec fn share_question(label: Seq<char>, node_id: int, hardware_key_id: int) -> Seq<char> {
    "Share for '"@ + label + "' (node "@ + integer_text(node_id) + ", hardware key "@
        + integer_text(hardware_key_id) + ", hex, blank to skip): "@
}

/// The question for the share of a leaf.
pub fn share_prompt(label: &str, node_id: i64, hardware_key_id: i64) -> (r: String)
    ensures
        r@ == share_question(label@, node_id as int, hardware_key_id as int),
{
    let mut out = chars_of("Share for '");
    push_text(&mut out, label);
    push_text(&mut out, "' (node ");
    push_integer(&mut out, node_id);
    push_text(&mut out, ", hardware key ");
    push_integer(&mut out, hardware_key_id);
    push_text(&mut out, ", hex, blank to skip): ");
    text_of(out.as_slice())
}

/// The name of the secret key's file beside a public key's.
pub open spec fn secret_beside(path: Seq<char>) -> Option<Seq<char>> {
    if finishes_with(path, ".pub"@) {
        Some(path.take(path.len() - 4) + ".key"@)
    } else {
        None
    }
}

/// The name of the secret key's file beside a public key's, if the name is that
/// of a public key.
pub fn sibling_key_path(path: &str) -> (r: Option<String>)
    ensures
        crate::text::optional_text(r) == secret_beside(path@),
{
    let chars = chars_of(path);
    if !has_suffix(chars.as_slice(), ".pub") {
        return None;
    }
    proof {
        reveal_strlit(".pub");
    }
    let stem = part(chars.as_slice(), 0, chars.len() - 4);
    assert(stem@ =~= path@.take(path@.len() - 4));
    Some(concat(text_of(stem.as_slice()).as_str(), ".key"))
}

/// The two sides of an entry with an equals sign.
pub open spec fn sides(entry: Seq<char>) -> Option<(Seq<char>, Seq<char>)> {
    match equals_place(entry) {
        Some(at) => Some((entry.take(at), entry.skip(at + 1))),
        None => None,
    }
}

/// The two sides of an entry: a label and a file, or two labels.
pub fn split_entry(entry: &str) -> (r: Option<(String, String)>)
    ensures
        match r {
            Some((left, right)) => sides(entry@) == Some((left@, right@)),
            None => sides(entry@) is None,
        },
{
    let chars = chars_of(entry);
    match find_equals(&chars) {
        None => None,
        Some(at) => {
            let total: usize = chars.len();
            let left = part(chars.as_slice(), 0, at);
            let right = part(chars.as_slice(), at + 1, total);
            assert(left@ =~= entry@.take(at as int));
            assert(right@ =~= entry@.skip(at + 1));
            Some((text_of(left.as_slice()), text_of(right.as_slice())))
        },
    }
}

/// What stands before the last dot of a label.
pub open spec fn parent_label(label: Seq<char>) -> Option<Seq<char>>
    decreases label.len(),
{
    if label.len() == 0 {
        None
    } else if label.last() == '.' {
        Some(label.drop_last())
    } else {
        parent_label(label.drop_last())
    }
}

fn find_parent(label: &str) -> (r: Option<String>)
    ensures
        crate::text::optional_text(r) == parent_label(label@),
{
    let chars = chars_of(label);
    let mut end: usize = chars.len();
    assert(chars@.take(end as int) =~= label@);
    while end > 0
        invariant
            end <= chars.len(),
            parent_label(label@) == parent_label(chars@.take(end as int)),
        decreases end,
    {
        assert(chars@.take(end as int).last() == chars@[end - 1]);
        assert(chars@.take(end as int).drop_last() =~= chars@.take(end - 1));
        if chars[end - 1] == '.' {
            let head = part(chars.as_slice(), 0, end - 1);
            assert(head@ =~= chars@.take(end - 1));
            return Some(text_of(head.as_slice()));
        }
        end -= 1;
    }
    None
}

/// The parent that all labels name, if they name one.
pub open spec fn common_parent(labels: Seq<Seq<char>>) -> Option<Seq<char>> {
    if labels.len() > 0 && forall|i: int|
        0 <= i < labels.len() ==> parent_label(#[trigger] labels[i]) == parent_label(labels[0]) {
        parent_label(labels[0])
    } else {
        None
    }
}

/// The label of the root of a one-level tree: the one that is asked for, or the
/// one that the labels of the leaves name, or another.
pub open spec fn root_label(
    labels: Seq<Seq<char>>,
    explicit: Option<Seq<char>>,
    fallback: Seq<char>,
) -> Seq<char> {
    match explicit {
        Some(label) => label,
        None => match common_parent(labels) {
            Some(label) => label,
            None => fallback,
        },
    }
}

fn find_common_parent(labels: &[String]) -> (r: Option<String>)
    ensures
        crate::text::optional_text(r) == common_parent(text_views(labels@)),
{
    let ghost views = text_views(labels@);
    if labels.len() == 0 {
        return None;
    }
    assert(views[0] == labels@[0]@);
    let first = find_parent(labels[0].as_str());
    let mut i: usize = 1;
    while i < labels.len()
        invariant
            1 <= i <= labels@.len(),
            views == text_views(labels@),
            crate::text::optional_text(first) == parent_label(views[0]),
            forall|k: int| 0 <= k < i ==> parent_label(#[trigger] views[k]) == parent_label(views[0]),
        decreases labels.len() - i,
    {
        assert(views[i as int] == labels@[i as int]@);
        let parent = find_parent(labels[i].as_str());
        if !crate::text::same_optional_text(&first, &parent) {
            return None;
        }
        i += 1;
    }
    first
}

/// The label of the root of a one-level tree. One without a label is refused.
pub fn infer_root_label(labels: &[String], explicit: Option<&str>, fallback: &str) -> (r: Result<
    String,
    Error,
>)
    ensures
        ({
            let label = root_label(text_views(labels@), lent_text(explicit), fallback@);
            match r {
                Ok(text) => text@ == label && label.len() > 0,
                Err(e) => label.len() == 0 && e == Error::InvalidTreeSpec,
            }
        }),
{
    let label = match explicit {
        Some(label) => label.to_owned(),
        None => match find_common_parent(labels) {
            Some(label) => label,
            None => fallback.to_owned(),
        },
    };
    if label.as_str().is_empty() {
        return Err(Error::InvalidTreeSpec);
    }
    Ok(label)
}

/// A whole number above zero, or what is wrong with the text.
pub open spec fn positive(value: Seq<char>) -> Result<int, Seq<char>> {
    match integer_of(value) {
        Some(n) => if n < i64::MIN || n > i64::MAX {
            Err("must be a positive integer"@)
        } else if n > 0 {
            Ok(n)
        } else {
            Err("must be greater than zero"@)
        },
        None => Err("must be a positive integer"@),
    }
}

/// Reads a whole number above zero.
pub fn parse_positive_i64(value: &str) -> (r: Result<i64, String>)
    ensures
        match r {
            Ok(n) => positive(value@) == Ok::<int, Seq<char>>(n as int),
            Err(message) => positive(value@) == Err::<int, Seq<char>>(message@),
        },
{
    match parse_integer(value) {
        Some(n) => if n > 0 {
            Ok(n)
        } else {
            Err("must be greater than zero".to_owned())
        },
        None => Err("must be a positive integer".to_owned()),
    }
}

/// How many leaves are needed, where the command line does not say: all of them,
/// as far as a byte can count.
pub fn leaf_threshold(asked: Option<i64>, leaves: usize) -> (r: u8)
    ensures
        r == (match asked {
            Some(n) => if 0 <= n <= 255 {
                n as int
            } else {
                0
            },
            None => if leaves <= 255 {
                leaves as int
            } else {
                255
            },
        }),
{
    match asked {
        Some(n) => if 0 <= n && n <= 255 {
            n as u8
        } else {
            0
        },
        None => if leaves <= 255 {
            leaves as u8
        } else {
            255
        },
    }
}

/// The leaf is the one that is meant: of the secret, where one is named, and with
/// the label, where one is given.
pub open spec fn leaf_meant(
    leaf: HardwareLeafView,
    key_id: Option<i64>,
    label: Option<Seq<char>>,
) -> bool {
    (key_id matches Some(id) ==> leaf.key_id == id) && (label matches Some(text) ==> leaf.label
        == text)
}

/// The leaves that are meant.
pub open spec fn leaves_meant(
    leaves: Seq<HardwareLeafView>,
    key_id: Option<i64>,
    label: Option<Seq<char>>,
) -> Seq<HardwareLeafView>
    decreases leaves.len(),
{
    if leaves.len() == 0 {
        Seq::empty()
    } else {
        let before = leaves_meant(leaves.drop_last(), key_id, label);
        if leaf_meant(leaves.last(), key_id, label) {
            before.push(leaves.last())
        } else {
            before
        }
    }
}

/// The leaf that a key backs and that is to be evicted. Where the key backs
/// several, the leaf has to be named.
pub fn eviction_target(
    trees: &TreeStore,
    hardware_key_id: i64,
    key_id: Option<i64>,
    label: Option<&str>,
) -> (r: Result<HardwareLeafRef, Error>)
    ensures
        ({
            let meant = leaves_meant(
                all_leaves_on(trees@.keys, trees@.nodes, hardware_key_id),
                key_id,
                lent_text(label),
            );
            match r {
                Ok(leaf) => meant == seq![leaf@],
                Err(e) => meant.len() != 1 && e == (if meant.len() == 0 {
                    Error::NodeNotFound
                } else {
                    Error::CannotEvict
                }),
            }
        }),
{
    let leaves = active_leaves_for_hardware(trees, hardware_key_id);
    let ghost views = leaf_views(leaves@);
    let ghost text = lent_text(label);
    let mut found: Vec<HardwareLeafRef> = Vec::new();
    let mut i: usize = 0;
    assert(views.take(0) =~= Seq::<HardwareLeafView>::empty());
    assert(leaf_views(found@) =~= Seq::<HardwareLeafView>::empty());
    while i < leaves.len()
        invariant
            i <= leaves.len(),
            views == leaf_views(leaves@),
            text == lent_text(label),
            leaf_views(found@) == leaves_meant(views.take(i as int), key_id, text),
        decreases leaves.len() - i,
    {
        proof {
            assert(views[i as int] == leaves@[i as int]@);
            assert(views.take(i + 1).drop_last() =~= views.take(i as int));
            assert(views.take(i + 1).last() == views[i as int]);
        }
        let right_key = match key_id {
            Some(id) => leaves[i].key_id == id,
            None => true,
        };
        let right_label = match label {
            Some(label) => text_equal(leaves[i].label.as_str(), label),
            None => true,
        };
        if right_key && right_label {
            let ghost before = leaf_views(found@);
            let leaf = HardwareLeafRef {
                key_id: leaves[i].key_id,
                node_id: leaves[i].node_id,
                label: leaves[i].label.as_str().to_owned(),
            };
            let ghost added = leaf@;
            found.push(leaf);
            assert(leaf_views(found@) =~= before.push(added));
        }
        i += 1;
    }
    assert(views.take(i as int) =~= views);
    let count: usize = found.len();
    match found.pop() {
        None => Err(Error::NodeNotFound),
        Some(leaf) => if count == 1 {
            assert(leaves_meant(views, key_id, text) =~= seq![leaf@]);
            Ok(leaf)
        } else {
            Err(Error::CannotEvict)
        },
    }
}

/// Some of the first rows is an active leaf of the secret that is sealed to the key.
pub open spec fn sealed_among(
    nodes: Seq<NodeRowView>,
    n: int,
    keys: Seq<HardwareKeyView>,
    key_id: i64,
    public_key: Seq<u8>,
    id: i64,
) -> bool {
    exists|i: int|
        0 <= i < n && (#[trigger] nodes[i]).id == id && sealed_to(
            nodes[i],
            keys,
            key_id,
            public_key,
        )
}

proof fn lemma_opened(
    nodes: Seq<NodeRowView>,
    n: nat,
    keys: Seq<HardwareKeyView>,
    key_id: i64,
    secret: Seq<u8>,
)
    requires
        n <= nodes.len(),
    ensures
        opened(nodes, n, keys, key_id, secret) is Ok <==> forall|i: int|
            0 <= i < n && sealed_to(#[trigger] nodes[i], keys, key_id, box_public_key(secret))
                ==> leaf_share(nodes, keys, nodes[i].id, secret) is Ok,
        opened(nodes, n, keys, key_id, secret) matches Ok(shares) ==> forall|id: i64|
            (#[trigger] shares.contains_key(id) <==> sealed_among(
                nodes,
                n as int,
                keys,
                key_id,
                box_public_key(secret),
                id,
            )) && (shares.contains_key(id) ==> leaf_share(nodes, keys, id, secret) == Ok::<
                Seq<u8>,
                Error,
            >(shares[id])),
    decreases n,
{
    let public_key = box_public_key(secret);
    if n > 0 {
        let m = (n - 1) as nat;
        lemma_opened(nodes, m, keys, key_id, secret);
        let row = nodes[n - 1];
        if opened(nodes, n, keys, key_id, secret) is Ok {
            let shares = opened(nodes, n, keys, key_id, secret)->Ok_0;
            let before = opened(nodes, m, keys, key_id, secret)->Ok_0;
            assert forall|id: i64|
                (#[trigger] shares.contains_key(id) <==> sealed_among(
                    nodes,
                    n as int,
                    keys,
                    key_id,
                    public_key,
                    id,
                )) && (shares.contains_key(id) ==> leaf_share(nodes, keys, id, secret) == Ok::<
                    Seq<u8>,
                    Error,
                >(shares[id])) by {
                if before.contains_key(id) {
                    let i = choose|i: int|
                        0 <= i < m && (#[trigger] nodes[i]).id == id && sealed_to(
                            nodes[i],
                            keys,
                            key_id,
                            public_key,
                        );
                    assert(nodes[i].id == id);
                }
                if sealed_among(nodes, n as int, keys, key_id, public_key, id) {
                    let i = choose|i: int|
                        0 <= i < n && (#[trigger] nodes[i]).id == id && sealed_to(
                            nodes[i],
                            keys,
                            key_id,
                            public_key,
                        );
                    if i < m {
                        assert(sealed_among(nodes, m as int, keys, key_id, public_key, id));
                    }
                }
            }
        }
    } else {
        assert forall|id: i64| !sealed_among(nodes, 0, keys, key_id, public_key, id) by {}
    }
}

/// A secret key opens the shares of exactly the active leaves of the secret that are sealed
/// to it, each to what the leaf's own share opens to. It opens none of them where one does
/// not open, and is no key of the tree where no leaf is sealed to it.
pub proof fn secret_key_opens_its_leaves(
    s: TreeStoreView,
    keys: Seq<HardwareKeyView>,
    key_id: i64,
    secret: Seq<u8>,
    id: i64,
)
    requires
        secret.len() == 32,
    ensures
        ({
            let n = s.nodes.len() as int;
            let r = opened_by(s, keys, key_id, secret);
            let own = box_public_key(secret);
            &&& r is Ok <==> {
                &&& exists|i: int| 0 <= i < n && sealed_to(#[trigger] s.nodes[i], keys, key_id, own)
                &&& forall|i: int|
                    0 <= i < n && sealed_to(#[trigger] s.nodes[i], keys, key_id, own) ==> leaf_share(
                        s.nodes,
                        keys,
                        s.nodes[i].id,
                        secret,
                    ) is Ok
            }
            &&& r matches Ok(shares) ==> {
                &&& shares.contains_key(id) <==> sealed_among(s.nodes, n, keys, key_id, own, id)
                &&& shares.contains_key(id) ==> leaf_share(s.nodes, keys, id, secret) == Ok::<
                    Seq<u8>,
                    Error,
                >(shares[id])
            }
            &&& !(exists|i: int|
                0 <= i < n && sealed_to(#[trigger] s.nodes[i], keys, key_id, own)) ==> fault_of(r)
                == Some(Error::SealedKeyNotHeld)
        }),
{
    let n = s.nodes.len();
    let own = box_public_key(secret);
    lemma_opened(s.nodes, n, keys, key_id, secret);
    if let Ok(shares) = opened(s.nodes, n, keys, key_id, secret) {
        if exists|i: int|
            0 <= i < n && sealed_to(#[trigger] s.nodes[i], keys, key_id, own) {
            let i = choose|i: int|
                0 <= i < n && sealed_to(#[trigger] s.nodes[i], keys, key_id, own);
            assert(sealed_among(s.nodes, n as int, keys, key_id, own, s.nodes[i].id));
            assert(shares.contains_key(s.nodes[i].id));
            assert(shares.dom().contains(s.nodes[i].id));
        } else {
            assert forall|k: i64| !shares.dom().contains(k) by {
                assert(shares.contains_key(k) <==> sealed_among(
                    s.nodes,
                    n as int,
                    keys,
                    key_id,
                    own,
                    k,
                ));
            }
            assert(shares.dom() =~= Set::empty());
        }
    }
}

/// A blank entry is no share, and any other has to be hexadecimal, white space aside.
pub proof fn typed_shares(entered: Seq<char>)
    ensures
        trimmed(entered).len() == 0 ==> share_typed(entered) == Ok::<Option<Seq<u8>>, Seq<char>>(
            None,
        ),
        trimmed(entered).len() > 0 ==> (share_typed(entered) is Ok <==> hex_bytes(trimmed(entered))
            is Some),
        trimmed(entered).len() > 0 && share_typed(entered) is Ok ==> share_typed(entered) == Ok::<
            Option<Seq<u8>>,
            Seq<char>,
        >(hex_bytes(trimmed(entered))),
{
}

/// The secret key's file is named as the public key's, with another ending. A name that is
/// not that of a public key names none.
pub proof fn secret_key_stands_beside(stem: Seq<char>, path: Seq<char>)
    ensures
        secret_beside(stem + ".pub"@) == Some(stem + ".key"@),
        secret_beside(path) is Some ==> exists|s: Seq<char>| path == #[trigger] (s + ".pub"@),
{
    reveal_strlit(".pub");
    let whole = stem + ".pub"@;
    assert(whole.skip(whole.len() - 4) =~= ".pub"@);
    assert(whole.take(whole.len() - 4) =~= stem);
    if secret_beside(path) is Some {
        let s = path.take(path.len() - 4);
        assert(path =~= s + ".pub"@);
    }
}

proof fn lemma_no_equals(s: Seq<char>)
    requires
        !s.contains('='),
    ensures
        equals_place(s) is None,
    decreases s.len(),
{
    if s.len() > 0 {
        assert forall|i: int| 0 <= i < s.len() - 1 implies s.drop_last()[i] != '=' by {
            assert(s.contains(s[i]));
        }
        lemma_no_equals(s.drop_last());
        assert(s.contains(s.last()));
    }
}

proof fn lemma_first_equals(a: Seq<char>, b: Seq<char>)
    requires
        !a.contains('='),
    ensures
        equals_place(a.push('=') + b) == Some(a.len() as int),
    decreases b.len(),
{
    let all = a.push('=') + b;
    if b.len() > 0 {
        assert(all.drop_last() =~= a.push('=') + b.drop_last());
        lemma_first_equals(a, b.drop_last());
    } else {
        assert(all.drop_last() =~= a);
        lemma_no_equals(a);
    }
}

/// The first equals sign parts the two sides of an entry.
pub proof fn equals_sign_parts_the_sides(left: Seq<char>, right: Seq<char>)
    requires
        !left.contains('='),
    ensures
        sides(left.push('=') + right) == Some((left, right)),
        sides(left) is None,
{
    let all = left.push('=') + right;
    lemma_first_equals(left, right);
    lemma_no_equals(left);
    assert(all.take(left.len() as int) =~= left);
    assert(all.skip(left.len() as int + 1) =~= right);
}

/// The last dot parts a label from its parent's. A label without a dot names no parent.
pub proof fn last_dot_parts_the_parent(parent: Seq<char>, name: Seq<char>)
    requires
        !name.contains('.'),
    ensures
        parent_label(parent.push('.') + name) == Some(parent),
        parent_label(name) is None,
    decreases name.len(),
{
    let all = parent.push('.') + name;
    if name.len() > 0 {
        let short = name.drop_last();
        assert forall|i: int| 0 <= i < short.len() implies short[i] != '.' by {
            assert(name.contains(name[i]));
        }
        assert(name.contains(name.last()));
        last_dot_parts_the_parent(parent, short);
        assert(all.drop_last() =~= parent.push('.') + short);
        assert(all.last() == name.last());
    } else {
        assert(all =~= parent.push('.'));
        assert(all.drop_last() =~= parent);
    }
}

/// The root is labelled as was asked, or else as the parent that every leaf's label names,
/// or else otherwise.
pub proof fn root_is_labelled_so(
    labels: Seq<Seq<char>>,
    asked: Seq<char>,
    parent: Seq<char>,
    fallback: Seq<char>,
)
    ensures
        root_label(labels, Some(asked), fallback) == asked,
        labels.len() > 0 && (forall|i: int|
            0 <= i < labels.len() ==> parent_label(#[trigger] labels[i]) == Some(parent))
            ==> root_label(labels, None, fallback) == parent,
        labels.len() == 0 ==> root_label(labels, None, fallback) == fallback,
        (exists|i: int, j: int|
            0 <= i < labels.len() && 0 <= j < labels.len() && parent_label(#[trigger] labels[i])
                != parent_label(#[trigger] labels[j])) ==> root_label(labels, None, fallback)
            == fallback,
        (exists|i: int| 0 <= i < labels.len() && parent_label(#[trigger] labels[i]) is None)
            ==> root_label(labels, None, fallback) == fallback,
{
    if labels.len() > 0 {
        assert(parent_label(labels[0]) == parent_label(labels[0]));
    }
}

/// A number is taken exactly if 64 bits hold it and it is above zero.
pub proof fn numbers_above_zero(value: Seq<char>)
    ensures
        positive(value) is Ok <==> (integer_of(value) matches Some(n) && 1 <= n
            <= 9223372036854775807),
        positive(value) matches Ok(n) ==> integer_of(value) == Some(n),
        positive(value) is Err && (integer_of(value) matches Some(n) && i64::MIN <= n
            <= i64::MAX) ==> positive(value) == Err::<int, Seq<char>>("must be greater than zero"@),
{
}

/// The leaves that are meant are those of the secret and with the label, where these are
/// given, in order.
pub proof fn leaves_are_meant_by_secret_and_label(
    leaves: Seq<HardwareLeafView>,
    key_id: Option<i64>,
    label: Option<Seq<char>>,
)
    ensures
        leaves_meant(leaves, key_id, label) == leaves.filter(
            |leaf: HardwareLeafView|
                (key_id is None || key_id == Some(leaf.key_id)) && (label is None || label == Some(
                    leaf.label,
                )),
        ),
    decreases leaves.len(),
{
    reveal(Seq::filter);
    let pred = |leaf: HardwareLeafView|
        (key_id is None || key_id == Some(leaf.key_id)) && (label is None || label == Some(
            leaf.label,
        ));
    if leaves.len() > 0 {
        leaves_are_meant_by_secret_and_label(leaves.drop_last(), key_id, label);
        assert(leaf_meant(leaves.last(), key_id, label) <==> pred(leaves.last()));
    } else {
        assert(leaves.filter(pred) =~= Seq::<HardwareLeafView>::empty());
    }
}

/// A leaf is sealed to a key for a secret exactly if it is an active one of that secret, and
/// the registered key that it names has the public key.
pub proof fn leaf_is_sealed_to_its_key(
    row: NodeRowView,
    keys: Seq<HardwareKeyView>,
    key_id: i64,
    public_key: Seq<u8>,
)
    requires
        registry_wf(keys),
    ensures
        sealed_to(row, keys, key_id, public_key) <==> {
            &&& row.key_id == key_id
            &&& row.is_active
            &&& exists|k: int|
                0 <= k < keys.len() && row.hardware_key_id == Some((#[trigger] keys[k]).id)
                    && keys[k].public_key == public_key
        },
{
    if let Some(id) = row.hardware_key_id {
        if key_place(keys, id) is Some {
            let j = key_place(keys, id)->0;
            assert(keys[j].id == id);
            assert forall|k: int| 0 <= k < keys.len() && (#[trigger] keys[k]).id == id implies k
                == j by {}
        }
    }
}

} // verus!
