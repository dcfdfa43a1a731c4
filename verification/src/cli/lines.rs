//! What the commands print, line by line.

use vstd::prelude::*;

use crate::key_tree::listing::{TreeNodeSummary, TreeSummary};
use crate::keys::{HardwareKey, HardwareKeyView, KeyType};
use crate::numbers::{decimal_text, digit, integer_text, push_count, push_integer};
use crate::quorum::FileStatus;
use crate::sharing::Share;
use crate::text::{
    chars_of, concat, joined, joined_texts_are_the_pieces, one_of, optional_text, pieces, push_text,
    text_of, text_views,
};
use crate::vault::{Credential, CredentialView};

verus! {

/// Appends a line.
pub fn push_line(lines: &mut Vec<String>, line: String)
    ensures
        text_views(final(lines)@) == text_views(old(lines)@).push(line@),
{
    let ghost before = text_views(lines@);
    let ghost added = line@;
    lines.push(line);
    assert(text_views(lines@) =~= before.push(added));
}

/// A single line.
pub fn single(line: String) -> (r: Vec<String>)
    ensures
        text_views(r@) == seq![line@],
{
    let mut lines: Vec<String> = Vec::new();
    let ghost none = text_views(lines@);
    assert(none =~= Seq::<Seq<char>>::empty());
    push_line(&mut lines, line);
    assert(none.push(line@) =~= seq![line@]);
    lines
}

/// A text, and a number behind it.
pub fn numbered(text: &str, n: i64) -> (r: String)
    ensures
        r@ == text@ + integer_text(n as int),
{
    let mut out = chars_of(text);
    push_integer(&mut out, n);
    text_of(out.as_slice())
}

/// What is told of a share that was just made.
pub open spec fn share_told(share: Share) -> Seq<Seq<char>> {
    seq![
        "Share id:   "@ + integer_text(share.id as int),
        "Token:      "@ + share.token@,
        "Expires at: "@ + share.expires_at@,
    ]
}

/// What is told of a share that was just made.
pub fn share_lines(share: &Share) -> (r: Vec<String>)
    ensures
        text_views(r@) == share_told(*share),
{
    let mut lines = single(numbered("Share id:   ", share.id));
    push_line(&mut lines, concat("Token:      ", share.token.as_str()));
    push_line(&mut lines, concat("Expires at: ", share.expires_at.as_str()));
    assert(text_views(lines@) =~= share_told(*share));
    lines
}

/// A text, or a hyphen where there is none.
pub open spec fn or_hyphen(text: Option<Seq<char>>) -> Seq<char> {
    match text {
        Some(text) => text,
        None => "-"@,
    }
}

/// Appends a text, or another one where there is none.
pub fn push_or(out: &mut Vec<char>, text: &Option<String>, other: &str)
    ensures
        final(out)@ == old(out)@ + (match optional_text(*text) {
            Some(text) => text,
            None => other@,
        }),
{
    match text {
        Some(text) => push_text(out, text.as_str()),
        None => push_text(out, other),
    }
}

/// What is told of a credential.
pub open spec fn credential_told(credential: CredentialView) -> Seq<Seq<char>> {
    seq![
        "Label:    "@ + credential.label,
        "Username: "@ + or_hyphen(credential.username),
        "Password: "@ + credential.password,
    ]
}

/// What is told of a credential.
pub fn credential_lines(credential: &Credential) -> (r: Vec<String>)
    ensures
        text_views(r@) == credential_told(credential@),
{
    let mut lines = single(concat("Label:    ", credential.label.as_str()));
    let mut username = chars_of("Username: ");
    push_or(&mut username, &credential.username, "-");
    push_line(&mut lines, text_of(username.as_slice()));
    push_line(&mut lines, concat("Password: ", credential.password.as_str()));
    assert(text_views(lines@) =~= credential_told(credential@));
    lines
}

/// The name of a kind of key in a list.
pub open spec fn kind_name(key_type: KeyType) -> Seq<char> {
    match key_type {
        KeyType::Encryption => "Encryption"@,
        KeyType::Signing => "Signing"@,
    }
}

/// The line of a registered key, with tabs between its columns.
pub open spec fn key_told(key: HardwareKeyView) -> Seq<char> {
    integer_text(key.id as int) + "\t"@ + key.label + "\t"@ + kind_name(key.key_type) + "\t"@
        + key.fingerprint + "\t"@ + or_hyphen(key.revoked_at)
}

/// The line of a registered key.
pub fn key_line(key: &HardwareKey) -> (r: String)
    ensures
        r@ == key_told(key@),
{
    let mut out: Vec<char> = Vec::new();
    push_integer(&mut out, key.id);
    push_text(&mut out, "\t");
    push_text(&mut out, key.label.as_str());
    push_text(&mut out, "\t");
    push_text(
        &mut out,
        match key.key_type {
            KeyType::Encryption => "Encryption",
            KeyType::Signing => "Signing",
        },
    );
    push_text(&mut out, "\t");
    push_text(&mut out, key.fingerprint.as_str());
    push_text(&mut out, "\t");
    push_or(&mut out, &key.revoked_at, "-");
    assert(out@ =~= key_told(key@));
    text_of(out.as_slice())
}

/// The line of a node: the key behind a leaf, or how many of how many children
/// are needed.
pub open spec fn node_told(node: TreeNodeSummary, indent: Seq<char>) -> Seq<char> {
    let head = indent + node.label@ + " (node "@ + integer_text(node.id as int);
    match node.hardware_key_label {
        Some(label) => head + ") -> hardware key "@ + integer_text(
            match node.hardware_key_id {
                Some(id) => id as int,
                None => -1,
            },
        ) + " ("@ + label@ + ")"@,
        None => head + ") ["@ + integer_text(
            match node.threshold {
                Some(threshold) => threshold as int,
                None => 0,
            },
        ) + " of "@ + integer_text(node.children@.len() as int) + "]"@,
    }
}

/// The lines of a node and of everything below it, each level two spaces further
/// in.
pub open spec fn nodes_told(node: TreeNodeSummary, indent: Seq<char>) -> Seq<Seq<char>>
    decreases node, node.children@.len() + 1,
{
    seq![node_told(node, indent)] + children_told(node, indent, node.children@.len())
}

/// The lines below the first `n` children.
pub open spec fn children_told(node: TreeNodeSummary, indent: Seq<char>, n: nat) -> Seq<
    Seq<char>,
>
    decreases node, n,
    when n <= node.children@.len()
{
    if n == 0 {
        Seq::empty()
    } else {
        children_told(node, indent, (n - 1) as nat) + nodes_told(
            node.children@[n - 1],
            indent + "  "@,
        )
    }
}

fn node_line(node: &TreeNodeSummary, indent: &str) -> (r: String)
    ensures
        r@ == node_told(*node, indent@),
{
    let mut out = chars_of(indent);
    push_text(&mut out, node.label.as_str());
    push_text(&mut out, " (node ");
    push_integer(&mut out, node.id);
    match &node.hardware_key_label {
        Some(label) => {
            push_text(&mut out, ") -> hardware key ");
            let id: i64 = match node.hardware_key_id {
                Some(id) => id,
                None => -1,
            };
            push_integer(&mut out, id);
            push_text(&mut out, " (");
            push_text(&mut out, label.as_str());
            push_text(&mut out, ")");
        },
        None => {
            push_text(&mut out, ") [");
            let threshold: i64 = match node.threshold {
                Some(threshold) => threshold,
                None => 0,
            };
            push_integer(&mut out, threshold);
            push_text(&mut out, " of ");
            push_count(&mut out, node.children.len());
            push_text(&mut out, "]");
        },
    }
    assert(out@ =~= node_told(*node, indent@));
    text_of(out.as_slice())
}

/// Appends the lines of a node and of everything below it.
pub fn push_node_lines(lines: &mut Vec<String>, node: &TreeNodeSummary, indent: &str)
    ensures
        text_views(final(lines)@) == text_views(old(lines)@) + nodes_told(*node, indent@),
    decreases *node,
{
    let ghost before = text_views(lines@);
    push_line(lines, node_line(node, indent));
    let ghost top = node_told(*node, indent@);
    let further = concat(indent, "  ");
    let mut i: usize = 0;
    assert(text_views(lines@) =~= before + (seq![top] + children_told(*node, indent@, 0)));
    while i < node.children.len()
        invariant
            i <= node.children.len(),
            further@ == indent@ + "  "@,
            text_views(lines@) == before + (seq![top] + children_told(
                *node,
                indent@,
                i as nat,
            )),
        decreases node.children.len() - i,
    {
        proof {
            assert(decreases_to!(*node => node.children@[i as int]));
        }
        push_node_lines(lines, &node.children[i], further.as_str());
        i += 1;
        assert(text_views(lines@) =~= before + (seq![top] + children_told(
            *node,
            indent@,
            i as nat,
        )));
    }
}

/// What is told of a tree.
pub open spec fn tree_told(summary: TreeSummary) -> Seq<Seq<char>> {
    seq![summary.label@ + " (key "@ + integer_text(summary.key_id as int) + ")"@] + nodes_told(
        summary.root,
        Seq::empty(),
    )
}

fn titled(label: &str, kind: &str, id: i64) -> (r: String)
    ensures
        r@ == label@ + kind@ + integer_text(id as int) + ")"@,
{
    let mut out = chars_of(label);
    push_text(&mut out, kind);
    push_integer(&mut out, id);
    push_text(&mut out, ")");
    text_of(out.as_slice())
}

/// What is told of a tree.
pub fn tree_lines(summary: &TreeSummary) -> (r: Vec<String>)
    ensures
        text_views(r@) == tree_told(*summary),
{
    let mut lines = single(titled(summary.label.as_str(), " (key ", summary.key_id));
    proof {
        reveal_strlit("");
        assert(""@ =~= Seq::<char>::empty());
    }
    push_node_lines(&mut lines, &summary.root, "");
    lines
}

/// What is told of a file that a quorum guards.
pub open spec fn status_told(status: FileStatus) -> Seq<Seq<char>> {
    seq![
        status.name@ + " (file "@ + integer_text(status.id as int) + ")"@,
        "Encrypted path: "@ + status.encrypted_path@,
        "Created at:     "@ + status.created_at@,
    ] + nodes_told(status.tree.root, Seq::empty())
}

/// What is told of a file that a quorum guards.
pub fn status_lines(status: &FileStatus) -> (r: Vec<String>)
    ensures
        text_views(r@) == status_told(*status),
{
    let mut lines = single(titled(status.name.as_str(), " (file ", status.id));
    push_line(&mut lines, concat("Encrypted path: ", status.encrypted_path.as_str()));
    push_line(&mut lines, concat("Created at:     ", status.created_at.as_str()));
    let ghost head = text_views(lines@);
    assert(head =~= seq![
        status.name@ + " (file "@ + integer_text(status.id as int) + ")"@,
        "Encrypted path: "@ + status.encrypted_path@,
        "Created at:     "@ + status.created_at@,
    ]);
    proof {
        reveal_strlit("");
        assert(""@ =~= Seq::<char>::empty());
    }
    push_node_lines(&mut lines, &status.tree.root, "");
    lines
}

/// A leaf that a share is asked for.
#[derive(Debug)]
pub struct LeafEntry {
    pub node_id: i64,
    pub hardware_key_id: i64,
    pub label: String,
}

#[verifier::ext_equal]
pub struct LeafEntryView {
    pub node_id: i64,
    pub hardware_key_id: i64,
    pub label: Seq<char>,
}

impl View for LeafEntry {
    type V = LeafEntryView;

    open spec fn view(&self) -> LeafEntryView {
        LeafEntryView {
            node_id: self.node_id,
            hardware_key_id: self.hardware_key_id,
            label: self.label@,
        }
    }
}

pub open spec fn leaf_views(leaves: Seq<LeafEntry>) -> Seq<LeafEntryView> {
    Seq::new(leaves.len(), |i: int| leaves[i]@)
}

/// The leaves at and below a node, from left to right.
pub open spec fn leaves_of(node: TreeNodeSummary) -> Seq<LeafEntryView>
    decreases node, node.children@.len() + 1,
{
    let own = match node.hardware_key_id {
        Some(hardware_key_id) => seq![
            LeafEntryView { node_id: node.id, hardware_key_id, label: node.label@ },
        ],
        None => Seq::empty(),
    };
    own + leaves_below(node, node.children@.len())
}

/// The leaves at and below the first `n` children.
pub open spec fn leaves_below(node: TreeNodeSummary, n: nat) -> Seq<LeafEntryView>
    decreases node, n,
    when n <= node.children@.len()
{
    if n == 0 {
        Seq::empty()
    } else {
        leaves_below(node, (n - 1) as nat) + leaves_of(node.children@[n - 1])
    }
}

/// Appends the leaves at and below a node.
pub fn collect_leaves(node: &TreeNodeSummary, out: &mut Vec<LeafEntry>)
    ensures
        leaf_views(final(out)@) == leaf_views(old(out)@) + leaves_of(*node),
    decreases *node,
{
    let ghost before = leaf_views(out@);
    let ghost own = match node.hardware_key_id {
        Some(hardware_key_id) => seq![
            LeafEntryView { node_id: node.id, hardware_key_id, label: node.label@ },
        ],
        None => Seq::empty(),
    };
    if let Some(hardware_key_id) = node.hardware_key_id {
        out.push(
            LeafEntry { node_id: node.id, hardware_key_id, label: node.label.as_str().to_owned() },
        );
    }
    let mut i: usize = 0;
    assert(leaf_views(out@) =~= before + (own + leaves_below(*node, 0)));
    while i < node.children.len()
        invariant
            i <= node.children.len(),
            leaf_views(out@) == before + (own + leaves_below(*node, i as nat)),
        decreases node.children.len() - i,
    {
        proof {
            assert(decreases_to!(*node => node.children@[i as int]));
        }
        collect_leaves(&node.children[i], out);
        i += 1;
        assert(leaf_views(out@) =~= before + (own + leaves_below(*node, i as nat)));
    }
}

proof fn lemma_leaves_below(node: TreeNodeSummary, n: nat, leaf: LeafEntryView)
    requires
        n <= node.children@.len(),
    ensures
        leaves_below(node, n).contains(leaf) <==> exists|k: int|
            0 <= k < n && leaves_of(#[trigger] node.children@[k]).contains(leaf),
    decreases n,
{
    let all = leaves_below(node, n);
    if n > 0 {
        lemma_leaves_below(node, (n - 1) as nat, leaf);
        let before = leaves_below(node, (n - 1) as nat);
        let own = leaves_of(node.children@[n - 1]);
        if all.contains(leaf) {
            let i = choose|i: int| 0 <= i < all.len() && all[i] == leaf;
            if i < before.len() {
                assert(before[i] == leaf);
            } else {
                assert(own[i - before.len()] == leaf);
                assert(own.contains(leaf));
            }
        }
        if before.contains(leaf) {
            let i = choose|i: int| 0 <= i < before.len() && before[i] == leaf;
            assert(all[i] == leaf);
        }
        if own.contains(leaf) {
            let i = choose|i: int| 0 <= i < own.len() && own[i] == leaf;
            assert(all[before.len() + i] == leaf);
        }
    } else {
        assert(!all.contains(leaf));
    }
}

/// A share is asked for of every node that a key backs, at whatever depth, and of no other.
pub proof fn every_leaf_is_asked(node: TreeNodeSummary, leaf: LeafEntryView)
    ensures
        leaves_of(node).contains(leaf) <==> {
            ||| node.hardware_key_id == Some(leaf.hardware_key_id) && node.id == leaf.node_id
                && node.label@ == leaf.label
            ||| exists|k: int|
                0 <= k < node.children@.len() && leaves_of(
                    #[trigger] node.children@[k],
                ).contains(leaf)
        },
{
    let all = leaves_of(node);
    let below = leaves_below(node, node.children@.len());
    lemma_leaves_below(node, node.children@.len(), leaf);
    let own = match node.hardware_key_id {
        Some(hardware_key_id) => seq![
            LeafEntryView { node_id: node.id, hardware_key_id, label: node.label@ },
        ],
        None => Seq::empty(),
    };
    assert(all == own + below);
    if all.contains(leaf) {
        let i = choose|i: int| 0 <= i < all.len() && all[i] == leaf;
        if i >= own.len() {
            assert(below[i - own.len()] == leaf);
            assert(below.contains(leaf));
        }
    }
    if below.contains(leaf) {
        let i = choose|i: int| 0 <= i < below.len() && below[i] == leaf;
        assert(all[own.len() + i] == leaf);
    }
    if node.hardware_key_id == Some(leaf.hardware_key_id) && node.id == leaf.node_id
        && node.label@ == leaf.label {
        assert(all[0] == leaf);
    }
}

/// A share that was made is told by its id, its token and its end, in three lines.
pub proof fn share_is_told_in_three_lines(share: Share)
    ensures
        share_told(share).len() == 3,
        share_told(share)[0] == "Share id:   "@ + integer_text(share.id as int),
        share_told(share)[1] == "Token:      "@ + share.token@,
        share_told(share)[2] == "Expires at: "@ + share.expires_at@,
{
}

/// A credential is told by its label, its username or a hyphen, and its password.
pub proof fn credential_is_told_in_three_lines(credential: CredentialView)
    ensures
        credential_told(credential).len() == 3,
        credential_told(credential)[0] == "Label:    "@ + credential.label,
        credential.username matches Some(name) ==> credential_told(credential)[1] == "Username: "@
            + name,
        credential.username is None ==> credential_told(credential)[1] == "Username: "@ + "-"@,
        credential_told(credential)[2] == "Password: "@ + credential.password,
{
}

/// The line of a registered key has five columns with tabs between them: its id, its label,
/// its kind, its fingerprint, and when it was revoked or a hyphen.
pub proof fn key_is_told_in_five_columns(key: HardwareKeyView)
    requires
        !key.label.contains('\t'),
        !key.fingerprint.contains('\t'),
        key.revoked_at matches Some(at) ==> !at.contains('\t'),
    ensures
        pieces(key_told(key), one_of(seq!['\t'])) == seq![
            integer_text(key.id as int),
            key.label,
            if key.key_type == KeyType::Encryption {
                "Encryption"@
            } else {
                "Signing"@
            },
            key.fingerprint,
            match key.revoked_at {
                Some(at) => at,
                None => "-"@,
            },
        ],
{
    reveal_strlit("-");
    reveal_strlit("Encryption");
    reveal_strlit("Signing");
    lemma_number_has_no_tab(key.id as int);
    lemma_five_columns(
        integer_text(key.id as int),
        key.label,
        kind_name(key.key_type),
        key.fingerprint,
        or_hyphen(key.revoked_at),
    );
}

proof fn lemma_five_columns(
    a: Seq<char>,
    b: Seq<char>,
    c: Seq<char>,
    d: Seq<char>,
    e: Seq<char>,
)
    requires
        !a.contains('\t'),
        !b.contains('\t'),
        !c.contains('\t'),
        !d.contains('\t'),
        !e.contains('\t'),
    ensures
        pieces(
            a + "\t"@ + b + "\t"@ + c + "\t"@ + d + "\t"@ + e,
            one_of(seq!['\t']),
        ) == seq![a, b, c, d, e],
{
    reveal_strlit("\t");
    let two = a + "\t"@ + b;
    let three = two + "\t"@ + c;
    let four = three + "\t"@ + d;
    let parts = seq![a, b, c, d, e];
    assert(joined(seq![a], '\t') == a);
    assert(seq![a, b].drop_last() =~= seq![a]);
    assert(joined(seq![a, b], '\t') =~= two);
    assert(seq![a, b, c].drop_last() =~= seq![a, b]);
    assert(joined(seq![a, b, c], '\t') =~= three);
    assert(seq![a, b, c, d].drop_last() =~= seq![a, b, c]);
    assert(joined(seq![a, b, c, d], '\t') =~= four);
    assert(parts.drop_last() =~= seq![a, b, c, d]);
    assert(joined(parts, '\t') =~= four + "\t"@ + e);
    joined_texts_are_the_pieces(parts, '\t');
}

proof fn lemma_number_has_no_tab(n: int)
    ensures
        !integer_text(n).contains('\t'),
{
    let m = if n < 0 {
        (-n) as nat
    } else {
        n as nat
    };
    lemma_digits_only(m);
    let digits = decimal_text(m);
    if integer_text(n).contains('\t') {
        let k = choose|k: int| 0 <= k < integer_text(n).len() && integer_text(n)[k] == '\t';
        if n < 0 {
            assert(k > 0);
            assert(digits[k - 1] == '\t');
        } else {
            assert(digits[k] == '\t');
        }
    }
}

proof fn lemma_digits_only(n: nat)
    ensures
        forall|i: int|
            0 <= i < decimal_text(n).len() ==> '0' <= #[trigger] decimal_text(n)[i] <= '9',
    decreases n,
{
    let all = decimal_text(n);
    if n >= 10 {
        lemma_digits_only(n / 10);
        let front = decimal_text(n / 10);
        assert(all == front.push(digit(n as int % 10)));
        assert forall|i: int| 0 <= i < all.len() implies '0' <= #[trigger] all[i] <= '9' by {
            if i < front.len() {
                assert(all[i] == front[i]);
            }
        }
    } else {
        assert(all == seq![digit(n as int)]);
    }
}

/// A leaf is told with the key behind it, and a split with how many of how many children it
/// needs, both with label and id.
pub proof fn nodes_are_told_so(node: TreeNodeSummary, indent: Seq<char>)
    ensures
        (node.hardware_key_label matches Some(label) && node.hardware_key_id is Some) ==> node_told(
            node,
            indent,
        ) == indent + node.label@ + " (node "@ + integer_text(node.id as int)
            + ") -> hardware key "@ + integer_text(node.hardware_key_id->0 as int) + " ("@
            + node.hardware_key_label->0@ + ")"@,
        node.hardware_key_label is None && node.threshold is Some ==> node_told(node, indent)
            == indent + node.label@ + " (node "@ + integer_text(node.id as int) + ") ["@
            + integer_text(node.threshold->0 as int) + " of "@ + integer_text(
            node.children@.len() as int,
        ) + "]"@,
{
}

proof fn lemma_children_told(node: TreeNodeSummary, indent: Seq<char>, n: nat, line: Seq<char>)
    requires
        n <= node.children@.len(),
    ensures
        children_told(node, indent, n).contains(line) <==> exists|k: int|
            0 <= k < n && nodes_told(#[trigger] node.children@[k], indent + "  "@).contains(line),
    decreases n,
{
    let all = children_told(node, indent, n);
    if n > 0 {
        lemma_children_told(node, indent, (n - 1) as nat, line);
        let before = children_told(node, indent, (n - 1) as nat);
        let own = nodes_told(node.children@[n - 1], indent + "  "@);
        if all.contains(line) {
            let i = choose|i: int| 0 <= i < all.len() && all[i] == line;
            if i < before.len() {
                assert(before[i] == line);
            } else {
                assert(own[i - before.len()] == line);
                assert(own.contains(line));
            }
        }
        if before.contains(line) {
            let i = choose|i: int| 0 <= i < before.len() && before[i] == line;
            assert(all[i] == line);
        }
        if own.contains(line) {
            let i = choose|i: int| 0 <= i < own.len() && own[i] == line;
            assert(all[before.len() + i] == line);
        }
    } else {
        assert(!all.contains(line));
    }
}

/// A node is told first, and then everything below it, two spaces further in.
pub proof fn whole_trees_are_told(node: TreeNodeSummary, indent: Seq<char>, line: Seq<char>)
    ensures
        nodes_told(node, indent).len() > 0,
        nodes_told(node, indent)[0] == node_told(node, indent),
        nodes_told(node, indent).contains(line) <==> {
            ||| line == node_told(node, indent)
            ||| exists|k: int|
                0 <= k < node.children@.len() && nodes_told(
                    #[trigger] node.children@[k],
                    indent + "  "@,
                ).contains(line)
        },
{
    let all = nodes_told(node, indent);
    let below = children_told(node, indent, node.children@.len());
    lemma_children_told(node, indent, node.children@.len(), line);
    assert(all == seq![node_told(node, indent)] + below);
    assert(all[0] == node_told(node, indent));
    if all.contains(line) {
        let i = choose|i: int| 0 <= i < all.len() && all[i] == line;
        if i > 0 {
            assert(below[i - 1] == line);
            assert(below.contains(line));
        }
    }
    if below.contains(line) {
        let i = choose|i: int| 0 <= i < below.len() && below[i] == line;
        assert(all[i + 1] == line);
    }
}

} // verus!
