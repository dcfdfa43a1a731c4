//! What a spec asks for, node by node: which specs are accepted, and which rows a
//! split stores for them.
//!
//! A node of a spec is known by the path that leads to it, the numbers of the
//! children to follow from the root down.

use vstd::prelude::*;

use crate::error::{fault_of, Error, StoreError};
use crate::key_tree::spec::{
    bridges_sound, children_bridges_sound, children_fault, children_labels, labels_distinct,
    node_fault, peers_sound, spec_fault, spec_labels, NodeSpec,
};
use crate::key_tree::split::{
    children_count, children_peers_repeat, node_count, peers_repeat, planned, planned_children,
    split_fault,
};
use crate::keys::{active_encryption_key, registry_wf, HardwareKeyView, KeyType};
use crate::text::text_views;

verus! {

/// The node that a path leads to, if it leads to one.
pub open spec fn node_along(spec: NodeSpec, path: Seq<int>) -> Option<NodeSpec>
    decreases path.len(),
{
    if path.len() == 0 {
        Some(spec)
    } else {
        match spec {
            NodeSpec::Leaf { .. } => None,
            NodeSpec::Split { children, .. } => if 0 <= path[0] < children@.len() {
                node_along(children@[path[0]], path.skip(1))
            } else {
                None
            },
        }
    }
}

/// A path leads to a node above another one, or to one in an earlier branch.
pub open spec fn comes_before(a: Seq<int>, b: Seq<int>) -> bool
    decreases b.len(),
{
    b.len() > 0 && (a.len() == 0 || a[0] < b[0] || (a[0] == b[0] && comes_before(
        a.skip(1),
        b.skip(1),
    )))
}

/// The label that a node is asked to have.
pub open spec fn asked_label(node: NodeSpec) -> Seq<char> {
    match node {
        NodeSpec::Leaf { label, .. } => label@,
        NodeSpec::Split { label, .. } => label@,
    }
}

/// The peers that a node is asked to whitelist.
pub open spec fn asked_peers(node: NodeSpec) -> Seq<Seq<char>> {
    match node {
        NodeSpec::Leaf { allowed_bridges, .. } => text_views(allowed_bridges@),
        NodeSpec::Split { allowed_bridges, .. } => text_views(allowed_bridges@),
    }
}

/// What is wrong with a node by itself: a split's threshold is none that its
/// children can meet, or more of them than shares can be dealt, or a leaf's key is
/// not registered, not for encryption or revoked.
pub open spec fn own_fault(keys: Seq<HardwareKeyView>, node: NodeSpec) -> Option<Error> {
    match node {
        NodeSpec::Split { threshold, children, .. } => if 1 <= threshold <= children@.len()
            && children@.len() <= 255 {
            None
        } else {
            Some(Error::InvalidQuorumThreshold)
        },
        NodeSpec::Leaf { hardware_key_id, .. } => {
            if exists|i: int|
                0 <= i < keys.len() && (#[trigger] keys[i]).id == hardware_key_id
                    && keys[i].key_type == KeyType::Encryption && keys[i].revoked_at is None {
                None
            } else if exists|i: int|
                0 <= i < keys.len() && (#[trigger] keys[i]).id == hardware_key_id
                    && keys[i].key_type == KeyType::Encryption {
                Some(Error::KeyRevoked)
            } else if exists|i: int| 0 <= i < keys.len() && (#[trigger] keys[i]).id
                == hardware_key_id {
                Some(Error::WrongKeyType)
            } else {
                Some(Error::Db(StoreError::NoRows))
            }
        },
    }
}

/// Every node of the spec is right by itself.
pub open spec fn all_nodes_sound(keys: Seq<HardwareKeyView>, spec: NodeSpec) -> bool {
    forall|path: Seq<int>|
        (#[trigger] node_along(spec, path)) matches Some(node) ==> own_fault(keys, node) is None
}

/// Every node of the spec has a label, and no two have the same.
pub open spec fn all_labels_differ(spec: NodeSpec) -> bool {
    &&& forall|path: Seq<int>|
        (#[trigger] node_along(spec, path)) matches Some(node) ==> asked_label(node).len() > 0
    &&& forall|p: Seq<int>, q: Seq<int>|
        p != q && (#[trigger] node_along(spec, p)) is Some && (#[trigger] node_along(spec, q))
            is Some ==> asked_label(node_along(spec, p)->0) != asked_label(node_along(spec, q)->0)
}

/// Some node of the spec has the label.
pub open spec fn is_label_of(spec: NodeSpec, label: Seq<char>) -> bool {
    exists|path: Seq<int>|
        (#[trigger] node_along(spec, path)) is Some && asked_label(node_along(spec, path)->0)
            == label
}

/// The peers that a node whitelists are other nodes of the spec.
pub open spec fn knows_its_peers(spec: NodeSpec, node: NodeSpec) -> bool {
    forall|k: int|
        0 <= k < asked_peers(node).len() ==> (#[trigger] asked_peers(node)[k]) != asked_label(node)
            && is_label_of(spec, asked_peers(node)[k])
}

/// Every peer that a node of the spec whitelists is another node of the spec.
pub open spec fn all_peers_known(spec: NodeSpec) -> bool {
    forall|path: Seq<int>|
        (#[trigger] node_along(spec, path)) matches Some(node) ==> knows_its_peers(spec, node)
}

/// No node of the spec whitelists a peer twice.
pub open spec fn all_peers_named_once(spec: NodeSpec) -> bool {
    forall|path: Seq<int>|
        (#[trigger] node_along(spec, path)) matches Some(node) ==> asked_peers(node).no_duplicates()
}

proof fn lemma_own_key_fault(keys: Seq<HardwareKeyView>, id: i64, node: NodeSpec)
    requires
        registry_wf(keys),
        node matches NodeSpec::Leaf { hardware_key_id, .. } && hardware_key_id == id,
    ensures
        fault_of(active_encryption_key(keys, id)) == own_fault(keys, node),
{
    assert forall|i: int, j: int|
        0 <= i < keys.len() && 0 <= j < keys.len() && (#[trigger] keys[i]).id == id && (
        #[trigger] keys[j]).id == id implies i == j by {
        if i < j {
            assert(keys[i].id < keys[j].id);
        } else if j < i {
            assert(keys[j].id < keys[i].id);
        }
    }
}

proof fn lemma_along_child(spec: NodeSpec, path: Seq<int>)
    requires
        path.len() > 0,
        node_along(spec, path) is Some,
    ensures
        0 <= path[0] < spec.children_view().len(),
        node_along(spec.children_view()[path[0]], path.skip(1)) == node_along(spec, path),
{
}

proof fn lemma_child_along(spec: NodeSpec, i: int, path: Seq<int>)
    requires
        0 <= i < spec.children_view().len(),
    ensures
        node_along(spec, seq![i] + path) == node_along(spec.children_view()[i], path),
{
    assert((seq![i] + path).skip(1) =~= path);
}

proof fn lemma_children_faultless(keys: Seq<HardwareKeyView>, spec: NodeSpec, n: nat)
    requires
        n <= spec.children_view().len(),
    ensures
        children_fault(keys, spec, n) is None <==> forall|i: int|
            0 <= i < n ==> node_fault(keys, #[trigger] spec.children_view()[i]) is None,
        children_fault(keys, spec, n) matches Some(e) ==> exists|i: int|
            0 <= i < n && node_fault(keys, #[trigger] spec.children_view()[i]) == Some(e)
                && forall|j: int|
                0 <= j < i ==> node_fault(keys, #[trigger] spec.children_view()[j]) is None,
    decreases n,
{
    if n > 0 {
        lemma_children_faultless(keys, spec, (n - 1) as nat);
        if children_fault(keys, spec, (n - 1) as nat) is None && children_fault(keys, spec, n)
            is Some {
            assert(node_fault(keys, spec.children_view()[n - 1]) == children_fault(keys, spec, n));
        }
    }
}

/// The fault of a spec's nodes is that of the first node that has one, from the
/// root down and from the first branch on.
pub proof fn first_faulty_node_decides(keys: Seq<HardwareKeyView>, spec: NodeSpec)
    requires
        registry_wf(keys),
    ensures
        node_fault(keys, spec) is None <==> all_nodes_sound(keys, spec),
        node_fault(keys, spec) matches Some(e) ==> exists|path: Seq<int>|
            (#[trigger] node_along(spec, path)) is Some && own_fault(
                keys,
                node_along(spec, path)->0,
            ) == Some(e) && forall|q: Seq<int>|
                (#[trigger] node_along(spec, q)) is Some && comes_before(q, path) ==> own_fault(
                    keys,
                    node_along(spec, q)->0,
                ) is None,
    decreases spec,
{
    let root = Seq::<int>::empty();
    assert(node_along(spec, root) == Some(spec));
    match spec {
        NodeSpec::Leaf { hardware_key_id, .. } => {
            lemma_own_key_fault(keys, hardware_key_id, spec);
            assert forall|path: Seq<int>| (#[trigger] node_along(spec, path)) is Some implies path
                == root by {
                if path.len() == 0 {
                    assert(path =~= root);
                }
            }
        },
        NodeSpec::Split { threshold, children, .. } => {
            if own_fault(keys, spec) is Some {
            } else {
                let kids = spec.children_view();
                lemma_children_faultless(keys, spec, kids.len());
                if node_fault(keys, spec) is None {
                    assert forall|path: Seq<int>|
                        (#[trigger] node_along(spec, path)) is Some implies own_fault(
                        keys,
                        node_along(spec, path)->0,
                    ) is None by {
                        if path.len() > 0 {
                            lemma_along_child(spec, path);
                            assert(decreases_to!(spec => kids[path[0]]));
                            first_faulty_node_decides(keys, kids[path[0]]);
                            assert(node_along(kids[path[0]], path.skip(1)) is Some);
                        }
                    }
                } else {
                    let e = node_fault(keys, spec)->0;
                    let i = choose|i: int|
                        0 <= i < kids.len() && node_fault(keys, #[trigger] kids[i]) == Some(e)
                            && forall|j: int|
                            0 <= j < i ==> node_fault(keys, #[trigger] kids[j]) is None;
                    assert(decreases_to!(spec => kids[i]));
                    first_faulty_node_decides(keys, kids[i]);
                    let below = choose|path: Seq<int>|
                        (#[trigger] node_along(kids[i], path)) is Some && own_fault(
                            keys,
                            node_along(kids[i], path)->0,
                        ) == Some(e) && forall|q: Seq<int>|
                            (#[trigger] node_along(kids[i], q)) is Some && comes_before(q, path)
                                ==> own_fault(keys, node_along(kids[i], q)->0) is None;
                    let path = seq![i] + below;
                    lemma_child_along(spec, i, below);
                    assert(path.skip(1) =~= below);
                    assert forall|q: Seq<int>|
                        (#[trigger] node_along(spec, q)) is Some && comes_before(
                            q,
                            path,
                        ) implies own_fault(keys, node_along(spec, q)->0) is None by {
                        if q.len() > 0 {
                            lemma_along_child(spec, q);
                            let c = kids[q[0]];
                            assert(decreases_to!(spec => c));
                            first_faulty_node_decides(keys, c);
                            assert(node_along(c, q.skip(1)) is Some);
                        }
                    }
                    assert(node_along(spec, path) is Some);
                }
            }
        },
    }
}

/// Where the label of a node stands among the labels of the spec.
spec fn position(spec: NodeSpec, path: Seq<int>) -> int
    decreases path.len(),
{
    if path.len() == 0 {
        0
    } else {
        1 + children_labels(spec, path[0] as nat).len() + position(
            spec.children_view()[path[0]],
            path.skip(1),
        )
    }
}

proof fn lemma_labels_of_child(spec: NodeSpec, n: nat, i: int)
    requires
        n <= spec.children_view().len(),
        0 <= i < n,
    ensures
        ({
            let start = children_labels(spec, i as nat).len();
            let own = spec_labels(spec.children_view()[i]);
            &&& start + own.len() <= children_labels(spec, n).len()
            &&& forall|k: int|
                0 <= k < own.len() ==> #[trigger] own[k] == children_labels(spec, n)[start + k]
        }),
    decreases n,
{
    let all = children_labels(spec, n);
    let before = children_labels(spec, (n - 1) as nat);
    if i < n - 1 {
        lemma_labels_of_child(spec, (n - 1) as nat, i);
        let start = children_labels(spec, i as nat).len();
        let own = spec_labels(spec.children_view()[i]);
        assert forall|k: int| 0 <= k < own.len() implies #[trigger] own[k] == all[start + k] by {
            assert(own[k] == before[start + k]);
        }
    }
}

proof fn lemma_position(spec: NodeSpec, path: Seq<int>)
    requires
        node_along(spec, path) is Some,
    ensures
        0 <= position(spec, path) < spec_labels(spec).len(),
        spec_labels(spec)[position(spec, path)] == asked_label(node_along(spec, path)->0),
    decreases path.len(),
{
    if path.len() > 0 {
        lemma_along_child(spec, path);
        let child = spec.children_view()[path[0]];
        lemma_position(child, path.skip(1));
        lemma_labels_of_child(spec, spec.children_view().len(), path[0]);
        let k = position(child, path.skip(1));
        assert(spec_labels(child)[k] == children_labels(spec, spec.children_view().len())[
            children_labels(spec, path[0] as nat).len() + k]);
    }
}

proof fn lemma_positions_differ(spec: NodeSpec, p: Seq<int>, q: Seq<int>)
    requires
        node_along(spec, p) is Some,
        node_along(spec, q) is Some,
        p != q,
    ensures
        position(spec, p) != position(spec, q),
    decreases p.len() + q.len(),
{
    lemma_position(spec, p);
    lemma_position(spec, q);
    if p.len() == 0 {
        if q.len() == 0 {
            assert(p =~= q);
        } else {
            lemma_along_child(spec, q);
            lemma_position(spec.children_view()[q[0]], q.skip(1));
        }
    } else if q.len() == 0 {
        lemma_along_child(spec, p);
        lemma_position(spec.children_view()[p[0]], p.skip(1));
    } else {
        lemma_along_child(spec, p);
        lemma_along_child(spec, q);
        lemma_position(spec.children_view()[p[0]], p.skip(1));
        lemma_position(spec.children_view()[q[0]], q.skip(1));
        if p[0] == q[0] {
            if p.skip(1) == q.skip(1) {
                assert(p =~= seq![p[0]] + p.skip(1));
                assert(q =~= seq![q[0]] + q.skip(1));
            }
            lemma_positions_differ(spec.children_view()[p[0]], p.skip(1), q.skip(1));
        } else if p[0] < q[0] {
            lemma_labels_of_child(spec, q[0] as nat, p[0]);
        } else {
            lemma_labels_of_child(spec, p[0] as nat, q[0]);
        }
    }
}

proof fn lemma_branch_at(spec: NodeSpec, n: nat, k: int) -> (i: int)
    requires
        n <= spec.children_view().len(),
        0 <= k < children_labels(spec, n).len(),
    ensures
        0 <= i < n,
        children_labels(spec, i as nat).len() <= k < children_labels(spec, i as nat).len()
            + spec_labels(spec.children_view()[i]).len(),
    decreases n,
{
    if k < children_labels(spec, (n - 1) as nat).len() {
        lemma_branch_at(spec, (n - 1) as nat, k)
    } else {
        n - 1
    }
}

proof fn lemma_path_at(spec: NodeSpec, k: int) -> (path: Seq<int>)
    requires
        0 <= k < spec_labels(spec).len(),
    ensures
        node_along(spec, path) is Some,
        position(spec, path) == k,
    decreases spec,
{
    if k == 0 {
        Seq::empty()
    } else {
        let i = lemma_branch_at(spec, spec.children_view().len(), k - 1);
        let child = spec.children_view()[i];
        assert(decreases_to!(spec => child));
        let below = lemma_path_at(child, k - 1 - children_labels(spec, i as nat).len());
        let path = seq![i] + below;
        lemma_child_along(spec, i, below);
        assert(path.skip(1) =~= below);
        path
    }
}

/// The labels of a spec are those of its nodes, each node's once.
pub proof fn labels_are_those_of_the_nodes(spec: NodeSpec)
    ensures
        labels_distinct(spec_labels(spec)) <==> all_labels_differ(spec),
        forall|label: Seq<char>| #[trigger]
            spec_labels(spec).contains(label) <==> is_label_of(spec, label),
{
    let labels = spec_labels(spec);
    assert forall|label: Seq<char>| #[trigger] labels.contains(label) implies is_label_of(
        spec,
        label,
    ) by {
        let k = choose|k: int| 0 <= k < labels.len() && labels[k] == label;
        let path = lemma_path_at(spec, k);
        lemma_position(spec, path);
    }
    assert forall|label: Seq<char>| is_label_of(spec, label) implies #[trigger] labels.contains(
        label,
    ) by {
        let path = choose|path: Seq<int>|
            (#[trigger] node_along(spec, path)) is Some && asked_label(node_along(spec, path)->0)
                == label;
        lemma_position(spec, path);
        assert(labels[position(spec, path)] == label);
    }
    if labels_distinct(labels) {
        assert forall|path: Seq<int>| (#[trigger] node_along(spec, path)) is Some implies
            asked_label(node_along(spec, path)->0).len() > 0 by {
            lemma_position(spec, path);
            assert(labels[position(spec, path)].len() > 0);
        }
        assert forall|p: Seq<int>, q: Seq<int>|
            p != q && (#[trigger] node_along(spec, p)) is Some && (#[trigger] node_along(spec, q))
                is Some implies asked_label(node_along(spec, p)->0) != asked_label(
            node_along(spec, q)->0,
        ) by {
            lemma_position(spec, p);
            lemma_position(spec, q);
            lemma_positions_differ(spec, p, q);
        }
    }
    if all_labels_differ(spec) {
        assert forall|i: int| 0 <= i < labels.len() implies (#[trigger] labels[i]).len() > 0 by {
            let path = lemma_path_at(spec, i);
            lemma_position(spec, path);
        }
        assert forall|i: int, j: int|
            0 <= i < labels.len() && 0 <= j < labels.len() && i != j implies labels[i]
            != labels[j] by {
            let p = lemma_path_at(spec, i);
            let q = lemma_path_at(spec, j);
            lemma_position(spec, p);
            lemma_position(spec, q);
        }
    }
}

proof fn lemma_children_bridges(spec: NodeSpec, labels: Seq<Seq<char>>, n: nat)
    requires
        n <= spec.children_view().len(),
    ensures
        children_bridges_sound(spec, labels, n) <==> forall|i: int|
            0 <= i < n ==> bridges_sound(#[trigger] spec.children_view()[i], labels),
    decreases n,
{
    if n > 0 {
        lemma_children_bridges(spec, labels, (n - 1) as nat);
    }
}

proof fn lemma_bridges_along(spec: NodeSpec, labels: Seq<Seq<char>>)
    ensures
        bridges_sound(spec, labels) <==> forall|path: Seq<int>|
            (#[trigger] node_along(spec, path)) is Some ==> peers_sound(
                asked_peers(node_along(spec, path)->0),
                asked_label(node_along(spec, path)->0),
                labels,
            ),
    decreases spec,
{
    let kids = spec.children_view();
    lemma_children_bridges(spec, labels, kids.len());
    assert(node_along(spec, Seq::<int>::empty()) == Some(spec));
    if bridges_sound(spec, labels) {
        assert forall|path: Seq<int>| (#[trigger] node_along(spec, path)) is Some implies peers_sound(
            asked_peers(node_along(spec, path)->0),
            asked_label(node_along(spec, path)->0),
            labels,
        ) by {
            if path.len() > 0 {
                lemma_along_child(spec, path);
                assert(decreases_to!(spec => kids[path[0]]));
                lemma_bridges_along(kids[path[0]], labels);
                assert(node_along(kids[path[0]], path.skip(1)) is Some);
            }
        }
    } else if peers_sound(spec.bridges_view(), spec.label_view(), labels) {
        let i = choose|i: int|
            0 <= i < kids.len() && !bridges_sound(#[trigger] kids[i], labels);
        assert(decreases_to!(spec => kids[i]));
        lemma_bridges_along(kids[i], labels);
        let below = choose|path: Seq<int>|
            (#[trigger] node_along(kids[i], path)) is Some && !peers_sound(
                asked_peers(node_along(kids[i], path)->0),
                asked_label(node_along(kids[i], path)->0),
                labels,
            );
        lemma_child_along(spec, i, below);
        assert(node_along(spec, seq![i] + below) is Some);
    }
}

proof fn lemma_children_repeat(spec: NodeSpec, n: nat)
    requires
        n <= spec.children_view().len(),
    ensures
        children_peers_repeat(spec, n) <==> exists|i: int|
            0 <= i < n && peers_repeat(#[trigger] spec.children_view()[i]),
    decreases n,
{
    if n > 0 {
        lemma_children_repeat(spec, (n - 1) as nat);
        if peers_repeat(spec.children_view()[n - 1]) {
            assert(peers_repeat(spec.children_view()[n - 1]));
        }
    }
}

/// A spec names a peer twice exactly where one of its nodes does.
pub proof fn repeats_are_those_of_the_nodes(spec: NodeSpec)
    ensures
        !peers_repeat(spec) <==> all_peers_named_once(spec),
    decreases spec,
{
    let kids = spec.children_view();
    lemma_children_repeat(spec, kids.len());
    assert(node_along(spec, Seq::<int>::empty()) == Some(spec));
    if !peers_repeat(spec) {
        assert forall|path: Seq<int>| (#[trigger] node_along(spec, path)) is Some implies
            asked_peers(node_along(spec, path)->0).no_duplicates() by {
            if path.len() > 0 {
                lemma_along_child(spec, path);
                assert(decreases_to!(spec => kids[path[0]]));
                assert(!peers_repeat(kids[path[0]]));
                repeats_are_those_of_the_nodes(kids[path[0]]);
                assert(node_along(kids[path[0]], path.skip(1)) is Some);
            }
        }
    } else if spec.bridges_view().no_duplicates() {
        let i = choose|i: int| 0 <= i < kids.len() && peers_repeat(#[trigger] kids[i]);
        assert(decreases_to!(spec => kids[i]));
        repeats_are_those_of_the_nodes(kids[i]);
        let below = choose|path: Seq<int>|
            (#[trigger] node_along(kids[i], path)) is Some && !asked_peers(
                node_along(kids[i], path)->0,
            ).no_duplicates();
        lemma_child_along(spec, i, below);
        assert(node_along(spec, seq![i] + below) is Some);
    }
}

/// Whitelisted peers are checked against the labels of the whole spec.
pub proof fn peers_are_other_nodes(spec: NodeSpec)
    ensures
        bridges_sound(spec, spec_labels(spec)) <==> all_peers_known(spec),
{
    let labels = spec_labels(spec);
    labels_are_those_of_the_nodes(spec);
    lemma_bridges_along(spec, labels);
    if bridges_sound(spec, labels) {
        assert forall|path: Seq<int>| (#[trigger] node_along(spec, path)) is Some implies
            knows_its_peers(spec, node_along(spec, path)->0) by {
            let node = node_along(spec, path)->0;
            assert(peers_sound(asked_peers(node), asked_label(node), labels));
            assert forall|k: int| 0 <= k < asked_peers(node).len() implies (
            #[trigger] asked_peers(node)[k]) != asked_label(node) && is_label_of(
                spec,
                asked_peers(node)[k],
            ) by {
                assert(labels.contains(asked_peers(node)[k]));
            }
        }
    }
    if all_peers_known(spec) {
        assert forall|path: Seq<int>| (#[trigger] node_along(spec, path)) is Some implies peers_sound(
            asked_peers(node_along(spec, path)->0),
            asked_label(node_along(spec, path)->0),
            labels,
        ) by {
            let node = node_along(spec, path)->0;
            assert(knows_its_peers(spec, node));
            assert forall|k: int| 0 <= k < asked_peers(node).len() implies (
            #[trigger] asked_peers(node)[k]) != asked_label(node) && labels.contains(
                asked_peers(node)[k],
            ) by {
                assert(is_label_of(spec, asked_peers(node)[k]));
            }
        }
    }
}

/// A secret can be split along a spec exactly where, for all nodes of the spec,
/// a split's threshold is between one and the number of its children and these are
/// at most 255, a leaf names a registered encryption key that is not revoked, the
/// labels are there and differ, and whitelisted peers are other nodes of the spec,
/// each named once. What fails first of these in this order decides the error.
pub proof fn sound_specs_are_accepted(keys: Seq<HardwareKeyView>, spec: NodeSpec)
    requires
        registry_wf(keys),
    ensures
        split_fault(keys, spec) is None <==> {
            &&& forall|path: Seq<int>|
                (#[trigger] node_along(spec, path)) matches Some(node) ==> match node {
                    NodeSpec::Split { threshold, children, .. } => 1 <= threshold <= children@.len()
                        && children@.len() <= 255,
                    NodeSpec::Leaf { hardware_key_id, .. } => exists|i: int|
                        0 <= i < keys.len() && (#[trigger] keys[i]).id == hardware_key_id
                            && keys[i].key_type == KeyType::Encryption && keys[i].revoked_at
                            is None,
                }
            &&& all_labels_differ(spec)
            &&& all_peers_known(spec)
            &&& all_peers_named_once(spec)
        },
        spec_fault(keys, spec) is None <==> all_nodes_sound(keys, spec) && all_labels_differ(spec)
            && all_peers_known(spec),
        all_nodes_sound(keys, spec) && !all_labels_differ(spec) ==> split_fault(keys, spec) == Some(
            Error::DuplicateNodeLabel,
        ),
        all_nodes_sound(keys, spec) && all_labels_differ(spec) && !all_peers_known(spec)
            ==> split_fault(keys, spec) == Some(Error::InvalidBridge),
        all_nodes_sound(keys, spec) && all_labels_differ(spec) && all_peers_known(spec)
            && !all_peers_named_once(spec) ==> split_fault(keys, spec) == Some(
            Error::Db(StoreError::NodePeer),
        ),
        !all_nodes_sound(keys, spec) ==> exists|path: Seq<int>|
            (#[trigger] node_along(spec, path)) is Some && own_fault(
                keys,
                node_along(spec, path)->0,
            ) is Some && split_fault(keys, spec) == own_fault(keys, node_along(spec, path)->0)
                && forall|q: Seq<int>|
                (#[trigger] node_along(spec, q)) is Some && comes_before(q, path) ==> own_fault(
                    keys,
                    node_along(spec, q)->0,
                ) is None,
{
    first_faulty_node_decides(keys, spec);
    labels_are_those_of_the_nodes(spec);
    peers_are_other_nodes(spec);
    repeats_are_those_of_the_nodes(spec);
    let written = forall|path: Seq<int>|
        (#[trigger] node_along(spec, path)) matches Some(node) ==> match node {
            NodeSpec::Split { threshold, children, .. } => 1 <= threshold <= children@.len()
                && children@.len() <= 255,
            NodeSpec::Leaf { hardware_key_id, .. } => exists|i: int|
                0 <= i < keys.len() && (#[trigger] keys[i]).id == hardware_key_id
                    && keys[i].key_type == KeyType::Encryption && keys[i].revoked_at is None,
        };
    assert(written <==> all_nodes_sound(keys, spec)) by {
        if written {
            assert forall|path: Seq<int>| (#[trigger] node_along(spec, path)) is Some implies
                own_fault(keys, node_along(spec, path)->0) is None by {}
        }
        if all_nodes_sound(keys, spec) {
            assert forall|path: Seq<int>| (#[trigger] node_along(spec, path)) is Some implies match (
            node_along(spec, path)->0) {
                NodeSpec::Split { threshold, children, .. } => 1 <= threshold <= children@.len()
                    && children@.len() <= 255,
                NodeSpec::Leaf { hardware_key_id, .. } => exists|i: int|
                    0 <= i < keys.len() && (#[trigger] keys[i]).id == hardware_key_id
                        && keys[i].key_type == KeyType::Encryption && keys[i].revoked_at is None,
            } by {
                assert(own_fault(keys, node_along(spec, path)->0) is None);
            }
        }
    }
}

/// A flat quorum of any size is accepted: m of n leaves on active encryption keys,
/// with labels that are there and differ.
pub proof fn every_flat_quorum_is_accepted(keys: Seq<HardwareKeyView>, spec: NodeSpec)
    requires
        registry_wf(keys),
        spec matches NodeSpec::Split { label, threshold, children, allowed_bridges } && {
            &&& 1 <= threshold <= children@.len()
            &&& children@.len() <= 255
            &&& label@.len() > 0
            &&& allowed_bridges@.len() == 0
            &&& forall|i: int|
                0 <= i < children@.len() ==> ((#[trigger] children@[i]) matches NodeSpec::Leaf {
                    label: own,
                    hardware_key_id,
                    allowed_bridges: peers,
                } && own@.len() > 0 && own@ != label@ && peers@.len() == 0 && exists|k: int|
                    0 <= k < keys.len() && (#[trigger] keys[k]).id == hardware_key_id
                        && keys[k].key_type == KeyType::Encryption && keys[k].revoked_at is None)
            &&& forall|i: int, j: int|
                0 <= i < j < children@.len() ==> asked_label(#[trigger] children@[i])
                    != asked_label(#[trigger] children@[j])
        },
    ensures
        split_fault(keys, spec) is None,
{
    sound_specs_are_accepted(keys, spec);
    let kids = spec.children_view();
    assert forall|path: Seq<int>| (#[trigger] node_along(spec, path)) is Some implies (path.len()
        == 0 && node_along(spec, path) == Some(spec)) || (path.len() == 1 && 0 <= path[0]
        < kids.len() && node_along(spec, path) == Some(kids[path[0]])) by {
        if path.len() > 0 {
            lemma_along_child(spec, path);
            assert(kids[path[0]] is Leaf);
            assert(path.skip(1).len() == 0);
        }
    }
    assert(all_nodes_sound(keys, spec)) by {
        assert forall|path: Seq<int>| (#[trigger] node_along(spec, path)) is Some implies own_fault(
            keys,
            node_along(spec, path)->0,
        ) is None by {
            if path.len() > 0 {
                assert(kids[path[0]] is Leaf);
            }
        }
    }
    assert(all_labels_differ(spec)) by {
        assert forall|p: Seq<int>, q: Seq<int>|
            p != q && (#[trigger] node_along(spec, p)) is Some && (#[trigger] node_along(spec, q))
                is Some implies asked_label(node_along(spec, p)->0) != asked_label(
            node_along(spec, q)->0,
        ) by {
            if p.len() == 0 {
                if q.len() == 0 {
                    assert(p =~= q);
                } else {
                    assert(kids[q[0]] is Leaf);
                }
            } else if q.len() == 0 {
                assert(kids[p[0]] is Leaf);
            } else {
                if p[0] == q[0] {
                    assert(p =~= q);
                } else if p[0] < q[0] {
                    assert(asked_label(kids[p[0]]) != asked_label(kids[q[0]]));
                } else {
                    assert(asked_label(kids[q[0]]) != asked_label(kids[p[0]]));
                }
            }
        }
        assert forall|path: Seq<int>| (#[trigger] node_along(spec, path)) is Some implies
            asked_label(node_along(spec, path)->0).len() > 0 by {
            if path.len() > 0 {
                assert(kids[path[0]] is Leaf);
            }
        }
    }
    assert forall|path: Seq<int>| (#[trigger] node_along(spec, path)) is Some implies asked_peers(
        node_along(spec, path)->0,
    ).len() == 0 by {
        if path.len() > 0 {
            assert(kids[path[0]] is Leaf);
        }
    }
}

/// How many nodes of a spec come before the one that a path leads to.
pub open spec fn nodes_before(spec: NodeSpec, path: Seq<int>) -> int
    decreases path.len(),
{
    if path.len() == 0 {
        0
    } else {
        1 + children_count(spec, path[0] as nat) + nodes_before(
            spec.children_view()[path[0]],
            path.skip(1),
        )
    }
}

proof fn lemma_plan_len(spec: NodeSpec, key_id: i64, parent: Option<i64>, first: int)
    ensures
        planned(spec, key_id, parent, first).len() == node_count(spec),
    decreases spec, spec.children_view().len() + 1,
{
    lemma_plan_children_len(spec, key_id, first, spec.children_view().len());
}

proof fn lemma_plan_children_len(spec: NodeSpec, key_id: i64, first: int, n: nat)
    requires
        n <= spec.children_view().len(),
    ensures
        planned_children(spec, key_id, first, n).len() == children_count(spec, n),
    decreases spec, n,
{
    if n > 0 {
        lemma_plan_children_len(spec, key_id, first, (n - 1) as nat);
        let before = planned_children(spec, key_id, first, (n - 1) as nat);
        assert(decreases_to!(spec => spec.children_view()[n - 1]));
        lemma_plan_len(
            spec.children_view()[n - 1],
            key_id,
            Some(first as i64),
            first + 1 + before.len(),
        );
    }
}

proof fn lemma_plan_of_child(spec: NodeSpec, key_id: i64, first: int, n: nat, i: int)
    requires
        n <= spec.children_view().len(),
        0 <= i < n,
    ensures
        ({
            let start = children_count(spec, i as nat);
            let own = planned(
                spec.children_view()[i],
                key_id,
                Some(first as i64),
                first + 1 + start,
            );
            &&& own.len() == node_count(spec.children_view()[i])
            &&& start + own.len() <= planned_children(spec, key_id, first, n).len()
            &&& forall|k: int|
                0 <= k < own.len() ==> #[trigger] own[k] == planned_children(
                    spec,
                    key_id,
                    first,
                    n,
                )[start + k]
        }),
    decreases n,
{
    let all = planned_children(spec, key_id, first, n);
    let before = planned_children(spec, key_id, first, (n - 1) as nat);
    let start = children_count(spec, i as nat);
    let own = planned(spec.children_view()[i], key_id, Some(first as i64), first + 1 + start);
    lemma_plan_children_len(spec, key_id, first, (n - 1) as nat);
    lemma_plan_len(spec.children_view()[i], key_id, Some(first as i64), first + 1 + start);
    if i < n - 1 {
        lemma_plan_of_child(spec, key_id, first, (n - 1) as nat, i);
        assert forall|k: int| 0 <= k < own.len() implies #[trigger] own[k] == all[start + k] by {
            assert(own[k] == before[start + k]);
        }
    }
}

/// A split stores every node of its spec in the order of their paths: with the
/// label, the threshold or the hardware key, and the peers that are asked for, below
/// the row of the node above it. There are no rows but these.
pub proof fn every_node_gets_its_row(
    spec: NodeSpec,
    key_id: i64,
    parent: Option<i64>,
    first: int,
    path: Seq<int>,
)
    requires
        node_along(spec, path) is Some,
    ensures
        ({
            let plan = planned(spec, key_id, parent, first);
            let node = node_along(spec, path)->0;
            let k = nodes_before(spec, path);
            &&& 0 <= k < plan.len()
            &&& plan[k].row.id == (first + k) as i64
            &&& plan[k].row.key_id == key_id
            &&& plan[k].row.is_active
            &&& plan[k].row.label == asked_label(node)
            &&& plan[k].peers == asked_peers(node)
            &&& plan[k].row.threshold == (match node {
                NodeSpec::Leaf { .. } => None::<i64>,
                NodeSpec::Split { threshold, .. } => Some(threshold as i64),
            })
            &&& plan[k].row.hardware_key_id == (match node {
                NodeSpec::Leaf { hardware_key_id, .. } => Some(hardware_key_id),
                NodeSpec::Split { .. } => None::<i64>,
            })
            &&& plan[k].row.parent_id == (if path.len() == 0 {
                parent
            } else {
                Some((first + nodes_before(spec, path.drop_last())) as i64)
            })
        }),
    decreases path.len(),
{
    lemma_plan_len(spec, key_id, parent, first);
    let plan = planned(spec, key_id, parent, first);
    let n = spec.children_view().len();
    if path.len() > 0 {
        lemma_along_child(spec, path);
        let i = path[0];
        let child = spec.children_view()[i];
        let rest = path.skip(1);
        let start = children_count(spec, i as nat);
        let below = planned(child, key_id, Some(first as i64), first + 1 + start);
        lemma_plan_of_child(spec, key_id, first, n, i);
        every_node_gets_its_row(child, key_id, Some(first as i64), first + 1 + start, rest);
        let j = nodes_before(child, rest);
        assert(plan[1 + start + j] == planned_children(spec, key_id, first, n)[start + j]);
        assert(below[j] == plan[1 + start + j]);
        if path.len() == 1 {
            assert(path.drop_last().len() == 0);
        } else {
            assert(path.drop_last().skip(1) =~= rest.drop_last());
            assert(path.drop_last()[0] == i);
        }
    }
}

proof fn lemma_branch_with(spec: NodeSpec, n: nat, k: int) -> (i: int)
    requires
        n <= spec.children_view().len(),
        0 <= k < children_count(spec, n),
    ensures
        0 <= i < n,
        children_count(spec, i as nat) <= k < children_count(spec, i as nat) + node_count(
            spec.children_view()[i],
        ),
    decreases n,
{
    if k < children_count(spec, (n - 1) as nat) {
        lemma_branch_with(spec, (n - 1) as nat, k)
    } else {
        n - 1
    }
}

/// Every row that a split stores is that of some node of its spec.
pub proof fn every_row_has_its_node(
    spec: NodeSpec,
    key_id: i64,
    parent: Option<i64>,
    first: int,
    k: int,
) -> (path: Seq<int>)
    requires
        0 <= k < planned(spec, key_id, parent, first).len(),
    ensures
        node_along(spec, path) is Some,
        nodes_before(spec, path) == k,
    decreases spec,
{
    lemma_plan_len(spec, key_id, parent, first);
    if k == 0 {
        Seq::empty()
    } else {
        let i = lemma_branch_with(spec, spec.children_view().len(), k - 1);
        let child = spec.children_view()[i];
        let start = children_count(spec, i as nat);
        assert(decreases_to!(spec => child));
        lemma_plan_len(child, key_id, parent, first);
        let below = every_row_has_its_node(child, key_id, parent, first, k - 1 - start);
        let path = seq![i] + below;
        lemma_child_along(spec, i, below);
        assert(path.skip(1) =~= below);
        path
    }
}

} // verus!
