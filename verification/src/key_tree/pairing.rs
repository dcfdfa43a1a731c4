//! What permissions and pairings there are after an operation, pair by pair.

use vstd::prelude::*;

use crate::error::Error;
use crate::key_tree::ancestry::{loaded_children_are_those_below, loaded_nodes_are_the_rows};
use crate::key_tree::bridges::{
    allowed, bound, bound_pairs, bound_throughout, bound_to_siblings, denied, labelled_place,
    leaf_labels, lemma_label_agrees, link_of, paired, pairs_from, sibling_pairs, unpaired,
    with_each,
};
use crate::key_tree::store::{labelled_at, labelled_id, NodeRowView, TreeStoreView};
use crate::key_tree::tree::{loaded, TreeShape};

verus! {

/// A pairing names both nodes, the smaller id first.
pub proof fn pairing_names_both(a: i64, b: i64)
    ensures
        link_of(a, b).0 <= link_of(a, b).1,
        link_of(a, b) == (a, b) || link_of(a, b) == (b, a),
{
}

/// A label leads to the first node of the secret that has it, and to none where no
/// node has it.
pub proof fn label_leads_to_its_first_node(
    nodes: Seq<NodeRowView>,
    key_id: i64,
    label: Seq<char>,
    i: int,
)
    requires
        0 <= i < nodes.len(),
        nodes[i].key_id == key_id,
        nodes[i].label == label,
        forall|j: int|
            0 <= j < i ==> !((#[trigger] nodes[j]).key_id == key_id && nodes[j].label == label),
    ensures
        labelled_id(nodes, key_id, label) == Some(nodes[i].id),
{
    reveal(labelled_id);
    assert(labelled_at(nodes, key_id, label, i));
    assert(forall|j: int| 0 <= j < i ==> !#[trigger] labelled_at(nodes, key_id, label, j));
    let place = choose|p: int| #[trigger]
        labelled_at(nodes, key_id, label, p) && forall|j: int|
            0 <= j < p ==> !#[trigger] labelled_at(nodes, key_id, label, j);
    assert(labelled_at(nodes, key_id, label, place));
    if i < place {
        assert(!labelled_at(nodes, key_id, label, i));
    }
    assert(place == i);
}

/// A label that no node of the secret has leads to none.
pub proof fn unknown_label_leads_nowhere(nodes: Seq<NodeRowView>, key_id: i64, label: Seq<char>)
    requires
        forall|i: int|
            0 <= i < nodes.len() ==> !((#[trigger] nodes[i]).key_id == key_id && nodes[i].label
                == label),
    ensures
        labelled_id(nodes, key_id, label) is None,
{
    reveal(labelled_id);
    assert forall|i: int| !#[trigger] labelled_at(nodes, key_id, label, i) by {}
}

/// Allowing one node a peer adds that permission and nothing else.
pub proof fn allowing_adds_one_permission(
    s: TreeStoreView,
    key_id: i64,
    node: Seq<char>,
    peer: Seq<char>,
)
    ensures
        ({
            let (after, fault) = allowed(s, key_id, node, peer);
            &&& after.nodes == s.nodes && after.keys == s.keys && after.links == s.links
            &&& fault is None <==> node != peer && labelled_id(s.nodes, key_id, node) is Some
                && labelled_id(s.nodes, key_id, peer) is Some
            &&& fault is Some ==> after == s && fault == Some(
                if node == peer {
                    Error::InvalidBridge
                } else {
                    Error::NodeNotFound
                },
            )
            &&& fault is None ==> forall|p: (i64, Seq<char>)| #[trigger]
                after.bridges.contains(p) <==> s.bridges.contains(p) || (Some(p.0) == labelled_id(
                    s.nodes,
                    key_id,
                    node,
                ) && p.1 == peer)
        }),
{
}

/// Denying takes the permission away in both directions and the pairing with it, and
/// nothing else.
pub proof fn denying_takes_both_directions(
    s: TreeStoreView,
    key_id: i64,
    node: Seq<char>,
    peer: Seq<char>,
)
    ensures
        ({
            let (after, fault) = denied(s, key_id, node, peer);
            let a = labelled_id(s.nodes, key_id, node);
            let b = labelled_id(s.nodes, key_id, peer);
            &&& after.nodes == s.nodes && after.keys == s.keys
            &&& fault == (if a is Some && b is Some {
                None
            } else {
                Some(Error::NodeNotFound)
            })
            &&& fault is Some ==> after == s
            &&& fault is None ==> {
                &&& forall|p: (i64, Seq<char>)| #[trigger]
                    after.bridges.contains(p) <==> s.bridges.contains(p) && !(p.0 == a->0 && p.1
                        == peer) && !(p.0 == b->0 && p.1 == node)
                &&& forall|l: (i64, i64)| #[trigger]
                    after.links.contains(l) <==> s.links.contains(l) && l != link_of(a->0, b->0)
            }
        }),
{
}

/// Pairing adds the one pairing, and only where one of the two whitelists the other.
pub proof fn pairing_needs_a_permission(
    s: TreeStoreView,
    key_id: i64,
    from: Seq<char>,
    to: Seq<char>,
)
    ensures
        ({
            let (after, fault) = paired(s, key_id, from, to);
            let a = labelled_id(s.nodes, key_id, from);
            let b = labelled_id(s.nodes, key_id, to);
            &&& after.nodes == s.nodes && after.keys == s.keys && after.bridges == s.bridges
            &&& fault is None <==> loaded(s, key_id) is Ok && a is Some && b is Some && a != b && (
            s.bridges.contains((a->0, to)) || s.bridges.contains((b->0, from)))
            &&& fault is Some ==> after == s
            &&& loaded(s, key_id) is Ok && (a is None || b is None) ==> fault == Some(
                Error::NodeNotFound,
            )
            &&& loaded(s, key_id) is Ok && a is Some && a == b ==> fault == Some(
                Error::InvalidBridge,
            )
            &&& loaded(s, key_id) is Ok && a is Some && b is Some && a != b && fault is Some
                ==> fault == Some(Error::BridgeNotWhitelisted)
            &&& fault is None ==> forall|l: (i64, i64)| #[trigger]
                after.links.contains(l) <==> s.links.contains(l) || l == link_of(a->0, b->0)
        }),
{
}

/// Tearing a pairing down takes that one away and leaves every permission.
pub proof fn tearing_down_keeps_permissions(
    s: TreeStoreView,
    key_id: i64,
    from: Seq<char>,
    to: Seq<char>,
)
    ensures
        ({
            let (after, fault) = unpaired(s, key_id, from, to);
            let a = labelled_id(s.nodes, key_id, from);
            let b = labelled_id(s.nodes, key_id, to);
            &&& after.nodes == s.nodes && after.keys == s.keys && after.bridges == s.bridges
            &&& fault is None <==> a is Some && b is Some && a != b && s.links.contains(
                link_of(a->0, b->0),
            )
            &&& fault is Some ==> after == s
            &&& a is None || b is None ==> fault == Some(Error::NodeNotFound)
            &&& a is Some && a == b ==> fault == Some(Error::InvalidBridge)
            &&& a is Some && b is Some && a != b && fault is Some ==> fault == Some(
                Error::BridgeNotFound,
            )
            &&& fault is None ==> forall|l: (i64, i64)| #[trigger]
                after.links.contains(l) <==> s.links.contains(l) && l != link_of(a->0, b->0)
        }),
{
}

proof fn lemma_labels_differ_in_id(s: TreeStoreView, key_id: i64, a: Seq<char>, b: Seq<char>)
    requires
        s.wf(),
        loaded(s, key_id) is Ok,
        a != b,
        labelled_id(s.nodes, key_id, a) is Some,
        labelled_id(s.nodes, key_id, b) is Some,
    ensures
        labelled_id(s.nodes, key_id, a) != labelled_id(s.nodes, key_id, b),
{
    let t = loaded(s, key_id)->Ok_0;
    lemma_label_agrees(s, key_id, a);
    lemma_label_agrees(s, key_id, b);
    loaded_nodes_are_the_rows(s, key_id);
    let i = labelled_place(t, a)->0;
    let j = labelled_place(t, b)->0;
    if i < j {
        assert(t.nodes[i].db_id < t.nodes[j].db_id);
    } else if j < i {
        assert(t.nodes[j].db_id < t.nodes[i].db_id);
    }
}

/// Binding two nodes lets each be paired with the other and pairs them. It adds
/// nothing else, and succeeds for any two labels of a tree that loads.
pub proof fn binding_pairs_the_two(s: TreeStoreView, key_id: i64, a: Seq<char>, b: Seq<char>)
    requires
        s.wf(),
        loaded(s, key_id) is Ok,
        a != b,
        labelled_id(s.nodes, key_id, a) is Some,
        labelled_id(s.nodes, key_id, b) is Some,
    ensures
        ({
            let (after, fault) = bound(s, key_id, a, b);
            let ia = labelled_id(s.nodes, key_id, a)->0;
            let ib = labelled_id(s.nodes, key_id, b)->0;
            &&& fault is None
            &&& after.nodes == s.nodes && after.keys == s.keys
            &&& forall|p: (i64, Seq<char>)| #[trigger]
                after.bridges.contains(p) <==> s.bridges.contains(p) || p == (ia, b) || p == (ib, a)
            &&& forall|l: (i64, i64)| #[trigger]
                after.links.contains(l) <==> s.links.contains(l) || l == link_of(ia, ib)
        }),
{
    lemma_labels_differ_in_id(s, key_id, a, b);
}

/// Binding is refused for a node and itself, and for a label that the secret lacks.
pub proof fn binding_is_refused(s: TreeStoreView, key_id: i64, a: Seq<char>, b: Seq<char>)
    requires
        a == b || labelled_id(s.nodes, key_id, a) is None || labelled_id(s.nodes, key_id, b)
            is None,
    ensures
        bound(s, key_id, a, b) == (
            s,
            Some(
                if a == b {
                    Error::InvalidBridge
                } else {
                    Error::NodeNotFound
                },
            ),
        ),
{
}

/// The pairs can be bound: both labels are those of nodes, and they differ.
spec fn bindable(s: TreeStoreView, key_id: i64, pairs: Seq<(Seq<char>, Seq<char>)>) -> bool {
    forall|k: int|
        0 <= k < pairs.len() ==> (#[trigger] pairs[k]).0 != pairs[k].1 && labelled_id(
            s.nodes,
            key_id,
            pairs[k].0,
        ) is Some && labelled_id(s.nodes, key_id, pairs[k].1) is Some
}

spec fn permits(s: TreeStoreView, key_id: i64, pair: (Seq<char>, Seq<char>), p: (i64, Seq<char>)) -> bool {
    ||| p == (labelled_id(s.nodes, key_id, pair.0)->0, pair.1)
    ||| p == (labelled_id(s.nodes, key_id, pair.1)->0, pair.0)
}

spec fn links(s: TreeStoreView, key_id: i64, pair: (Seq<char>, Seq<char>), l: (i64, i64)) -> bool {
    l == link_of(labelled_id(s.nodes, key_id, pair.0)->0, labelled_id(s.nodes, key_id, pair.1)->0)
}

proof fn lemma_bound_pairs(
    s: TreeStoreView,
    key_id: i64,
    pairs: Seq<(Seq<char>, Seq<char>)>,
    n: nat,
)
    requires
        s.wf(),
        loaded(s, key_id) is Ok,
        n <= pairs.len(),
        bindable(s, key_id, pairs),
    ensures
        ({
            let (after, fault) = bound_pairs(s, key_id, pairs, n);
            &&& fault is None
            &&& after.nodes == s.nodes && after.keys == s.keys
            &&& after.wf()
            &&& loaded(after, key_id) is Ok
            &&& forall|p: (i64, Seq<char>)| #[trigger]
                after.bridges.contains(p) <==> s.bridges.contains(p) || exists|k: int|
                    0 <= k < n && permits(s, key_id, #[trigger] pairs[k], p)
            &&& forall|l: (i64, i64)| #[trigger]
                after.links.contains(l) <==> s.links.contains(l) || exists|k: int|
                    0 <= k < n && links(s, key_id, #[trigger] pairs[k], l)
        }),
    decreases n,
{
    if n > 0 {
        let m = (n - 1) as nat;
        lemma_bound_pairs(s, key_id, pairs, m);
        let before = bound_pairs(s, key_id, pairs, m).0;
        let (a, b) = pairs[m as int];
        let after = bound_pairs(s, key_id, pairs, n).0;
        assert(pairs[m as int].0 != pairs[m as int].1);
        binding_pairs_the_two(before, key_id, a, b);
        let ia = labelled_id(s.nodes, key_id, a)->0;
        let ib = labelled_id(s.nodes, key_id, b)->0;
        lemma_labels_differ_in_id(s, key_id, a, b);
        lemma_labelled_node(s.nodes, key_id, a);
        lemma_labelled_node(s.nodes, key_id, b);
        assert forall|p: (i64, Seq<char>)| #[trigger]
            after.bridges.contains(p) <==> s.bridges.contains(p) || exists|k: int|
                0 <= k < n && permits(s, key_id, #[trigger] pairs[k], p) by {
            if permits(s, key_id, pairs[m as int], p) {
                assert(after.bridges.contains(p));
            }
        }
        assert forall|l: (i64, i64)| #[trigger]
            after.links.contains(l) <==> s.links.contains(l) || exists|k: int|
                0 <= k < n && links(s, key_id, #[trigger] pairs[k], l) by {
            if links(s, key_id, pairs[m as int], l) {
                assert(after.links.contains(l));
            }
        }
    }
}

proof fn lemma_labelled_node(nodes: Seq<NodeRowView>, key_id: i64, label: Seq<char>)
    requires
        labelled_id(nodes, key_id, label) is Some,
    ensures
        exists|i: int|
            0 <= i < nodes.len() && (#[trigger] nodes[i]).id == labelled_id(
                nodes,
                key_id,
                label,
            )->0,
{
    reveal(labelled_id);
    if forall|i: int| 0 <= i < nodes.len() ==> !labelled_at(nodes, key_id, label, i) {
        assert forall|i: int| !#[trigger] labelled_at(nodes, key_id, label, i) by {}
    }
    let k = choose|i: int| labelled_at(nodes, key_id, label, i);
    lemma_some_first(nodes, key_id, label, k);
}

proof fn lemma_some_first(nodes: Seq<NodeRowView>, key_id: i64, label: Seq<char>, k: int)
    requires
        labelled_at(nodes, key_id, label, k),
    ensures
        exists|i: int| #[trigger]
            labelled_at(nodes, key_id, label, i) && forall|j: int|
                0 <= j < i ==> !#[trigger] labelled_at(nodes, key_id, label, j),
    decreases k,
{
    if exists|j: int| 0 <= j < k && labelled_at(nodes, key_id, label, j) {
        let j = choose|j: int| 0 <= j < k && labelled_at(nodes, key_id, label, j);
        lemma_some_first(nodes, key_id, label, j);
    }
}

/// The node at a place of the tree is an active leaf.
pub open spec fn active_leaf(t: TreeShape, i: int) -> bool {
    0 <= i < t.nodes.len() && t.nodes[i].is_active && t.nodes[i].hardware_key_id is Some
}

/// Two different nodes stand below the same split.
pub open spec fn below_one_split(t: TreeShape, i: int, j: int) -> bool {
    &&& i != j
    &&& t.nodes[i].parent == t.nodes[j].parent
    &&& t.nodes[i].parent matches Some(p) && t.nodes[p].threshold is Some
}

proof fn lemma_leaf_labels(t: TreeShape, p: int, except: int, n: nat)
    requires
        t.wf(),
        0 <= p < t.nodes.len(),
        n <= t.nodes[p].children.len(),
    ensures
        forall|label: Seq<char>| #[trigger]
            leaf_labels(t, p, except, n).contains(label) <==> exists|k: int|
                0 <= k < n && (#[trigger] t.nodes[p].children[k]) != except && active_leaf(
                    t,
                    t.nodes[p].children[k],
                ) && t.nodes[t.nodes[p].children[k]].label == label,
    decreases n,
{
    let all = leaf_labels(t, p, except, n);
    if n > 0 {
        let before = leaf_labels(t, p, except, (n - 1) as nat);
        lemma_leaf_labels(t, p, except, (n - 1) as nat);
        let c = t.nodes[p].children[n - 1];
        assert forall|label: Seq<char>| #[trigger] all.contains(label) <==> exists|k: int|
            0 <= k < n && (#[trigger] t.nodes[p].children[k]) != except && active_leaf(
                t,
                t.nodes[p].children[k],
            ) && t.nodes[t.nodes[p].children[k]].label == label by {
            if all.contains(label) {
                let k = choose|k: int| 0 <= k < all.len() && all[k] == label;
                if k < before.len() {
                    assert(before[k] == label);
                    assert(before.contains(label));
                } else {
                    assert(t.nodes[p].children[n - 1] == c);
                }
            }
            if before.contains(label) {
                let k = choose|k: int| 0 <= k < before.len() && before[k] == label;
                assert(all[k] == label);
            }
            if c != except && active_leaf(t, c) && t.nodes[c].label == label {
                assert(all[before.len() as int] == label);
            }
        }
    }
}

proof fn lemma_labels_once(t: TreeShape, p: int, except: int, n: nat)
    requires
        t.wf(),
        0 <= p < t.nodes.len(),
        n <= t.nodes[p].children.len(),
        forall|i: int, j: int|
            0 <= i < j < t.nodes.len() ==> (#[trigger] t.nodes[i]).label != (
            #[trigger] t.nodes[j]).label,
        forall|a: int, b: int|
            0 <= a < b < t.nodes[p].children.len() ==> (#[trigger] t.nodes[p].children[a]) < (
            #[trigger] t.nodes[p].children[b]),
    ensures
        leaf_labels(t, p, except, n).no_duplicates(),
    decreases n,
{
    if n > 0 {
        let before = leaf_labels(t, p, except, (n - 1) as nat);
        lemma_labels_once(t, p, except, (n - 1) as nat);
        lemma_leaf_labels(t, p, except, (n - 1) as nat);
        let c = t.nodes[p].children[n - 1];
        if before.contains(t.nodes[c].label) {
            let k = choose|k: int|
                0 <= k < n - 1 && (#[trigger] t.nodes[p].children[k]) != except && active_leaf(
                    t,
                    t.nodes[p].children[k],
                ) && t.nodes[t.nodes[p].children[k]].label == t.nodes[c].label;
            assert(t.nodes[p].children[k] < c);
            assert(t.nodes[t.nodes[p].children[k]].label != t.nodes[c].label);
        }
        let all = leaf_labels(t, p, except, n);
        assert forall|i: int, j: int|
            0 <= i < all.len() && 0 <= j < all.len() && i != j implies all[i] != all[j] by {
            if i < before.len() && j < before.len() {
                assert(all[i] == before[i] && all[j] == before[j]);
            } else if i < before.len() {
                assert(before.contains(before[i]));
            } else {
                assert(before.contains(before[j]));
            }
        }
    }
}

proof fn lemma_pairs_from(labels: Seq<Seq<char>>, n: nat)
    requires
        n <= labels.len(),
    ensures
        forall|a: Seq<char>, b: Seq<char>| #[trigger]
            pairs_from(labels, n).contains((a, b)) <==> exists|i: int, j: int|
                0 <= i < n && i < j < labels.len() && #[trigger] labels[i] == a
                    && #[trigger] labels[j] == b,
    decreases n,
{
    let all = pairs_from(labels, n);
    if n > 0 {
        let before = pairs_from(labels, (n - 1) as nat);
        lemma_pairs_from(labels, (n - 1) as nat);
        let line = with_each(labels[n - 1], labels.skip(n as int));
        assert forall|a: Seq<char>, b: Seq<char>| #[trigger] all.contains((a, b)) <==> exists|
            i: int,
            j: int,
        |
            0 <= i < n && i < j < labels.len() && #[trigger] labels[i] == a && #[trigger] labels[j]
                == b by {
            if all.contains((a, b)) {
                let k = choose|k: int| 0 <= k < all.len() && all[k] == (a, b);
                if k < before.len() {
                    assert(before[k] == (a, b));
                    assert(before.contains((a, b)));
                } else {
                    assert(all[k] == line[k - before.len()]);
                    assert(labels[n + (k - before.len())] == b);
                    assert(labels[n - 1] == a);
                }
            }
            if exists|i: int, j: int|
                0 <= i < n && i < j < labels.len() && #[trigger] labels[i] == a
                    && #[trigger] labels[j] == b {
                let (i, j) = choose|i: int, j: int|
                    0 <= i < n && i < j < labels.len() && #[trigger] labels[i] == a
                        && #[trigger] labels[j] == b;
                if i < n - 1 {
                    assert(labels[i] == a && labels[j] == b);
                    assert(before.contains((a, b)));
                    let k = choose|k: int| 0 <= k < before.len() && before[k] == (a, b);
                    assert(all[k] == (a, b));
                } else {
                    assert(line[j - n] == (a, b));
                    assert(all[before.len() + (j - n)] == (a, b));
                }
            }
        }
    }
}

/// Two labels are those of active leaves below one split among the first nodes.
spec fn leaf_pair(t: TreeShape, n: nat, a: Seq<char>, b: Seq<char>) -> bool {
    exists|i: int, j: int|
        {
            &&& #[trigger] active_leaf(t, i)
            &&& #[trigger] active_leaf(t, j)
            &&& below_one_split(t, i, j)
            &&& t.nodes[i].parent->0 < n
            &&& t.nodes[i].label == a
            &&& t.nodes[j].label == b
        }
}

/// The shape of a tree that was loaded.
spec fn mirrored(t: TreeShape) -> bool {
    &&& t.wf()
    &&& forall|i: int, j: int|
        0 <= i < j < t.nodes.len() ==> (#[trigger] t.nodes[i]).label != (
        #[trigger] t.nodes[j]).label
    &&& forall|k: int, c: int|
        0 <= k < t.nodes.len() && 0 <= c < t.nodes.len() ==> (
        #[trigger] t.nodes[k].children.contains(c) <==> t.nodes[c].parent == Some(k))
    &&& forall|k: int, a: int, b: int|
        0 <= k < t.nodes.len() && 0 <= a < b < t.nodes[k].children.len() ==> (
        #[trigger] t.nodes[k].children[a]) < (#[trigger] t.nodes[k].children[b])
}

proof fn lemma_mirrored(s: TreeStoreView, key_id: i64)
    requires
        s.wf(),
        loaded(s, key_id) is Ok,
    ensures
        mirrored(loaded(s, key_id)->Ok_0),
{
    let t = loaded(s, key_id)->Ok_0;
    loaded_nodes_are_the_rows(s, key_id);
    assert forall|k: int, c: int| 0 <= k < t.nodes.len() && 0 <= c < t.nodes.len() implies (
    #[trigger] t.nodes[k].children.contains(c) <==> t.nodes[c].parent == Some(k)) by {
        loaded_children_are_those_below(s, key_id, k);
    }
    assert forall|k: int, a: int, b: int|
        0 <= k < t.nodes.len() && 0 <= a < b < t.nodes[k].children.len() implies (
    #[trigger] t.nodes[k].children[a]) < (#[trigger] t.nodes[k].children[b]) by {
        loaded_children_are_those_below(s, key_id, k);
    }
}

proof fn lemma_pairs_below(t: TreeShape, p: int, a: Seq<char>, b: Seq<char>)
    requires
        mirrored(t),
        0 <= p < t.nodes.len(),
    ensures
        ({
            let labels = leaf_labels(t, p, -1, t.nodes[p].children.len());
            let pairs = pairs_from(labels, labels.len());
            &&& pairs.contains((a, b)) ==> a != b && exists|i: int, j: int|
                #[trigger] active_leaf(t, i) && #[trigger] active_leaf(t, j) && i != j
                    && t.nodes[i].parent == Some(p) && t.nodes[j].parent == Some(p)
                    && t.nodes[i].label == a && t.nodes[j].label == b
            &&& (exists|i: int, j: int|
                #[trigger] active_leaf(t, i) && #[trigger] active_leaf(t, j) && i != j
                    && t.nodes[i].parent == Some(p) && t.nodes[j].parent == Some(p)
                    && t.nodes[i].label == a && t.nodes[j].label == b) ==> pairs.contains((a, b))
                || pairs.contains((b, a))
        }),
{
    let kids = t.nodes[p].children;
    let labels = leaf_labels(t, p, -1, kids.len());
    let pairs = pairs_from(labels, labels.len());
    lemma_leaf_labels(t, p, -1, kids.len());
    lemma_labels_once(t, p, -1, kids.len());
    lemma_pairs_from(labels, labels.len());
    if pairs.contains((a, b)) {
        let (x, y) = choose|x: int, y: int|
            0 <= x < labels.len() && x < y < labels.len() && #[trigger] labels[x] == a
                && #[trigger] labels[y] == b;
        assert(labels.contains(labels[x]) && labels.contains(labels[y]));
        let u = choose|k: int|
            0 <= k < kids.len() && (#[trigger] t.nodes[p].children[k]) != -1 && active_leaf(
                t,
                t.nodes[p].children[k],
            ) && t.nodes[t.nodes[p].children[k]].label == a;
        let v = choose|k: int|
            0 <= k < kids.len() && (#[trigger] t.nodes[p].children[k]) != -1 && active_leaf(
                t,
                t.nodes[p].children[k],
            ) && t.nodes[t.nodes[p].children[k]].label == b;
        let i = kids[u];
        let j = kids[v];
        assert(t.nodes[p].children.contains(i) && t.nodes[p].children.contains(j));
        assert(active_leaf(t, i) && active_leaf(t, j));
    }
    if exists|i: int, j: int|
        #[trigger] active_leaf(t, i) && #[trigger] active_leaf(t, j) && i != j && t.nodes[i].parent
            == Some(p) && t.nodes[j].parent == Some(p) && t.nodes[i].label == a
            && t.nodes[j].label == b {
        let (i, j) = choose|i: int, j: int|
            #[trigger] active_leaf(t, i) && #[trigger] active_leaf(t, j) && i != j
                && t.nodes[i].parent == Some(p) && t.nodes[j].parent == Some(p) && t.nodes[i].label
                == a && t.nodes[j].label == b;
        assert(t.nodes[p].children.contains(i) && t.nodes[p].children.contains(j));
        let u = choose|u: int| 0 <= u < kids.len() && kids[u] == i;
        let v = choose|v: int| 0 <= v < kids.len() && kids[v] == j;
        assert(t.nodes[p].children[u] == i && t.nodes[p].children[v] == j);
        assert(labels.contains(a) && labels.contains(b));
        let x = choose|x: int| 0 <= x < labels.len() && labels[x] == a;
        let y = choose|y: int| 0 <= y < labels.len() && labels[y] == b;
        assert(a != b) by {
            if i < j {
                assert(t.nodes[i].label != t.nodes[j].label);
            } else {
                assert(t.nodes[j].label != t.nodes[i].label);
            }
        }
        if x < y {
            assert(labels[x] == a && labels[y] == b);
        } else {
            assert(labels[y] == b && labels[x] == a);
        }
    }
}

proof fn lemma_sibling_pairs(t: TreeShape, n: nat, a: Seq<char>, b: Seq<char>)
    requires
        mirrored(t),
        n <= t.nodes.len(),
    ensures
        sibling_pairs(t, n).contains((a, b)) ==> a != b && leaf_pair(t, n, a, b),
        leaf_pair(t, n, a, b) ==> sibling_pairs(t, n).contains((a, b)) || sibling_pairs(
            t,
            n,
        ).contains((b, a)),
    decreases n,
{
    let all = sibling_pairs(t, n);
    if n == 0 {
        assert(!all.contains((a, b)));
        if leaf_pair(t, n, a, b) {
            let (i, j) = choose|i: int, j: int|
                {
                    &&& #[trigger] active_leaf(t, i)
                    &&& #[trigger] active_leaf(t, j)
                    &&& below_one_split(t, i, j)
                    &&& t.nodes[i].parent->0 < n
                    &&& t.nodes[i].label == a
                    &&& t.nodes[j].label == b
                };
            assert(0 <= t.nodes[i].parent->0);
        }
    } else {
        let p = n - 1;
        let m = (n - 1) as nat;
        let before = sibling_pairs(t, m);
        lemma_sibling_pairs(t, m, a, b);
        lemma_pairs_below(t, p, a, b);
        let labels = leaf_labels(t, p, -1, t.nodes[p].children.len());
        let own = pairs_from(labels, labels.len());
        let split = t.nodes[p].threshold is Some;
        assert forall|q: (Seq<char>, Seq<char>)| #[trigger] all.contains(q) <==> before.contains(q)
            || (split && own.contains(q)) by {
            if split {
                assert(all == before + own);
                if all.contains(q) {
                    let k = choose|k: int| 0 <= k < all.len() && all[k] == q;
                    if k < before.len() {
                        assert(before[k] == q);
                    } else {
                        assert(own[k - before.len()] == q);
                    }
                }
                if before.contains(q) {
                    let k = choose|k: int| 0 <= k < before.len() && before[k] == q;
                    assert(all[k] == q);
                }
                if own.contains(q) {
                    let k = choose|k: int| 0 <= k < own.len() && own[k] == q;
                    assert(all[before.len() + k] == q);
                }
            }
        }
        if all.contains((a, b)) {
            if before.contains((a, b)) {
                let (i, j) = choose|i: int, j: int|
                    {
                        &&& #[trigger] active_leaf(t, i)
                        &&& #[trigger] active_leaf(t, j)
                        &&& below_one_split(t, i, j)
                        &&& t.nodes[i].parent->0 < m
                        &&& t.nodes[i].label == a
                        &&& t.nodes[j].label == b
                    };
                assert(active_leaf(t, i) && active_leaf(t, j));
            } else {
                let (i, j) = choose|i: int, j: int|
                    #[trigger] active_leaf(t, i) && #[trigger] active_leaf(t, j) && i != j
                        && t.nodes[i].parent == Some(p) && t.nodes[j].parent == Some(p)
                        && t.nodes[i].label == a && t.nodes[j].label == b;
                assert(active_leaf(t, i) && active_leaf(t, j));
                assert(below_one_split(t, i, j));
            }
            assert(leaf_pair(t, n, a, b));
        }
        if leaf_pair(t, n, a, b) {
            let (i, j) = choose|i: int, j: int|
                {
                    &&& #[trigger] active_leaf(t, i)
                    &&& #[trigger] active_leaf(t, j)
                    &&& below_one_split(t, i, j)
                    &&& t.nodes[i].parent->0 < n
                    &&& t.nodes[i].label == a
                    &&& t.nodes[j].label == b
                };
            assert(active_leaf(t, i) && active_leaf(t, j));
            if t.nodes[i].parent->0 < m {
                assert(leaf_pair(t, m, a, b));
            } else {
                assert(t.nodes[i].parent == Some(p));
                assert(split);
            }
            assert(all.contains((a, b)) || all.contains((b, a)));
        }
    }
}

/// After every two sibling leaves were bound, any two different active leaves below
/// the same split are paired and each whitelists the other. What was there before
/// stays, and nothing else is added. It succeeds for every tree that loads.
pub proof fn all_sibling_leaves_are_paired(s: TreeStoreView, key_id: i64)
    requires
        s.wf(),
    ensures
        ({
            let (after, fault) = bound_throughout(s, key_id);
            match loaded(s, key_id) {
                Err(e) => after == s && fault == Some(e),
                Ok(t) => {
                    &&& fault is None
                    &&& after.nodes == s.nodes && after.keys == s.keys
                    &&& forall|i: int, j: int|
                        #[trigger] active_leaf(t, i) && #[trigger] active_leaf(t, j)
                            && below_one_split(t, i, j) ==> after.links.contains(
                            link_of(t.nodes[i].db_id, t.nodes[j].db_id),
                        ) && after.bridges.contains((t.nodes[i].db_id, t.nodes[j].label))
                            && after.bridges.contains((t.nodes[j].db_id, t.nodes[i].label))
                    &&& forall|l: (i64, i64)| #[trigger]
                        s.links.contains(l) ==> after.links.contains(l)
                    &&& forall|p: (i64, Seq<char>)| #[trigger]
                        s.bridges.contains(p) ==> after.bridges.contains(p)
                    &&& forall|l: (i64, i64)| #[trigger]
                        after.links.contains(l) && !s.links.contains(l) ==> exists|i: int, j: int|
                            #[trigger] active_leaf(t, i) && #[trigger] active_leaf(t, j)
                                && below_one_split(t, i, j) && l == link_of(
                                t.nodes[i].db_id,
                                t.nodes[j].db_id,
                            )
                    &&& forall|p: (i64, Seq<char>)| #[trigger]
                        after.bridges.contains(p) && !s.bridges.contains(p) ==> exists|
                            i: int,
                            j: int,
                        |
                            #[trigger] active_leaf(t, i) && #[trigger] active_leaf(t, j)
                                && below_one_split(t, i, j) && p == (
                                t.nodes[i].db_id,
                                t.nodes[j].label,
                            )
                },
            }
        }),
{
    if loaded(s, key_id) is Ok {
        let t = loaded(s, key_id)->Ok_0;
        let n = t.nodes.len();
        let pairs = sibling_pairs(t, n);
        let after = bound_throughout(s, key_id).0;
        lemma_mirrored(s, key_id);
        assert forall|k: int| 0 <= k < pairs.len() implies (#[trigger] pairs[k]).0 != pairs[k].1
            && leaf_pair(t, n, pairs[k].0, pairs[k].1) by {
            assert(pairs.contains((pairs[k].0, pairs[k].1)));
            lemma_sibling_pairs(t, n, pairs[k].0, pairs[k].1);
        }
        assert forall|i: int| 0 <= i < t.nodes.len() implies labelled_id(
            s.nodes,
            key_id,
            (#[trigger] t.nodes[i]).label,
        ) == Some(t.nodes[i].db_id) by {
            lemma_label_agrees(s, key_id, t.nodes[i].label);
        }
        assert(bindable(s, key_id, pairs)) by {
            assert forall|k: int| 0 <= k < pairs.len() implies (#[trigger] pairs[k]).0
                != pairs[k].1 && labelled_id(s.nodes, key_id, pairs[k].0) is Some && labelled_id(
                s.nodes,
                key_id,
                pairs[k].1,
            ) is Some by {
                assert(leaf_pair(t, n, pairs[k].0, pairs[k].1));
            }
        }
        lemma_bound_pairs(s, key_id, pairs, pairs.len());
        assert forall|i: int, j: int|
            #[trigger] active_leaf(t, i) && #[trigger] active_leaf(t, j) && below_one_split(
                t,
                i,
                j,
            ) implies after.links.contains(link_of(t.nodes[i].db_id, t.nodes[j].db_id))
            && after.bridges.contains((t.nodes[i].db_id, t.nodes[j].label))
            && after.bridges.contains((t.nodes[j].db_id, t.nodes[i].label)) by {
            let a = t.nodes[i].label;
            let b = t.nodes[j].label;
            assert(t.nodes[i].parent->0 < n);
            assert(leaf_pair(t, n, a, b));
            lemma_sibling_pairs(t, n, a, b);
            let q = if pairs.contains((a, b)) {
                (a, b)
            } else {
                (b, a)
            };
            let k = choose|k: int| 0 <= k < pairs.len() && pairs[k] == q;
            assert(permits(s, key_id, pairs[k], (t.nodes[i].db_id, b)));
            assert(permits(s, key_id, pairs[k], (t.nodes[j].db_id, a)));
            assert(links(s, key_id, pairs[k], link_of(t.nodes[i].db_id, t.nodes[j].db_id)));
        }
        assert forall|l: (i64, i64)| #[trigger]
            after.links.contains(l) && !s.links.contains(l) implies exists|i: int, j: int|
            #[trigger] active_leaf(t, i) && #[trigger] active_leaf(t, j) && below_one_split(t, i, j)
                && l == link_of(t.nodes[i].db_id, t.nodes[j].db_id) by {
            let k = choose|k: int|
                0 <= k < pairs.len() && links(s, key_id, #[trigger] pairs[k], l);
            assert(leaf_pair(t, n, pairs[k].0, pairs[k].1));
        }
        assert forall|p: (i64, Seq<char>)| #[trigger]
            after.bridges.contains(p) && !s.bridges.contains(p) implies exists|i: int, j: int|
            #[trigger] active_leaf(t, i) && #[trigger] active_leaf(t, j) && below_one_split(t, i, j)
                && p == (t.nodes[i].db_id, t.nodes[j].label) by {
            let k = choose|k: int|
                0 <= k < pairs.len() && permits(s, key_id, #[trigger] pairs[k], p);
            assert(leaf_pair(t, n, pairs[k].0, pairs[k].1));
            let (i, j) = choose|i: int, j: int|
                {
                    &&& #[trigger] active_leaf(t, i)
                    &&& #[trigger] active_leaf(t, j)
                    &&& below_one_split(t, i, j)
                    &&& t.nodes[i].parent->0 < n
                    &&& t.nodes[i].label == pairs[k].0
                    &&& t.nodes[j].label == pairs[k].1
                };
            assert(below_one_split(t, j, i));
            if p == (t.nodes[i].db_id, t.nodes[j].label) {
                assert(active_leaf(t, i) && active_leaf(t, j));
            } else {
                assert(active_leaf(t, j) && active_leaf(t, i));
            }
        }
    }
}

/// After a leaf was bound to its siblings, it is paired with every other active leaf
/// below its parent, and each whitelists the other. What was there before stays, and
/// nothing else is added.
pub proof fn leaf_is_paired_with_its_siblings(s: TreeStoreView, key_id: i64, i: int)
    requires
        s.wf(),
        loaded(s, key_id) is Ok,
        0 <= i < (loaded(s, key_id)->Ok_0).nodes.len(),
    ensures
        ({
            let t = loaded(s, key_id)->Ok_0;
            let (after, fault) = bound_to_siblings(s, key_id, t.nodes[i].label);
            match t.nodes[i].parent {
                None => after == s && fault == Some(Error::InvalidBridge),
                Some(p) => {
                    &&& fault is None
                    &&& after.nodes == s.nodes && after.keys == s.keys
                    &&& forall|l: (i64, i64)| #[trigger]
                        after.links.contains(l) <==> s.links.contains(l) || exists|j: int|
                            #[trigger] active_leaf(t, j) && j != i && t.nodes[j].parent == Some(p)
                                && l == link_of(t.nodes[i].db_id, t.nodes[j].db_id)
                    &&& forall|q: (i64, Seq<char>)| #[trigger]
                        after.bridges.contains(q) <==> s.bridges.contains(q) || exists|j: int|
                            #[trigger] active_leaf(t, j) && j != i && t.nodes[j].parent == Some(p)
                                && (q == (t.nodes[i].db_id, t.nodes[j].label) || q == (
                                t.nodes[j].db_id,
                                t.nodes[i].label,
                            ))
                },
            }
        }),
{
    let t = loaded(s, key_id)->Ok_0;
    lemma_mirrored(s, key_id);
    assert forall|k: int| 0 <= k < t.nodes.len() implies labelled_id(
        s.nodes,
        key_id,
        (#[trigger] t.nodes[k]).label,
    ) == Some(t.nodes[k].db_id) && labelled_place(t, t.nodes[k].label) == Some(k) by {
        lemma_label_agrees(s, key_id, t.nodes[k].label);
    }
    assert(labelled_place(t, t.nodes[i].label) == Some(i));
    if let Some(p) = t.nodes[i].parent {
        let kids = t.nodes[p].children;
        let own = t.nodes[i].label;
        let labels = leaf_labels(t, p, i, kids.len());
        let pairs = with_each(own, labels);
        let after = bound_to_siblings(s, key_id, own).0;
        lemma_leaf_labels(t, p, i, kids.len());
        assert forall|k: int| 0 <= k < labels.len() implies exists|j: int|
            #[trigger] active_leaf(t, j) && j != i && t.nodes[j].parent == Some(p)
                && t.nodes[j].label == #[trigger] labels[k] by {
            assert(labels.contains(labels[k]));
            let u = choose|u: int|
                0 <= u < kids.len() && (#[trigger] t.nodes[p].children[u]) != i && active_leaf(
                    t,
                    t.nodes[p].children[u],
                ) && t.nodes[t.nodes[p].children[u]].label == labels[k];
            assert(t.nodes[p].children.contains(kids[u]));
            assert(active_leaf(t, kids[u]));
        }
        assert forall|j: int|
            #[trigger] active_leaf(t, j) && j != i && t.nodes[j].parent == Some(p) implies
            labels.contains(t.nodes[j].label) by {
            assert(t.nodes[p].children.contains(j));
            let u = choose|u: int| 0 <= u < kids.len() && kids[u] == j;
            assert(t.nodes[p].children[u] == j);
        }
        assert(bindable(s, key_id, pairs)) by {
            assert forall|k: int| 0 <= k < pairs.len() implies (#[trigger] pairs[k]).0
                != pairs[k].1 && labelled_id(s.nodes, key_id, pairs[k].0) is Some && labelled_id(
                s.nodes,
                key_id,
                pairs[k].1,
            ) is Some by {
                assert(pairs[k] == (own, labels[k]));
                let j = choose|j: int|
                    #[trigger] active_leaf(t, j) && j != i && t.nodes[j].parent == Some(p)
                        && t.nodes[j].label == labels[k];
                assert(t.nodes[j].label == labels[k]);
                if i < j {
                    assert(t.nodes[i].label != t.nodes[j].label);
                } else {
                    assert(t.nodes[j].label != t.nodes[i].label);
                }
            }
        }
        lemma_bound_pairs(s, key_id, pairs, pairs.len());
        assert forall|l: (i64, i64)| #[trigger]
            after.links.contains(l) <==> s.links.contains(l) || exists|j: int|
                #[trigger] active_leaf(t, j) && j != i && t.nodes[j].parent == Some(p) && l
                    == link_of(t.nodes[i].db_id, t.nodes[j].db_id) by {
            if exists|k: int| 0 <= k < pairs.len() && links(s, key_id, #[trigger] pairs[k], l) {
                let k = choose|k: int|
                    0 <= k < pairs.len() && links(s, key_id, #[trigger] pairs[k], l);
                assert(pairs[k] == (own, labels[k]));
                let j = choose|j: int|
                    #[trigger] active_leaf(t, j) && j != i && t.nodes[j].parent == Some(p)
                        && t.nodes[j].label == labels[k];
                assert(active_leaf(t, j));
                assert(t.nodes[j].label == labels[k]);
            }
            if exists|j: int|
                #[trigger] active_leaf(t, j) && j != i && t.nodes[j].parent == Some(p) && l
                    == link_of(t.nodes[i].db_id, t.nodes[j].db_id) {
                let j = choose|j: int|
                    #[trigger] active_leaf(t, j) && j != i && t.nodes[j].parent == Some(p) && l
                        == link_of(t.nodes[i].db_id, t.nodes[j].db_id);
                let k = choose|k: int| 0 <= k < labels.len() && labels[k] == t.nodes[j].label;
                assert(pairs[k] == (own, labels[k]));
                assert(links(s, key_id, pairs[k], l));
            }
        }
        assert forall|q: (i64, Seq<char>)| #[trigger]
            after.bridges.contains(q) <==> s.bridges.contains(q) || exists|j: int|
                #[trigger] active_leaf(t, j) && j != i && t.nodes[j].parent == Some(p) && (q == (
                    t.nodes[i].db_id,
                    t.nodes[j].label,
                ) || q == (t.nodes[j].db_id, t.nodes[i].label)) by {
            if exists|k: int| 0 <= k < pairs.len() && permits(s, key_id, #[trigger] pairs[k], q) {
                let k = choose|k: int|
                    0 <= k < pairs.len() && permits(s, key_id, #[trigger] pairs[k], q);
                assert(pairs[k] == (own, labels[k]));
                let j = choose|j: int|
                    #[trigger] active_leaf(t, j) && j != i && t.nodes[j].parent == Some(p)
                        && t.nodes[j].label == labels[k];
                assert(active_leaf(t, j));
                assert(t.nodes[j].label == labels[k]);
            }
            if exists|j: int|
                #[trigger] active_leaf(t, j) && j != i && t.nodes[j].parent == Some(p) && (q == (
                    t.nodes[i].db_id,
                    t.nodes[j].label,
                ) || q == (t.nodes[j].db_id, t.nodes[i].label)) {
                let j = choose|j: int|
                    #[trigger] active_leaf(t, j) && j != i && t.nodes[j].parent == Some(p) && (q
                        == (t.nodes[i].db_id, t.nodes[j].label) || q == (
                        t.nodes[j].db_id,
                        t.nodes[i].label,
                    ));
                let k = choose|k: int| 0 <= k < labels.len() && labels[k] == t.nodes[j].label;
                assert(pairs[k] == (own, labels[k]));
                assert(permits(s, key_id, pairs[k], q));
            }
        }
    }
}

/// A leaf is bound to its siblings only where its tree loads, it is there, and it has a
/// parent. Otherwise nothing changes.
pub proof fn binding_siblings_is_refused(s: TreeStoreView, key_id: i64, leaf: Seq<char>)
    ensures
        loaded(s, key_id) matches Err(e) ==> bound_to_siblings(s, key_id, leaf) == (s, Some(e)),
        (loaded(s, key_id) matches Ok(t) && labelled_place(t, leaf) is None) ==> bound_to_siblings(
            s,
            key_id,
            leaf,
        ) == (s, Some(Error::NodeNotFound)),
        (loaded(s, key_id) matches Ok(t) && (labelled_place(t, leaf) matches Some(i)
            && t.nodes[i].parent is None)) ==> bound_to_siblings(s, key_id, leaf) == (
            s,
            Some(Error::InvalidBridge),
        ),
        loaded(s, key_id) matches Err(e) ==> bound_throughout(s, key_id) == (s, Some(e)),
{
}

} // verus!
