//! Cross-branch permissions and pairings.
//!
//! A node's whitelist names the peers that it may be paired with; a pairing
//! joins two nodes. Each operation is described by the tables it leaves and
//! the error it ends with, if it does.

use vstd::prelude::*;

use crate::error::{fault_of, Error};
use crate::key_tree::store::{labelled_at, labelled_id, node_exists, node_id_for_label,
    nodes_ordered, NodeRowView, TreeStore, TreeStoreView};
use crate::key_tree::tree::{
    key_rows, labels_repeat, lemma_rows_ordered, loaded, shape_of_row, KeyQuorumTree, TreeShape,
};
use crate::text::{contains_text, pair_views, text_equal, text_views};

verus! {

/// What an operation leaves behind, and the error it ends with.
pub type Outcome = (TreeStoreView, Option<Error>);

/// A pairing of two ids, the smaller one first.
pub open spec fn link_of(a: i64, b: i64) -> (i64, i64) {
    if a < b {
        (a, b)
    } else {
        (b, a)
    }
}

/// Orders the ids of a pairing; a node is not paired with itself.
pub fn ordered_pair(a: i64, b: i64) -> (r: Result<(i64, i64), Error>)
    ensures
        r == (if a == b {
            Err::<(i64, i64), Error>(Error::InvalidBridge)
        } else {
            Ok(link_of(a, b))
        }),
{
    if a == b {
        return Err(Error::InvalidBridge);
    }
    if a < b {
        Ok((a, b))
    } else {
        Ok((b, a))
    }
}

/// A pairing is the same from either side.
pub proof fn pairing_has_no_direction(a: i64, b: i64)
    ensures
        link_of(a, b) == link_of(b, a),
        a != b ==> link_of(a, b).0 < link_of(a, b).1,
{
}

/// The node's whitelist gets the peer.
pub open spec fn allowed(s: TreeStoreView, key_id: i64, node: Seq<char>, peer: Seq<char>) -> Outcome {
    if node == peer {
        (s, Some(Error::InvalidBridge))
    } else {
        match (labelled_id(s.nodes, key_id, node), labelled_id(s.nodes, key_id, peer)) {
            (Some(node_id), Some(_)) => (
                TreeStoreView { bridges: s.bridges.insert((node_id, peer)), ..s },
                None,
            ),
            _ => (s, Some(Error::NodeNotFound)),
        }
    }
}

/// Neither whitelist holds the other any more, and the two are not paired.
pub open spec fn denied(s: TreeStoreView, key_id: i64, node: Seq<char>, peer: Seq<char>) -> Outcome {
    match (labelled_id(s.nodes, key_id, node), labelled_id(s.nodes, key_id, peer)) {
        (Some(node_id), Some(peer_id)) => (
            TreeStoreView {
                bridges: s.bridges.remove((node_id, peer)).remove((peer_id, node)),
                links: s.links.remove(link_of(node_id, peer_id)),
                ..s
            },
            None,
        ),
        _ => (s, Some(Error::NodeNotFound)),
    }
}

/// The two are paired, if one of them whitelists the other.
pub open spec fn paired(s: TreeStoreView, key_id: i64, from: Seq<char>, to: Seq<char>) -> Outcome {
    match loaded(s, key_id) {
        Err(e) => (s, Some(e)),
        Ok(_) => match (labelled_id(s.nodes, key_id, from), labelled_id(s.nodes, key_id, to)) {
            (Some(a), Some(b)) => if a == b {
                (s, Some(Error::InvalidBridge))
            } else if !s.bridges.contains((a, to)) && !s.bridges.contains((b, from)) {
                (s, Some(Error::BridgeNotWhitelisted))
            } else {
                (TreeStoreView { links: s.links.insert(link_of(a, b)), ..s }, None)
            },
            _ => (s, Some(Error::NodeNotFound)),
        },
    }
}

/// The two are no longer paired; the whitelists stay.
pub open spec fn unpaired(s: TreeStoreView, key_id: i64, from: Seq<char>, to: Seq<char>) -> Outcome {
    match (labelled_id(s.nodes, key_id, from), labelled_id(s.nodes, key_id, to)) {
        (Some(a), Some(b)) => if a == b {
            (s, Some(Error::InvalidBridge))
        } else if !s.links.contains(link_of(a, b)) {
            (s, Some(Error::BridgeNotFound))
        } else {
            (TreeStoreView { links: s.links.remove(link_of(a, b)), ..s }, None)
        },
        _ => (s, Some(Error::NodeNotFound)),
    }
}

/// Both whitelists get the other, then the two are paired.
pub open spec fn bound(s: TreeStoreView, key_id: i64, a: Seq<char>, b: Seq<char>) -> Outcome {
    let there = allowed(s, key_id, a, b);
    if there.1 is Some {
        there
    } else {
        let back = allowed(there.0, key_id, b, a);
        if back.1 is Some {
            back
        } else {
            paired(back.0, key_id, a, b)
        }
    }
}

/// The first `n` pairs are bound in turn, up to the first that fails.
pub open spec fn bound_pairs(
    s: TreeStoreView,
    key_id: i64,
    pairs: Seq<(Seq<char>, Seq<char>)>,
    n: nat,
) -> Outcome
    decreases n,
{
    if n == 0 {
        (s, None)
    } else {
        let before = bound_pairs(s, key_id, pairs, (n - 1) as nat);
        if before.1 is Some {
            before
        } else {
            bound(before.0, key_id, pairs[n - 1].0, pairs[n - 1].1)
        }
    }
}

/// The labels of the active leaves among the first `n` children, without the
/// one at place `except`.
pub open spec fn leaf_labels(t: TreeShape, i: int, except: int, n: nat) -> Seq<Seq<char>>
    decreases n,
{
    if n == 0 {
        Seq::empty()
    } else {
        let before = leaf_labels(t, i, except, (n - 1) as nat);
        let child = t.nodes[i].children[n - 1];
        if child != except && t.nodes[child].is_active && t.nodes[child].hardware_key_id is Some {
            before.push(t.nodes[child].label)
        } else {
            before
        }
    }
}

/// One label with each of the others.
pub open spec fn with_each(label: Seq<char>, others: Seq<Seq<char>>) -> Seq<(Seq<char>, Seq<char>)> {
    Seq::new(others.len(), |k: int| (label, others[k]))
}

/// The pairs of two labels that start at one of the first `n`.
pub open spec fn pairs_from(labels: Seq<Seq<char>>, n: nat) -> Seq<(Seq<char>, Seq<char>)>
    decreases n,
{
    if n == 0 {
        Seq::empty()
    } else {
        pairs_from(labels, (n - 1) as nat) + with_each(labels[n - 1], labels.skip(n as int))
    }
}

/// The pairs of active leaves below the splits among the first `n` nodes.
pub open spec fn sibling_pairs(t: TreeShape, n: nat) -> Seq<(Seq<char>, Seq<char>)>
    decreases n,
{
    if n == 0 {
        Seq::empty()
    } else {
        let before = sibling_pairs(t, (n - 1) as nat);
        if t.nodes[n - 1].threshold is Some {
            let labels = leaf_labels(t, n - 1, -1, t.nodes[n - 1].children.len());
            before + pairs_from(labels, labels.len())
        } else {
            before
        }
    }
}

/// A leaf is bound to each active leaf beside it.
pub open spec fn bound_to_siblings(s: TreeStoreView, key_id: i64, leaf: Seq<char>) -> Outcome {
    match loaded(s, key_id) {
        Err(e) => (s, Some(e)),
        Ok(t) => match labelled_place(t, leaf) {
            None => (s, Some(Error::NodeNotFound)),
            Some(i) => match t.nodes[i].parent {
                None => (s, Some(Error::InvalidBridge)),
                Some(p) => {
                    let pairs = with_each(leaf, leaf_labels(t, p, i, t.nodes[p].children.len()));
                    bound_pairs(s, key_id, pairs, pairs.len())
                },
            },
        },
    }
}

/// Active leaves below one split are bound to each other.
pub open spec fn bound_throughout(s: TreeStoreView, key_id: i64) -> Outcome {
    match loaded(s, key_id) {
        Err(e) => (s, Some(e)),
        Ok(t) => {
            let pairs = sibling_pairs(t, t.nodes.len());
            bound_pairs(s, key_id, pairs, pairs.len())
        },
    }
}

/// The place of the first node with the label.
#[verifier::opaque]
pub open spec fn labelled_place(t: TreeShape, label: Seq<char>) -> Option<int> {
    if exists|i: int| 0 <= i < t.nodes.len() && (#[trigger] t.nodes[i]).label == label {
        Some(
            choose|i: int|
                0 <= i < t.nodes.len() && (#[trigger] t.nodes[i]).label == label && forall|j: int|
                    0 <= j < i ==> (#[trigger] t.nodes[j]).label != label,
        )
    } else {
        None
    }
}

/// In a tree that loads, a label leads to the same node by place and by id.
pub proof fn lemma_label_agrees(s: TreeStoreView, key_id: i64, label: Seq<char>)
    requires
        nodes_ordered(s.nodes),
        loaded(s, key_id) is Ok,
    ensures
        ({
            let t = loaded(s, key_id)->Ok_0;
            match labelled_place(t, label) {
                Some(i) => 0 <= i < t.nodes.len() && t.nodes[i].label == label && labelled_id(
                    s.nodes,
                    key_id,
                    label,
                ) == Some(t.nodes[i].db_id),
                None => labelled_id(s.nodes, key_id, label) is None,
            }
        }),
        forall|i: int|
            0 <= i < (loaded(s, key_id)->Ok_0).nodes.len() && (#[trigger] (loaded(
                s,
                key_id,
            )->Ok_0).nodes[i]).label == label ==> labelled_place(loaded(s, key_id)->Ok_0, label)
                == Some(i),
{
    reveal(labelled_id);
    reveal(labelled_place);
    let t = loaded(s, key_id)->Ok_0;
    let rows = key_rows(s.nodes, key_id);
    lemma_rows_ordered(s.nodes, key_id);
    assert(!labels_repeat(rows));
    assert forall|i: int, j: int|
        0 <= i < t.nodes.len() && 0 <= j < t.nodes.len() && (#[trigger] t.nodes[i]).label == label
            && (#[trigger] t.nodes[j]).label == label implies i == j by {
        assert(t.nodes[i].label == rows[i].label);
        assert(t.nodes[j].label == rows[j].label);
        if i < j {
            assert(rows[i].label != rows[j].label);
        } else if j < i {
            assert(rows[j].label != rows[i].label);
        }
    }
    assert forall|k: int| labelled_at(s.nodes, key_id, label, k) implies exists|i: int|
        0 <= i < t.nodes.len() && (#[trigger] t.nodes[i]).label == label && t.nodes[i].db_id
            == s.nodes[k].id by {
        assert(rows.contains(s.nodes[k]));
        let i = choose|i: int| 0 <= i < rows.len() && rows[i] == s.nodes[k];
        assert(t.nodes[i].label == rows[i].label);
        assert(t.nodes[i].db_id == rows[i].id);
    }
    if exists|i: int| 0 <= i < t.nodes.len() && (#[trigger] t.nodes[i]).label == label {
        let i = choose|i: int| 0 <= i < t.nodes.len() && (#[trigger] t.nodes[i]).label == label;
        assert(t.nodes[i].label == rows[i].label);
        assert(s.nodes.contains(rows[i]));
        let k = choose|k: int| 0 <= k < s.nodes.len() && s.nodes[k] == rows[i];
        assert(labelled_at(s.nodes, key_id, label, k));
        lemma_first_label(s.nodes, key_id, label, k);
        let p = choose|p: int| #[trigger]
            labelled_at(s.nodes, key_id, label, p) && forall|j: int|
                0 <= j < p ==> !#[trigger] labelled_at(s.nodes, key_id, label, j);
        assert(labelled_at(s.nodes, key_id, label, p));
        let q = choose|q: int|
            0 <= q < t.nodes.len() && (#[trigger] t.nodes[q]).label == label && t.nodes[q].db_id
                == s.nodes[p].id;
        assert(q == i);
    }
}

proof fn lemma_first_label(nodes: Seq<NodeRowView>, key_id: i64, label: Seq<char>, k: int)
    requires
        labelled_at(nodes, key_id, label, k),
    ensures
        exists|i: int| #[trigger]
            labelled_at(nodes, key_id, label, i) && forall|j: int|
                0 <= j < i ==> !#[trigger] labelled_at(nodes, key_id, label, j),
    decreases k,
{
    if exists|j: int| 0 <= j < k && labelled_at(nodes, key_id, label, j) {
        let j = choose|j: int| 0 <= j < k && labelled_at(nodes, key_id, label, j);
        lemma_first_label(nodes, key_id, label, j);
    }
}

proof fn lemma_labelled_exists(nodes: Seq<NodeRowView>, key_id: i64, label: Seq<char>)
    ensures
        labelled_id(nodes, key_id, label) matches Some(id) ==> node_exists(nodes, id),
{
    reveal(labelled_id);
    if exists|i: int| labelled_at(nodes, key_id, label, i) {
        let k = choose|i: int| labelled_at(nodes, key_id, label, i);
        lemma_first_label(nodes, key_id, label, k);
        let p = choose|p: int| #[trigger]
            labelled_at(nodes, key_id, label, p) && forall|j: int|
                0 <= j < p ==> !#[trigger] labelled_at(nodes, key_id, label, j);
        assert(nodes[p].id == labelled_id(nodes, key_id, label)->0);
    }
}

/// Lets a node be paired with a peer.
pub fn allow_bridge(store: &mut TreeStore, key_id: i64, node_label: &str, peer_label: &str) -> (r:
    Result<(), Error>)
    requires
        old(store).wf(),
    ensures
        final(store).wf(),
        (final(store)@, fault_of(r)) == allowed(old(store)@, key_id, node_label@, peer_label@),
{
    if text_equal(node_label, peer_label) {
        return Err(Error::InvalidBridge);
    }
    let node_id: i64 = match node_id_for_label(store, key_id, node_label) {
        Ok(id) => id,
        Err(e) => { return Err(e); },
    };
    match node_id_for_label(store, key_id, peer_label) {
        Ok(_) => {},
        Err(e) => { return Err(e); },
    }
    proof {
        lemma_labelled_exists(store@.nodes, key_id, node_label@);
    }
    store.insert_bridge(node_id, peer_label);
    Ok(())
}

/// Takes the permission back in both directions, and any pairing with it.
pub fn deny_bridge(store: &mut TreeStore, key_id: i64, node_label: &str, peer_label: &str) -> (r:
    Result<(), Error>)
    requires
        old(store).wf(),
    ensures
        final(store).wf(),
        (final(store)@, fault_of(r)) == denied(old(store)@, key_id, node_label@, peer_label@),
{
    let node_id: i64 = match node_id_for_label(store, key_id, node_label) {
        Ok(id) => id,
        Err(e) => { return Err(e); },
    };
    let peer_id: i64 = match node_id_for_label(store, key_id, peer_label) {
        Ok(id) => id,
        Err(e) => { return Err(e); },
    };
    let ghost before = store@;
    store.remove_bridge_row(node_id, peer_label);
    store.remove_bridge_row(peer_id, node_label);
    match ordered_pair(node_id, peer_id) {
        Ok((lo, hi)) => {
            let _ = store.remove_link_row(lo, hi);
        },
        Err(_) => {
            assert(before.links.remove(link_of(node_id, peer_id)) =~= before.links) by {
                assert(!before.links.contains((node_id, node_id)));
            }
        },
    }
    Ok(())
}

/// Pairs two nodes, if the whitelist of either allows it.
pub fn add_bridge(store: &mut TreeStore, key_id: i64, from_label: &str, to_label: &str) -> (r: Result<
    (),
    Error,
>)
    requires
        old(store).wf(),
    ensures
        final(store).wf(),
        (final(store)@, fault_of(r)) == paired(old(store)@, key_id, from_label@, to_label@),
{
    let tree = match KeyQuorumTree::load(store, key_id) {
        Ok(tree) => tree,
        Err(e) => { return Err(e); },
    };
    proof {
        lemma_label_agrees(store@, key_id, from_label@);
        lemma_label_agrees(store@, key_id, to_label@);
    }
    let idx_a: usize = match tree.index_by_label(from_label) {
        Ok(i) => i,
        Err(e) => { return Err(e); },
    };
    let idx_b: usize = match tree.index_by_label(to_label) {
        Ok(i) => i,
        Err(e) => { return Err(e); },
    };
    let ghost rows = key_rows(store@.nodes, key_id);
    assert(tree@.nodes[idx_a as int] == tree.nodes@[idx_a as int]@);
    assert(tree@.nodes[idx_b as int] == tree.nodes@[idx_b as int]@);
    assert(tree@.nodes[idx_a as int] == shape_of_row(rows, store@.bridges, idx_a as int));
    assert(tree@.nodes[idx_b as int] == shape_of_row(rows, store@.bridges, idx_b as int));
    proof {
        lemma_rows_ordered(store@.nodes, key_id);
    }
    if idx_a == idx_b {
        return Err(Error::InvalidBridge);
    }
    proof {
        if idx_a < idx_b {
            assert(rows[idx_a as int].id < rows[idx_b as int].id);
        } else {
            assert(rows[idx_b as int].id < rows[idx_a as int].id);
        }
        assert(tree@.nodes[idx_a as int].allowed.contains(to_label@) <==> text_views(
            tree.nodes@[idx_a as int].allowed_bridges@,
        ).contains(to_label@));
        assert(tree@.nodes[idx_b as int].allowed.contains(from_label@) <==> text_views(
            tree.nodes@[idx_b as int].allowed_bridges@,
        ).contains(from_label@));
    }
    let authorized = contains_text(&tree.nodes[idx_a].allowed_bridges, to_label) || contains_text(
        &tree.nodes[idx_b].allowed_bridges,
        from_label,
    );
    if !authorized {
        return Err(Error::BridgeNotWhitelisted);
    }
    match ordered_pair(tree.nodes[idx_a].db_id, tree.nodes[idx_b].db_id) {
        Ok((lo, hi)) => {
            proof {
                lemma_labelled_exists(store@.nodes, key_id, from_label@);
                lemma_labelled_exists(store@.nodes, key_id, to_label@);
            }
            store.insert_link(lo, hi);
            Ok(())
        },
        Err(e) => Err(e),
    }
}

/// Tears a pairing down; the whitelists are left alone.
pub fn remove_bridge(store: &mut TreeStore, key_id: i64, from_label: &str, to_label: &str) -> (r:
    Result<(), Error>)
    requires
        old(store).wf(),
    ensures
        final(store).wf(),
        (final(store)@, fault_of(r)) == unpaired(old(store)@, key_id, from_label@, to_label@),
{
    let a: i64 = match node_id_for_label(store, key_id, from_label) {
        Ok(id) => id,
        Err(e) => { return Err(e); },
    };
    let b: i64 = match node_id_for_label(store, key_id, to_label) {
        Ok(id) => id,
        Err(e) => { return Err(e); },
    };
    let ghost before = store@;
    match ordered_pair(a, b) {
        Ok((lo, hi)) => {
            if store.remove_link_row(lo, hi) {
                Ok(())
            } else {
                assert(before.links.remove((lo, hi)) =~= before.links);
                Err(Error::BridgeNotFound)
            }
        },
        Err(e) => Err(e),
    }
}

/// Whitelists both directions and establishes the pairing. Ids of nodes stay
/// when shares are refreshed or sealed anew, and so does the pairing.
pub fn bind_pair(store: &mut TreeStore, key_id: i64, a_label: &str, b_label: &str) -> (r: Result<
    (),
    Error,
>)
    requires
        old(store).wf(),
    ensures
        final(store).wf(),
        (final(store)@, fault_of(r)) == bound(old(store)@, key_id, a_label@, b_label@),
{
    match allow_bridge(store, key_id, a_label, b_label) {
        Ok(()) => {},
        Err(e) => { return Err(e); },
    }
    match allow_bridge(store, key_id, b_label, a_label) {
        Ok(()) => {},
        Err(e) => { return Err(e); },
    }
    add_bridge(store, key_id, a_label, b_label)
}

fn bind_pairs(store: &mut TreeStore, key_id: i64, pairs: &Vec<(String, String)>) -> (r: Result<
    (),
    Error,
>)
    requires
        old(store).wf(),
    ensures
        final(store).wf(),
        (final(store)@, fault_of(r)) == bound_pairs(
            old(store)@,
            key_id,
            pair_views(pairs@),
            pairs@.len(),
        ),
{
    let ghost views = pair_views(pairs@);
    let mut i: usize = 0;
    while i < pairs.len()
        invariant
            i <= pairs.len(),
            store.wf(),
            views == pair_views(pairs@),
            (store@, None::<Error>) == bound_pairs(old(store)@, key_id, views, i as nat),
        decreases pairs.len() - i,
    {
        assert(views[i as int] == (pairs@[i as int].0@, pairs@[i as int].1@));
        match bind_pair(store, key_id, pairs[i].0.as_str(), pairs[i].1.as_str()) {
            Ok(()) => {},
            Err(e) => {
                proof {
                    lemma_failure_ends(old(store)@, key_id, views, (i + 1) as nat);
                }
                return Err(e);
            },
        }
        i += 1;
    }
    Ok(())
}

proof fn lemma_failure_ends(
    s: TreeStoreView,
    key_id: i64,
    pairs: Seq<(Seq<char>, Seq<char>)>,
    n: nat,
)
    requires
        n <= pairs.len(),
        bound_pairs(s, key_id, pairs, n).1 is Some,
    ensures
        bound_pairs(s, key_id, pairs, pairs.len()) == bound_pairs(s, key_id, pairs, n),
    decreases pairs.len() - n,
{
    if n < pairs.len() {
        lemma_failure_ends(s, key_id, pairs, n + 1);
    }
}

impl KeyQuorumTree {
    fn active_leaf_labels(&self, i: usize, except: Option<usize>) -> (r: Vec<String>)
        requires
            self@.wf(),
            i < self@.nodes.len(),
        ensures
            text_views(r@) == leaf_labels(
                self@,
                i as int,
                match except {
                    Some(e) => e as int,
                    None => -1,
                },
                self@.nodes[i as int].children.len(),
            ),
    {
        let ghost t = self@;
        let ghost without: int = match except {
            Some(e) => e as int,
            None => -1,
        };
        assert(t.nodes[i as int] == self.nodes@[i as int]@);
        let mut labels: Vec<String> = Vec::new();
        let mut k: usize = 0;
        assert(text_views(labels@) =~= leaf_labels(t, i as int, without, 0));
        while k < self.nodes[i].children_indices.len()
            invariant
                t == self@,
                t.wf(),
                t.nodes.len() == self.nodes@.len(),
                i < t.nodes.len(),
                t.nodes[i as int] == self.nodes@[i as int]@,
                without == (match except {
                    Some(e) => e as int,
                    None => -1,
                }),
                k <= self.nodes@[i as int].children_indices@.len(),
                text_views(labels@) == leaf_labels(t, i as int, without, k as nat),
            decreases self.nodes@[i as int].children_indices@.len() - k,
        {
            let child: usize = self.nodes[i].children_indices[k];
            assert(t.nodes[i as int].children[k as int] == child);
            assert(t.nodes[child as int] == self.nodes@[child as int]@);
            let skipped = match except {
                Some(e) => child == e,
                None => false,
            };
            if !skipped && self.nodes[child].is_active && self.nodes[child].hardware_key_id.is_some() {
                let ghost before = text_views(labels@);
                labels.push(self.nodes[child].id.clone());
                assert(text_views(labels@) =~= before.push(t.nodes[child as int].label));
            }
            k += 1;
        }
        labels
    }
}

/// Binds a leaf to every other active leaf below its parent.
pub fn bind_leaf_to_active_siblings(store: &mut TreeStore, key_id: i64, leaf_label: &str) -> (r:
    Result<(), Error>)
    requires
        old(store).wf(),
    ensures
        final(store).wf(),
        (final(store)@, fault_of(r)) == bound_to_siblings(old(store)@, key_id, leaf_label@),
{
    let tree = match KeyQuorumTree::load(store, key_id) {
        Ok(tree) => tree,
        Err(e) => { return Err(e); },
    };
    proof {
        lemma_label_agrees(store@, key_id, leaf_label@);
    }
    let idx: usize = match tree.index_by_label(leaf_label) {
        Ok(i) => i,
        Err(e) => { return Err(e); },
    };
    assert(tree@.nodes[idx as int] == tree.nodes@[idx as int]@);
    let parent_idx: usize = match tree.nodes[idx].parent_idx {
        Some(p) => p,
        None => { return Err(Error::InvalidBridge); },
    };
    let siblings = tree.active_leaf_labels(parent_idx, Some(idx));
    let mut pairs: Vec<(String, String)> = Vec::new();
    let mut i: usize = 0;
    while i < siblings.len()
        invariant
            i <= siblings.len(),
            pairs@.len() == i,
            forall|k: int|
                0 <= k < i ==> (#[trigger] pairs@[k]).0@ == leaf_label@ && pairs@[k].1@
                    == siblings@[k]@,
        decreases siblings.len() - i,
    {
        pairs.push((leaf_label.to_owned(), siblings[i].clone()));
        i += 1;
    }
    assert(pair_views(pairs@) =~= with_each(leaf_label@, text_views(siblings@)));
    bind_pairs(store, key_id, &pairs)
}

/// Binds every two active leaves that stand below the same split.
pub fn bind_all_sibling_leaf_pairs(store: &mut TreeStore, key_id: i64) -> (r: Result<(), Error>)
    requires
        old(store).wf(),
    ensures
        final(store).wf(),
        (final(store)@, fault_of(r)) == bound_throughout(old(store)@, key_id),
{
    let tree = match KeyQuorumTree::load(store, key_id) {
        Ok(tree) => tree,
        Err(e) => { return Err(e); },
    };
    let ghost t = tree@;
    let mut pairs: Vec<(String, String)> = Vec::new();
    let mut n: usize = 0;
    assert(pair_views(pairs@) =~= sibling_pairs(t, 0));
    while n < tree.nodes.len()
        invariant
            n <= tree.nodes.len(),
            t == tree@,
            t.wf(),
            t.nodes.len() == tree.nodes@.len(),
            pair_views(pairs@) == sibling_pairs(t, n as nat),
        decreases tree.nodes.len() - n,
    {
        assert(t.nodes[n as int] == tree.nodes@[n as int]@);
        if tree.nodes[n].threshold.is_some() {
            let labels = tree.active_leaf_labels(n, None);
            let ghost views = text_views(labels@);
            let ghost before = pair_views(pairs@);
            let mut i: usize = 0;
            assert(before + pairs_from(views, 0) =~= before);
            while i < labels.len()
                invariant
                    i <= labels.len(),
                    views == text_views(labels@),
                    pair_views(pairs@) == before + pairs_from(views, i as nat),
                decreases labels.len() - i,
            {
                let ghost start = pair_views(pairs@);
                let ghost others = views.skip(i + 1);
                let mut j: usize = i + 1;
                assert(start + with_each(views[i as int], others).take(0) =~= start);
                while j < labels.len()
                    invariant
                        i < j <= labels.len(),
                        views == text_views(labels@),
                        others == views.skip(i + 1),
                        pair_views(pairs@) == start + with_each(views[i as int], others).take(
                            j - i - 1,
                        ),
                    decreases labels.len() - j,
                {
                    let ghost so_far = pair_views(pairs@);
                    pairs.push((labels[i].clone(), labels[j].clone()));
                    proof {
                        let line = with_each(views[i as int], others);
                        assert(line[j - i - 1] == (views[i as int], views[j as int]));
                        assert(pair_views(pairs@) =~= so_far.push(line[j - i - 1]));
                        assert(line.take(j - i) =~= line.take(j - i - 1).push(line[j - i - 1]));
                        assert(start + line.take(j - i) =~= so_far.push(line[j - i - 1]));
                    }
                    j += 1;
                }
                proof {
                    let line = with_each(views[i as int], others);
                    assert(line.take(line.len() as int) =~= line);
                    assert(before + pairs_from(views, (i + 1) as nat) =~= start + line);
                }
                i += 1;
            }
        }
        n += 1;
    }
    bind_pairs(store, key_id, &pairs)
}

} // verus!
