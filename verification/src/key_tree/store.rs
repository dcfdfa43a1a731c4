//! The tables that hold split trees.

use vstd::prelude::*;

use crate::error::Error;
use crate::seqs::{lemma_push_no_duplicates, lemma_push_to_set, lemma_remove_to_set};
use crate::text::text_equal;

verus! {

/// A stored secret.
#[derive(Debug)]
pub struct KeyRow {
    pub id: i64,
    pub label: String,
}

#[verifier::ext_equal]
pub struct KeyRowView {
    pub id: i64,
    pub label: Seq<char>,
}

impl View for KeyRow {
    type V = KeyRowView;

    open spec fn view(&self) -> KeyRowView {
        KeyRowView { id: self.id, label: self.label@ }
    }
}

/// A stored node: a leaf has a hardware key and a sealed share, a split has a
/// threshold.
#[derive(Debug)]
pub struct NodeRow {
    pub id: i64,
    pub key_id: i64,
    pub parent_id: Option<i64>,
    pub label: String,
    pub threshold: Option<i64>,
    pub hardware_key_id: Option<i64>,
    pub wrapped_share: Option<Vec<u8>>,
    pub is_active: bool,
}

#[verifier::ext_equal]
pub struct NodeRowView {
    pub id: i64,
    pub key_id: i64,
    pub parent_id: Option<i64>,
    pub label: Seq<char>,
    pub threshold: Option<i64>,
    pub hardware_key_id: Option<i64>,
    pub wrapped_share: Option<Seq<u8>>,
    pub is_active: bool,
}

impl View for NodeRow {
    type V = NodeRowView;

    open spec fn view(&self) -> NodeRowView {
        NodeRowView {
            id: self.id,
            key_id: self.key_id,
            parent_id: self.parent_id,
            label: self.label@,
            threshold: self.threshold,
            hardware_key_id: self.hardware_key_id,
            wrapped_share: match self.wrapped_share {
                Some(share) => Some(share@),
                None => None,
            },
            is_active: self.is_active,
        }
    }
}

/// A node's permission to be paired with a peer.
#[derive(Debug)]
pub struct BridgeRow {
    pub node_id: i64,
    pub peer_label: String,
}

impl View for BridgeRow {
    type V = (i64, Seq<char>);

    open spec fn view(&self) -> (i64, Seq<char>) {
        (self.node_id, self.peer_label@)
    }
}

/// An established pairing of two nodes, the smaller id first.
#[derive(Clone, Copy, Debug, PartialEq, Eq, Structural)]
pub struct LinkRow {
    pub node_a_id: i64,
    pub node_b_id: i64,
}

impl View for LinkRow {
    type V = (i64, i64);

    open spec fn view(&self) -> (i64, i64) {
        (self.node_a_id, self.node_b_id)
    }
}

/// The tables of secrets, nodes, permissions and pairings.
#[derive(Debug)]
pub struct TreeStore {
    pub keys: Vec<KeyRow>,
    pub nodes: Vec<NodeRow>,
    pub bridges: Vec<BridgeRow>,
    pub links: Vec<LinkRow>,
}

#[verifier::ext_equal]
pub struct TreeStoreView {
    pub keys: Seq<KeyRowView>,
    pub nodes: Seq<NodeRowView>,
    pub bridges: Set<(i64, Seq<char>)>,
    pub links: Set<(i64, i64)>,
}

pub open spec fn key_views(rows: Seq<KeyRow>) -> Seq<KeyRowView> {
    Seq::new(rows.len(), |i: int| rows[i]@)
}

pub open spec fn node_views(rows: Seq<NodeRow>) -> Seq<NodeRowView> {
    Seq::new(rows.len(), |i: int| rows[i]@)
}

pub open spec fn bridge_views(rows: Seq<BridgeRow>) -> Seq<(i64, Seq<char>)> {
    Seq::new(rows.len(), |i: int| rows[i]@)
}

pub open spec fn link_views(rows: Seq<LinkRow>) -> Seq<(i64, i64)> {
    Seq::new(rows.len(), |i: int| rows[i]@)
}

impl View for TreeStore {
    type V = TreeStoreView;

    open spec fn view(&self) -> TreeStoreView {
        TreeStoreView {
            keys: key_views(self.keys@),
            nodes: node_views(self.nodes@),
            bridges: bridge_views(self.bridges@).to_set(),
            links: link_views(self.links@).to_set(),
        }
    }
}

/// Secrets have positive ascending ids.
pub open spec fn keys_ordered(keys: Seq<KeyRowView>) -> bool {
    &&& forall|i: int| 0 <= i < keys.len() ==> (#[trigger] keys[i]).id > 0
    &&& forall|i: int, j: int|
        0 <= i < j < keys.len() ==> (#[trigger] keys[i]).id < (#[trigger] keys[j]).id
}

/// Nodes have positive ascending ids, a parent comes before its children, a
/// threshold fits the number of shares that can be dealt, and a leaf has none.
pub open spec fn nodes_ordered(nodes: Seq<NodeRowView>) -> bool {
    &&& forall|i: int| 0 <= i < nodes.len() ==> (#[trigger] nodes[i]).id > 0
    &&& forall|i: int, j: int|
        0 <= i < j < nodes.len() ==> (#[trigger] nodes[i]).id < (#[trigger] nodes[j]).id
    &&& forall|i: int|
        0 <= i < nodes.len() ==> ((#[trigger] nodes[i]).parent_id matches Some(p) ==> p
            < nodes[i].id)
    &&& forall|i: int|
        0 <= i < nodes.len() ==> ((#[trigger] nodes[i]).threshold matches Some(t) ==> 1 <= t
            <= 255 && nodes[i].hardware_key_id is None)
}

/// Some node has the id.
pub open spec fn node_exists(nodes: Seq<NodeRowView>, id: i64) -> bool {
    exists|i: int| 0 <= i < nodes.len() && (#[trigger] nodes[i]).id == id
}

/// What has children is no leaf, and belongs to the same secret as they do.
pub open spec fn parents_are_splits(nodes: Seq<NodeRowView>) -> bool {
    forall|i: int, j: int|
        0 <= i < nodes.len() && 0 <= j < nodes.len() && (#[trigger] nodes[j]).parent_id == Some(
            (#[trigger] nodes[i]).id,
        ) ==> nodes[i].hardware_key_id is None && nodes[i].key_id == nodes[j].key_id
}

/// Some secret has the id.
pub open spec fn key_exists(keys: Seq<KeyRowView>, id: i64) -> bool {
    exists|i: int| 0 <= i < keys.len() && (#[trigger] keys[i]).id == id
}

impl TreeStoreView {
    /// Rows are ordered, nodes are those of secrets, and permissions and
    /// pairings are those of nodes.
    pub open spec fn wf(self) -> bool {
        &&& keys_ordered(self.keys)
        &&& nodes_ordered(self.nodes)
        &&& parents_are_splits(self.nodes)
        &&& forall|i: int|
            0 <= i < self.nodes.len() ==> key_exists(self.keys, (#[trigger] self.nodes[i]).key_id)
        &&& forall|p: (i64, Seq<char>)| #[trigger]
            self.bridges.contains(p) ==> node_exists(self.nodes, p.0)
        &&& forall|p: (i64, i64)| #[trigger]
            self.links.contains(p) ==> p.0 < p.1 && node_exists(self.nodes, p.0) && node_exists(
                self.nodes,
                p.1,
            )
    }
}

impl TreeStore {
    /// Rows are ordered and none occurs twice.
    pub open spec fn wf(self) -> bool {
        &&& self@.wf()
        &&& bridge_views(self.bridges@).no_duplicates()
        &&& link_views(self.links@).no_duplicates()
    }

    /// Empty tables.
    pub fn new() -> (r: TreeStore)
        ensures
            r.wf(),
            r@.keys == Seq::<KeyRowView>::empty(),
            r@.nodes == Seq::<NodeRowView>::empty(),
            r@.bridges == Set::<(i64, Seq<char>)>::empty(),
            r@.links == Set::<(i64, i64)>::empty(),
    {
        let store = TreeStore {
            keys: Vec::new(),
            nodes: Vec::new(),
            bridges: Vec::new(),
            links: Vec::new(),
        };
        assert(store@.bridges =~= Set::<(i64, Seq<char>)>::empty());
        assert(store@.links =~= Set::<(i64, i64)>::empty());
        store
    }
}

/// The id that the next node gets.
pub open spec fn next_node_id(nodes: Seq<NodeRowView>) -> int {
    if nodes.len() == 0 {
        1
    } else {
        nodes.last().id + 1
    }
}

/// The id that the next secret gets.
pub open spec fn next_key_id(keys: Seq<KeyRowView>) -> int {
    if keys.len() == 0 {
        1
    } else {
        keys.last().id + 1
    }
}

/// The node at place `i` belongs to the secret and has the label.
pub open spec fn labelled_at(nodes: Seq<NodeRowView>, key_id: i64, label: Seq<char>, i: int) -> bool {
    0 <= i < nodes.len() && nodes[i].key_id == key_id && nodes[i].label == label
}

/// The id of the first node of a secret that has the label.
#[verifier::opaque]
pub open spec fn labelled_id(nodes: Seq<NodeRowView>, key_id: i64, label: Seq<char>) -> Option<i64> {
    if exists|i: int| labelled_at(nodes, key_id, label, i) {
        let place = choose|i: int| #[trigger]
            labelled_at(nodes, key_id, label, i) && forall|j: int|
                0 <= j < i ==> !#[trigger] labelled_at(nodes, key_id, label, j);
        Some(nodes[place].id)
    } else {
        None
    }
}

impl TreeStore {
    /// Appends a node.
    pub(crate) fn push_node(&mut self, row: NodeRow)
        requires
            old(self).wf(),
            key_exists(old(self)@.keys, row.key_id),
            row.id == next_node_id(old(self)@.nodes),
            row.parent_id matches Some(p) ==> p < row.id,
            forall|i: int|
                0 <= i < old(self)@.nodes.len() && row.parent_id == Some(
                    (#[trigger] old(self)@.nodes[i]).id,
                ) ==> old(self)@.nodes[i].hardware_key_id is None && old(self)@.nodes[i].key_id
                    == row.key_id,
            row.threshold matches Some(t) ==> 1 <= t <= 255 && row.hardware_key_id is None,
        ensures
            final(self).wf(),
            final(self)@ == (TreeStoreView {
                nodes: old(self)@.nodes.push(row@),
                ..old(self)@
            }),
    {
        let ghost before = self@;
        let ghost added = row@;
        self.nodes.push(row);
        proof {
            assert(self@.nodes =~= before.nodes.push(added));
            let nodes = self@.nodes;
            assert forall|i: int, j: int| 0 <= i < j < nodes.len() implies (#[trigger] nodes[i]).id
                < (#[trigger] nodes[j]).id by {
                if j == before.nodes.len() {
                    if i < before.nodes.len() - 1 {
                        assert(before.nodes[i].id < before.nodes[before.nodes.len() - 1].id);
                    }
                } else {
                    assert(before.nodes[i].id < before.nodes[j].id);
                }
            }
            assert forall|i: int| 0 <= i < nodes.len() implies (#[trigger] nodes[i]).id > 0 by {
                if i < before.nodes.len() {
                    assert(nodes[i] == before.nodes[i]);
                } else if before.nodes.len() > 0 {
                    assert(before.nodes[before.nodes.len() - 1].id > 0);
                }
            }
            assert forall|i: int| 0 <= i < nodes.len() implies ((
            #[trigger] nodes[i]).parent_id matches Some(p) ==> p < nodes[i].id) && (
            nodes[i].threshold matches Some(t) ==> 1 <= t <= 255 && nodes[i].hardware_key_id is None) by {
                if i < before.nodes.len() {
                    assert(nodes[i] == before.nodes[i]);
                }
            }
            assert forall|i: int, j: int|
                0 <= i < nodes.len() && 0 <= j < nodes.len() && (#[trigger] nodes[j]).parent_id
                    == Some((#[trigger] nodes[i]).id) implies nodes[i].hardware_key_id is None
                && nodes[i].key_id == nodes[j].key_id by {
                if j < before.nodes.len() {
                    assert(nodes[j] == before.nodes[j]);
                    if i < before.nodes.len() {
                        assert(nodes[i] == before.nodes[i]);
                    } else if j < before.nodes.len() - 1 {
                        assert(before.nodes[j].id < before.nodes[before.nodes.len() - 1].id);
                    }
                } else if i < before.nodes.len() {
                    assert(nodes[i] == before.nodes[i]);
                }
            }
            lemma_longer_nodes_keep_ids(before.nodes, added);
        }
    }

    /// Appends a secret.
    pub(crate) fn push_key(&mut self, row: KeyRow)
        requires
            old(self).wf(),
            row.id == next_key_id(old(self)@.keys),
        ensures
            final(self).wf(),
            final(self)@ == (TreeStoreView { keys: old(self)@.keys.push(row@), ..old(self)@ }),
    {
        let ghost before = self@;
        let ghost added = row@;
        self.keys.push(row);
        proof {
            let keys = self@.keys;
            assert(keys =~= before.keys.push(added));
            if before.keys.len() > 0 {
                assert(before.keys[before.keys.len() - 1].id > 0);
            }
            assert forall|i: int, j: int| 0 <= i < j < keys.len() implies (#[trigger] keys[i]).id < (
            #[trigger] keys[j]).id by {
                if j == before.keys.len() {
                    if i < before.keys.len() - 1 {
                        assert(before.keys[i].id < before.keys[before.keys.len() - 1].id);
                    }
                } else {
                    assert(before.keys[i].id < before.keys[j].id);
                }
            }
            assert forall|i: int| 0 <= i < self@.nodes.len() implies key_exists(
                keys,
                (#[trigger] self@.nodes[i]).key_id,
            ) by {
                assert(before.nodes[i] == self@.nodes[i]);
                let k = choose|k: int|
                    0 <= k < before.keys.len() && (#[trigger] before.keys[k]).id
                        == before.nodes[i].key_id;
                assert(keys[k].id == self@.nodes[i].key_id);
            }
        }
    }

    /// Grants a node permission to be paired with a peer, once.
    pub(crate) fn insert_bridge(&mut self, node_id: i64, peer: &str)
        requires
            old(self).wf(),
            node_exists(old(self)@.nodes, node_id),
        ensures
            final(self).wf(),
            final(self)@ == (TreeStoreView {
                bridges: old(self)@.bridges.insert((node_id, peer@)),
                ..old(self)@
            }),
    {
        let ghost before = self@;
        let ghost rows = bridge_views(self.bridges@);
        let ghost wanted = (node_id, peer@);
        let mut i: usize = 0;
        while i < self.bridges.len()
            invariant
                i <= self.bridges.len(),
                *self == *old(self),
                old(self).wf(),
                rows == bridge_views(self.bridges@),
                wanted == (node_id, peer@),
                forall|k: int| 0 <= k < i ==> #[trigger] rows[k] != wanted,
            decreases self.bridges.len() - i,
        {
            assert(rows[i as int] == self.bridges@[i as int]@);
            if self.bridges[i].node_id == node_id && text_equal(
                self.bridges[i].peer_label.as_str(),
                peer,
            ) {
                assert(rows.to_set().contains(wanted));
                assert(self@.bridges.insert(wanted) =~= self@.bridges);
                return ;
            }
            i += 1;
        }
        assert(!rows.contains(wanted));
        self.bridges.push(BridgeRow { node_id, peer_label: peer.to_owned() });
        proof {
            let now = bridge_views(self.bridges@);
            assert(now =~= rows.push(wanted));
            lemma_push_to_set(rows, wanted);
            lemma_push_no_duplicates(rows, wanted);
            assert(self@.nodes =~= before.nodes);
            assert(self@.keys =~= before.keys);
            assert(self@.links =~= before.links);
        }
    }
}

impl TreeStore {
    /// Takes a permission back.
    pub(crate) fn remove_bridge_row(&mut self, node_id: i64, peer: &str)
        requires
            old(self).wf(),
        ensures
            final(self).wf(),
            final(self)@ == (TreeStoreView {
                bridges: old(self)@.bridges.remove((node_id, peer@)),
                ..old(self)@
            }),
    {
        let ghost before = self@;
        let ghost rows = bridge_views(self.bridges@);
        let ghost unwanted = (node_id, peer@);
        let mut i: usize = 0;
        while i < self.bridges.len()
            invariant
                i <= self.bridges.len(),
                *self == *old(self),
                old(self).wf(),
                before == self@,
                rows == bridge_views(self.bridges@),
                unwanted == (node_id, peer@),
                forall|k: int| 0 <= k < i ==> #[trigger] rows[k] != unwanted,
            decreases self.bridges.len() - i,
        {
            assert(rows[i as int] == self.bridges@[i as int]@);
            if self.bridges[i].node_id == node_id && text_equal(
                self.bridges[i].peer_label.as_str(),
                peer,
            ) {
                let _ = self.bridges.remove(i);
                proof {
                    let now = bridge_views(self.bridges@);
                    assert(now =~= rows.remove(i as int));
                    lemma_remove_to_set(rows, i as int);
                    assert(self@.nodes =~= before.nodes);
                    assert(self@.keys =~= before.keys);
                    assert(self@.links =~= before.links);
                }
                return ;
            }
            i += 1;
        }
        assert(!rows.contains(unwanted));
        assert(before.bridges.remove(unwanted) =~= before.bridges);
    }

    /// Establishes a pairing, once.
    pub(crate) fn insert_link(&mut self, a: i64, b: i64)
        requires
            old(self).wf(),
            a < b,
            node_exists(old(self)@.nodes, a),
            node_exists(old(self)@.nodes, b),
        ensures
            final(self).wf(),
            final(self)@ == (TreeStoreView {
                links: old(self)@.links.insert((a, b)),
                ..old(self)@
            }),
    {
        let ghost before = self@;
        let ghost rows = link_views(self.links@);
        let mut i: usize = 0;
        while i < self.links.len()
            invariant
                i <= self.links.len(),
                *self == *old(self),
                old(self).wf(),
                rows == link_views(self.links@),
                forall|k: int| 0 <= k < i ==> #[trigger] rows[k] != (a, b),
            decreases self.links.len() - i,
        {
            assert(rows[i as int] == self.links@[i as int]@);
            if self.links[i].node_a_id == a && self.links[i].node_b_id == b {
                assert(rows.to_set().contains((a, b)));
                assert(self@.links.insert((a, b)) =~= self@.links);
                return ;
            }
            i += 1;
        }
        assert(!rows.contains((a, b)));
        self.links.push(LinkRow { node_a_id: a, node_b_id: b });
        proof {
            let now = link_views(self.links@);
            assert(now =~= rows.push((a, b)));
            lemma_push_to_set(rows, (a, b));
            lemma_push_no_duplicates(rows, (a, b));
            assert(self@.nodes =~= before.nodes);
            assert(self@.keys =~= before.keys);
            assert(self@.bridges =~= before.bridges);
        }
    }

    /// Tears a pairing down and says whether there was one.
    pub(crate) fn remove_link_row(&mut self, a: i64, b: i64) -> (r: bool)
        requires
            old(self).wf(),
        ensures
            final(self).wf(),
            r == old(self)@.links.contains((a, b)),
            final(self)@ == (TreeStoreView {
                links: old(self)@.links.remove((a, b)),
                ..old(self)@
            }),
    {
        let ghost before = self@;
        let ghost rows = link_views(self.links@);
        let mut i: usize = 0;
        while i < self.links.len()
            invariant
                i <= self.links.len(),
                *self == *old(self),
                old(self).wf(),
                before == self@,
                rows == link_views(self.links@),
                forall|k: int| 0 <= k < i ==> #[trigger] rows[k] != (a, b),
            decreases self.links.len() - i,
        {
            assert(rows[i as int] == self.links@[i as int]@);
            if self.links[i].node_a_id == a && self.links[i].node_b_id == b {
                let _ = self.links.remove(i);
                proof {
                    let now = link_views(self.links@);
                    assert(now =~= rows.remove(i as int));
                    lemma_remove_to_set(rows, i as int);
                    assert(self@.nodes =~= before.nodes);
                    assert(self@.keys =~= before.keys);
                    assert(self@.bridges =~= before.bridges);
                }
                return true;
            }
            i += 1;
        }
        assert(!rows.contains((a, b)));
        assert(before.links.remove((a, b)) =~= before.links);
        false
    }
}

/// The rows with the given ids hold new sealed shares; every other row, and
/// everything else, is as it was.
pub open spec fn resealed(
    before: Seq<NodeRowView>,
    after: Seq<NodeRowView>,
    ids: Seq<i64>,
    sealed: Seq<Seq<u8>>,
) -> bool {
    &&& after.len() == before.len()
    &&& forall|i: int, k: int|
        0 <= i < before.len() && 0 <= k < ids.len() && (#[trigger] before[i]).id == (
        #[trigger] ids[k]) ==> after[i] == (NodeRowView {
            wrapped_share: Some(sealed[k]),
            ..before[i]
        })
    &&& forall|i: int|
        0 <= i < before.len() && !ids.contains((#[trigger] before[i]).id) ==> after[i] == before[i]
}

/// Rows that differ at most in sealed shares, hardware keys and activity are as
/// ordered as before.
pub open spec fn same_skeleton(before: Seq<NodeRowView>, after: Seq<NodeRowView>) -> bool {
    &&& after.len() == before.len()
    &&& forall|i: int|
        #![trigger before[i]]
        #![trigger after[i]]
        0 <= i < before.len() ==> {
            &&& after[i].id == before[i].id
            &&& after[i].key_id == before[i].key_id
            &&& after[i].parent_id == before[i].parent_id
            &&& after[i].label == before[i].label
            &&& after[i].threshold == before[i].threshold
            &&& after[i].hardware_key_id is Some <==> before[i].hardware_key_id is Some
        }
}

pub proof fn lemma_skeleton_keeps_wf(before: TreeStoreView, after: TreeStoreView)
    requires
        before.wf(),
        same_skeleton(before.nodes, after.nodes),
        after.keys == before.keys,
        after.bridges == before.bridges,
        after.links == before.links,
    ensures
        after.wf(),
{
    assert forall|id: i64| #[trigger] node_exists(before.nodes, id) implies node_exists(
        after.nodes,
        id,
    ) by {
        let i = choose|i: int| 0 <= i < before.nodes.len() && (#[trigger] before.nodes[i]).id == id;
        assert(after.nodes[i].id == id);
    }
    assert(nodes_ordered(after.nodes)) by {
        assert forall|i: int, j: int| 0 <= i < j < after.nodes.len() implies (
        #[trigger] after.nodes[i]).id < (#[trigger] after.nodes[j]).id by {
            assert(before.nodes[i].id < before.nodes[j].id);
        }
        assert forall|i: int| 0 <= i < after.nodes.len() implies (#[trigger] after.nodes[i]).id > 0
            && (after.nodes[i].parent_id matches Some(p) ==> p < after.nodes[i].id) && (
        after.nodes[i].threshold matches Some(t) ==> 1 <= t <= 255
            && after.nodes[i].hardware_key_id is None) by {
            assert(before.nodes[i].id > 0);
        }
    }
    assert(parents_are_splits(after.nodes)) by {
        assert forall|i: int, j: int|
            0 <= i < after.nodes.len() && 0 <= j < after.nodes.len() && (
            #[trigger] after.nodes[j]).parent_id == Some(
                (#[trigger] after.nodes[i]).id,
            ) implies after.nodes[i].hardware_key_id is None && after.nodes[i].key_id
            == after.nodes[j].key_id by {
            assert(before.nodes[j].parent_id == Some(before.nodes[i].id));
        }
    }
    assert forall|i: int| 0 <= i < after.nodes.len() implies key_exists(
        after.keys,
        (#[trigger] after.nodes[i]).key_id,
    ) by {
        assert(key_exists(before.keys, before.nodes[i].key_id));
    }
}

impl TreeStore {
    /// The place of the node with the given id.
    pub(crate) fn find_node(&self, id: i64) -> (r: Option<usize>)
        ensures
            match r {
                Some(i) => i < self.nodes@.len() && self@.nodes[i as int].id == id,
                None => !node_exists(self@.nodes, id),
            },
    {
        let mut i: usize = 0;
        while i < self.nodes.len()
            invariant
                i <= self.nodes.len(),
                forall|k: int| 0 <= k < i ==> (#[trigger] self@.nodes[k]).id != id,
            decreases self.nodes.len() - i,
        {
            assert(self@.nodes[i as int] == self.nodes@[i as int]@);
            if self.nodes[i].id == id {
                return Some(i);
            }
            i += 1;
        }
        None
    }

    /// Replaces the sealed share of a node.
    pub(crate) fn reseal(&mut self, id: i64, sealed: Vec<u8>)
        requires
            old(self).wf(),
        ensures
            final(self).wf(),
            resealed(old(self)@.nodes, final(self)@.nodes, seq![id], seq![sealed@]),
            final(self)@ == (TreeStoreView { nodes: final(self)@.nodes, ..old(self)@ }),
    {
        let ghost before = self@;
        let ghost bytes = sealed@;
        match self.find_node(id) {
            None => {
                assert(seq![id][0] == id);
                assert forall|i: int, k: int|
                    0 <= i < before.nodes.len() && 0 <= k < seq![id].len() implies (
                #[trigger] before.nodes[i]).id != (#[trigger] seq![id][k]) by {}
            },
            Some(place) => {
                assert(before.nodes[place as int] == self.nodes@[place as int]@);
                self.nodes[place].wrapped_share = Some(sealed);
                proof {
                    let after = self@;
                    assert forall|i: int| 0 <= i < before.nodes.len() implies (
                    #[trigger] after.nodes[i]) == (if i == place {
                        NodeRowView { wrapped_share: Some(bytes), ..before.nodes[i] }
                    } else {
                        before.nodes[i]
                    }) by {}
                    assert forall|i: int| 0 <= i < before.nodes.len() && i != place implies (
                    #[trigger] before.nodes[i]).id != id by {
                        if i < place {
                            assert(before.nodes[i].id < before.nodes[place as int].id);
                        } else {
                            assert(before.nodes[place as int].id < before.nodes[i].id);
                        }
                    }
                    assert forall|i: int|
                        0 <= i < before.nodes.len() && !seq![id].contains(
                            (#[trigger] before.nodes[i]).id,
                        ) implies after.nodes[i] == before.nodes[i] by {
                        assert(seq![id][0] == id);
                    }
                    assert(same_skeleton(before.nodes, after.nodes));
                    assert(after.keys =~= before.keys);
                    assert(after.bridges =~= before.bridges);
                    assert(after.links =~= before.links);
                    lemma_skeleton_keeps_wf(before, after);
                }
            },
        }
    }
}

impl TreeStoreView {
    /// Pairings without a node's.
    pub open spec fn links_without(self, id: i64) -> Set<(i64, i64)> {
        Set::new(|p: (i64, i64)| self.links.contains(p) && p.0 != id && p.1 != id)
    }

    /// Permissions without those of a node, and without those for it that other
    /// nodes of the secret have.
    pub open spec fn bridges_without(self, key_id: i64, id: i64, label: Seq<char>) -> Set<
        (i64, Seq<char>),
    > {
        Set::new(
            |p: (i64, Seq<char>)|
                self.bridges.contains(p) && p.0 != id && !(p.1 == label && node_of_key(
                    self.nodes,
                    key_id,
                    p.0,
                )),
        )
    }
}

/// Some node of the secret has the id.
pub open spec fn node_of_key(nodes: Seq<NodeRowView>, key_id: i64, id: i64) -> bool {
    exists|i: int|
        0 <= i < nodes.len() && (#[trigger] nodes[i]).id == id && nodes[i].key_id == key_id
}

impl TreeStore {
    pub(crate) fn is_node_of_key(&self, key_id: i64, id: i64) -> (r: bool)
        ensures
            r == node_of_key(self@.nodes, key_id, id),
    {
        let mut i: usize = 0;
        while i < self.nodes.len()
            invariant
                i <= self.nodes.len(),
                forall|k: int|
                    0 <= k < i ==> !((#[trigger] self@.nodes[k]).id == id && self@.nodes[k].key_id
                        == key_id),
            decreases self.nodes.len() - i,
        {
            assert(self@.nodes[i as int] == self.nodes@[i as int]@);
            if self.nodes[i].id == id && self.nodes[i].key_id == key_id {
                return true;
            }
            i += 1;
        }
        false
    }

    /// Drops every pairing of a node.
    pub(crate) fn drop_links(&mut self, id: i64)
        requires
            old(self).wf(),
        ensures
            final(self).wf(),
            final(self)@ == (TreeStoreView { links: old(self)@.links_without(id), ..old(self)@ }),
    {
        let ghost before = self@;
        let ghost rows = link_views(self.links@);
        let mut kept: Vec<LinkRow> = Vec::new();
        let mut i: usize = 0;
        while i < self.links.len()
            invariant
                i <= self.links.len(),
                *self == *old(self),
                rows == link_views(self.links@),
                rows.no_duplicates(),
                link_views(kept@).no_duplicates(),
                forall|k: int|
                    0 <= k < kept@.len() ==> rows.take(i as int).contains(
                        #[trigger] link_views(kept@)[k],
                    ) && link_views(kept@)[k].0 != id && link_views(kept@)[k].1 != id,
                forall|k: int|
                    0 <= k < i && (#[trigger] rows[k]).0 != id && rows[k].1 != id ==> link_views(
                        kept@,
                    ).contains(rows[k]),
            decreases self.links.len() - i,
        {
            let ghost views = link_views(kept@);
            assert(rows[i as int] == self.links@[i as int]@);
            let row = self.links[i];
            if row.node_a_id != id && row.node_b_id != id {
                kept.push(row);
            }
            proof {
                lemma_kept(rows, i as int, views, link_views(kept@));
                assert forall|k: int| 0 <= k < kept@.len() implies (
                #[trigger] link_views(kept@)[k]).0 != id && link_views(kept@)[k].1 != id by {
                    if k < views.len() {
                        assert(link_views(kept@)[k] == views[k]);
                    }
                }
                assert forall|k: int| 0 <= k < i + 1 && (#[trigger] rows[k]).0 != id && rows[k].1
                    != id implies link_views(kept@).contains(rows[k]) by {
                    if k < i {
                        let m = choose|m: int| 0 <= m < views.len() && views[m] == rows[k];
                        assert(link_views(kept@)[m] == rows[k]);
                    } else {
                        assert(link_views(kept@)[kept@.len() - 1] == rows[k]);
                    }
                }
            }
            i += 1;
        }
        self.links = kept;
        proof {
            let now = link_views(self.links@);
            assert(rows.take(i as int) =~= rows);
            assert forall|p: (i64, i64)| now.to_set().contains(p) <==> before.links_without(
                id,
            ).contains(p) by {
                if now.contains(p) {
                    let k = choose|k: int| 0 <= k < now.len() && now[k] == p;
                    assert(rows.contains(now[k]));
                }
                if rows.contains(p) && p.0 != id && p.1 != id {
                    let k = choose|k: int| 0 <= k < rows.len() && rows[k] == p;
                    assert(now.contains(rows[k]));
                }
            }
            assert(self@.links =~= before.links_without(id));
            assert(self@.nodes =~= before.nodes);
            assert(self@.keys =~= before.keys);
            assert(self@.bridges =~= before.bridges);
        }
    }

    /// Drops every permission of a node, and those that other nodes of the
    /// secret have for it.
    pub(crate) fn drop_bridges(&mut self, key_id: i64, id: i64, label: &str)
        requires
            old(self).wf(),
        ensures
            final(self).wf(),
            final(self)@ == (TreeStoreView {
                bridges: old(self)@.bridges_without(key_id, id, label@),
                ..old(self)@
            }),
    {
        let ghost before = self@;
        let ghost rows = bridge_views(self.bridges@);
        let ghost stays = before.bridges_without(key_id, id, label@);
        let mut kept: Vec<BridgeRow> = Vec::new();
        let mut i: usize = 0;
        while i < self.bridges.len()
            invariant
                i <= self.bridges.len(),
                *self == *old(self),
                before == self@,
                stays == before.bridges_without(key_id, id, label@),
                rows == bridge_views(self.bridges@),
                rows.no_duplicates(),
                bridge_views(kept@).no_duplicates(),
                forall|k: int|
                    0 <= k < kept@.len() ==> rows.take(i as int).contains(
                        #[trigger] bridge_views(kept@)[k],
                    ) && stays.contains(bridge_views(kept@)[k]),
                forall|k: int|
                    0 <= k < i && stays.contains(#[trigger] rows[k]) ==> bridge_views(
                        kept@,
                    ).contains(rows[k]),
            decreases self.bridges.len() - i,
        {
            let ghost views = bridge_views(kept@);
            assert(rows[i as int] == self.bridges@[i as int]@);
            assert(rows.to_set().contains(rows[i as int]));
            let node_id: i64 = self.bridges[i].node_id;
            if node_id != id && !(text_equal(self.bridges[i].peer_label.as_str(), label)
                && self.is_node_of_key(key_id, node_id)) {
                kept.push(BridgeRow { node_id, peer_label: self.bridges[i].peer_label.clone() });
            }
            proof {
                lemma_kept(rows, i as int, views, bridge_views(kept@));
                assert forall|k: int| 0 <= k < kept@.len() implies stays.contains(
                    #[trigger] bridge_views(kept@)[k],
                ) by {
                    if k < views.len() {
                        assert(bridge_views(kept@)[k] == views[k]);
                    } else {
                        assert(bridge_views(kept@)[k] == rows[i as int]);
                    }
                }
                assert forall|k: int| 0 <= k < i + 1 && stays.contains(
                    #[trigger] rows[k],
                ) implies bridge_views(kept@).contains(rows[k]) by {
                    if k < i {
                        let m = choose|m: int| 0 <= m < views.len() && views[m] == rows[k];
                        assert(bridge_views(kept@)[m] == rows[k]);
                    } else {
                        assert(bridge_views(kept@)[kept@.len() - 1] == rows[k]);
                    }
                }
            }
            i += 1;
        }
        self.bridges = kept;
        proof {
            let now = bridge_views(self.bridges@);
            assert(rows.take(i as int) =~= rows);
            assert forall|p: (i64, Seq<char>)| now.to_set().contains(p) <==> stays.contains(p) by {
                if now.contains(p) {
                    let k = choose|k: int| 0 <= k < now.len() && now[k] == p;
                    assert(stays.contains(now[k]));
                }
                if stays.contains(p) {
                    assert(rows.contains(p));
                    let k = choose|k: int| 0 <= k < rows.len() && rows[k] == p;
                    assert(now.contains(rows[k]));
                }
            }
            assert(self@.bridges =~= stays);
            assert(self@.nodes =~= before.nodes);
            assert(self@.keys =~= before.keys);
            assert(self@.links =~= before.links);
        }
    }
}

/// One more row was looked at, and kept or not.
proof fn lemma_kept<T>(rows: Seq<T>, i: int, before: Seq<T>, after: Seq<T>)
    requires
        0 <= i < rows.len(),
        rows.no_duplicates(),
        before.no_duplicates(),
        forall|k: int| 0 <= k < before.len() ==> rows.take(i).contains(#[trigger] before[k]),
        after =~= before || after =~= before.push(rows[i]),
    ensures
        after.no_duplicates(),
        forall|k: int| 0 <= k < after.len() ==> rows.take(i + 1).contains(#[trigger] after[k]),
{
    let shorter = rows.take(i);
    let longer = rows.take(i + 1);
    assert(!before.contains(rows[i])) by {
        if before.contains(rows[i]) {
            let k = choose|k: int| 0 <= k < before.len() && before[k] == rows[i];
            assert(shorter.contains(before[k]));
            let m = choose|m: int| 0 <= m < shorter.len() && shorter[m] == before[k];
            assert(rows[m] == rows[i]);
        }
    }
    if after =~= before.push(rows[i]) {
        lemma_push_no_duplicates(before, rows[i]);
    }
    assert forall|k: int| 0 <= k < after.len() implies longer.contains(#[trigger] after[k]) by {
        if k < before.len() {
            assert(after[k] == before[k]);
            let m = choose|m: int| 0 <= m < shorter.len() && shorter[m] == before[k];
            assert(longer[m] == after[k]);
        } else {
            assert(longer[i] == after[k]);
        }
    }
}

pub proof fn lemma_longer_nodes_keep_ids(nodes: Seq<NodeRowView>, row: NodeRowView)
    ensures
        forall|id: i64| #[trigger]
            node_exists(nodes, id) ==> node_exists(nodes.push(row), id),
{
    assert forall|id: i64| #[trigger] node_exists(nodes, id) implies node_exists(
        nodes.push(row),
        id,
    ) by {
        let i = choose|i: int| 0 <= i < nodes.len() && (#[trigger] nodes[i]).id == id;
        assert(nodes.push(row)[i].id == id);
    }
}

pub(crate) fn node_id_for_label(store: &TreeStore, key_id: i64, label: &str) -> (r: Result<
    i64,
    Error,
>)
    ensures
        match labelled_id(store@.nodes, key_id, label@) {
            Some(id) => r == Ok::<i64, Error>(id),
            None => r == Err::<i64, Error>(Error::NodeNotFound),
        },
{
    reveal(labelled_id);
    let mut i: usize = 0;
    while i < store.nodes.len()
        invariant
            i <= store.nodes.len(),
            forall|j: int| 0 <= j < i ==> !#[trigger] labelled_at(store@.nodes, key_id, label@, j),
        decreases store.nodes.len() - i,
    {
        assert(store@.nodes[i as int] == store.nodes@[i as int]@);
        if store.nodes[i].key_id == key_id && text_equal(store.nodes[i].label.as_str(), label) {
            proof {
                reveal(labelled_id);
                assert(labelled_at(store@.nodes, key_id, label@, i as int));
                let place = choose|k: int| #[trigger]
                    labelled_at(store@.nodes, key_id, label@, k) && forall|j: int|
                        0 <= j < k ==> !#[trigger] labelled_at(store@.nodes, key_id, label@, j);
                assert(place == i);
            }
            return Ok(store.nodes[i].id);
        }
        i += 1;
    }
    Err(Error::NodeNotFound)
}

} // verus!
