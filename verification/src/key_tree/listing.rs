//! Reading trees back: snapshots, summaries and lists.

use vstd::prelude::*;

use crate::error::{Error, StoreError};
use crate::keys::{get_key, key_place, key_with_id, registry_wf, HardwareKeyView, KeyRegistry};
use crate::key_tree::evict::{bindings_dropped, delete_node_bindings};
use crate::key_tree::spec::NodeSpec;
use crate::key_tree::store::{
    bridge_views, key_exists, link_views, node_of_key, KeyRowView, NodeRowView, TreeStore,
    TreeStoreView,
};
use crate::key_tree::tree::{child_places, lemma_child_places, lemma_place_of, loaded, peers_of,
    place_of, KeyQuorumTree, TreeShape};
use crate::text::{pair_views, pairs_in_order, sorted_pairs, sorted_texts, text_views, texts_ascend,
    TextPair};

verus! {

/// The texts are the members of the set, in ascending order.
pub open spec fn lists_set(texts: Seq<Seq<char>>, members: Set<Seq<char>>) -> bool {
    texts_ascend(texts) && texts.to_set() == members
}

/// The active ones among the first `n` children.
pub open spec fn active_places(t: TreeShape, i: int, n: nat) -> Seq<int>
    decreases n,
{
    if n == 0 {
        Seq::empty()
    } else {
        let before = active_places(t, i, (n - 1) as nat);
        let child = t.nodes[i].children[n - 1];
        if t.nodes[child].is_active {
            before.push(child)
        } else {
            before
        }
    }
}

/// The spec is a snapshot of the node: its label, its key or threshold, its
/// whitelist in order, and snapshots of its active children.
pub open spec fn snapshot_of(t: TreeShape, i: int, spec: NodeSpec) -> bool
    decreases spec, spec.children_view().len() + 1,
{
    &&& spec.label_view() == t.nodes[i].label
    &&& lists_set(spec.bridges_view(), t.nodes[i].allowed)
    &&& match (t.nodes[i].hardware_key_id, spec) {
        (Some(id), NodeSpec::Leaf { hardware_key_id, .. }) => hardware_key_id == id,
        (None, NodeSpec::Split { threshold, children, .. }) => {
            &&& threshold == (match t.nodes[i].threshold {
                Some(threshold) => threshold,
                None => 1,
            })
            &&& children@.len() == active_places(t, i, t.nodes[i].children.len()).len()
            &&& snapshots_of(
                t,
                active_places(t, i, t.nodes[i].children.len()),
                spec,
                spec.children_view().len(),
            )
        },
        _ => false,
    }
}

/// The first `n` children of the spec are snapshots of the nodes at the places.
pub open spec fn snapshots_of(t: TreeShape, at: Seq<int>, spec: NodeSpec, n: nat) -> bool
    decreases spec, n,
    when n <= spec.children_view().len()
{
    n == 0 || (snapshots_of(t, at, spec, (n - 1) as nat) && snapshot_of(
        t,
        at[n - 1],
        spec.children_view()[n - 1],
    ))
}

proof fn lemma_snapshots_of_all(t: TreeShape, at: Seq<int>, spec: NodeSpec, n: nat)
    requires
        n <= spec.children_view().len(),
        forall|k: int| 0 <= k < n ==> snapshot_of(t, at[k], #[trigger] spec.children_view()[k]),
    ensures
        snapshots_of(t, at, spec, n),
    decreases n,
{
    if n > 0 {
        lemma_snapshots_of_all(t, at, spec, (n - 1) as nat);
        assert(snapshot_of(t, at[n - 1], spec.children_view()[n - 1]));
    }
}

impl KeyQuorumTree {
    fn active_children_of(&self, i: usize) -> (r: Vec<usize>)
        requires
            self@.wf(),
            i < self@.nodes.len(),
        ensures
            crate::key_tree::tree::places(r@) == active_places(
                self@,
                i as int,
                self@.nodes[i as int].children.len(),
            ),
            forall|k: int| 0 <= k < r@.len() ==> i < #[trigger] r@[k] < self@.nodes.len(),
    {
        let ghost t = self@;
        assert(t.nodes[i as int] == self.nodes@[i as int]@);
        let mut found: Vec<usize> = Vec::new();
        let mut k: usize = 0;
        assert(crate::key_tree::tree::places(found@) =~= active_places(t, i as int, 0));
        while k < self.nodes[i].children_indices.len()
            invariant
                t == self@,
                t.wf(),
                t.nodes.len() == self.nodes@.len(),
                i < t.nodes.len(),
                t.nodes[i as int] == self.nodes@[i as int]@,
                k <= self.nodes@[i as int].children_indices@.len(),
                crate::key_tree::tree::places(found@) == active_places(t, i as int, k as nat),
                forall|m: int| 0 <= m < found@.len() ==> i < #[trigger] found@[m] < t.nodes.len(),
            decreases self.nodes@[i as int].children_indices@.len() - k,
        {
            let child: usize = self.nodes[i].children_indices[k];
            assert(t.nodes[i as int].children[k as int] == child);
            assert(t.nodes[child as int] == self.nodes@[child as int]@);
            if self.nodes[child].is_active {
                let ghost before = crate::key_tree::tree::places(found@);
                found.push(child);
                assert(crate::key_tree::tree::places(found@) =~= before.push(child as int));
            }
            k += 1;
        }
        found
    }

    fn export_node(&self, idx: usize) -> (r: NodeSpec)
        requires
            self@.wf(),
            idx < self@.nodes.len(),
        ensures
            snapshot_of(self@, idx as int, r),
        decreases self@.nodes.len() - idx,
    {
        let ghost t = self@;
        assert(t.nodes[idx as int] == self.nodes@[idx as int]@);
        let node = &self.nodes[idx];
        let allowed_bridges = sorted_texts(&node.allowed_bridges);
        match node.hardware_key_id {
            Some(hardware_key_id) => NodeSpec::Leaf {
                label: node.id.clone(),
                hardware_key_id,
                allowed_bridges,
            },
            None => {
                let at = self.active_children_of(idx);
                let ghost wanted = crate::key_tree::tree::places(at@);
                let mut children: Vec<NodeSpec> = Vec::new();
                let mut k: usize = 0;
                while k < at.len()
                    invariant
                        t == self@,
                        t.wf(),
                        idx < t.nodes.len(),
                        wanted == crate::key_tree::tree::places(at@),
                        k <= at@.len(),
                        children@.len() == k,
                        forall|m: int| 0 <= m < at@.len() ==> idx < #[trigger] at@[m] < t.nodes.len(),
                        forall|m: int|
                            0 <= m < k ==> snapshot_of(t, wanted[m], #[trigger] children@[m]),
                    decreases at@.len() - k,
                {
                    let child = self.export_node(at[k]);
                    assert(wanted[k as int] == at@[k as int]);
                    children.push(child);
                    k += 1;
                }
                let threshold: u8 = match node.threshold {
                    Some(threshold) => threshold as u8,
                    None => 1,
                };
                let spec = NodeSpec::Split {
                    label: node.id.clone(),
                    threshold,
                    children,
                    allowed_bridges,
                };
                proof {
                    lemma_snapshots_of_all(t, wanted, spec, spec.children_view().len());
                }
                spec
            },
        }
    }
}

/// A snapshot of the stored tree: active nodes, their keys and whitelists. It is
/// a copy to look at, not something that is edited and fed back.
pub fn export_spec(store: &TreeStore, key_id: i64) -> (r: Result<NodeSpec, Error>)
    requires
        store.wf(),
    ensures
        match (r, loaded(store@, key_id)) {
            (Ok(spec), Ok(t)) => snapshot_of(t, t.root, spec),
            (Err(e), Err(expected)) => e == expected,
            _ => false,
        },
{
    match KeyQuorumTree::load(store, key_id) {
        Ok(tree) => Ok(tree.export_node(tree.root_index)),
        Err(e) => Err(e),
    }
}

/// A secret in a list.
#[derive(Debug)]
pub struct TreeListing {
    pub key_id: i64,
    pub label: String,
}

/// Every stored secret, in the order of the ids.
pub fn list_trees(store: &TreeStore) -> (r: Vec<TreeListing>)
    ensures
        r@.len() == store@.keys.len(),
        forall|i: int|
            0 <= i < r@.len() ==> (#[trigger] r@[i]).key_id == store@.keys[i].id && r@[i].label@
                == store@.keys[i].label,
{
    let mut listed: Vec<TreeListing> = Vec::new();
    let mut i: usize = 0;
    while i < store.keys.len()
        invariant
            i <= store.keys.len(),
            listed@.len() == i,
            forall|k: int|
                0 <= k < i ==> (#[trigger] listed@[k]).key_id == store@.keys[k].id
                    && listed@[k].label@ == store@.keys[k].label,
        decreases store.keys.len() - i,
    {
        assert(store@.keys[i as int] == store.keys@[i as int]@);
        listed.push(
            TreeListing { key_id: store.keys[i].id, label: store.keys[i].label.clone() },
        );
        i += 1;
    }
    listed
}

/// A leaf that is sealed to some hardware key.
#[derive(Debug)]
pub struct HardwareLeafRef {
    pub key_id: i64,
    pub node_id: i64,
    pub label: String,
}

#[verifier::ext_equal]
pub struct HardwareLeafView {
    pub key_id: i64,
    pub node_id: i64,
    pub label: Seq<char>,
}

impl View for HardwareLeafRef {
    type V = HardwareLeafView;

    open spec fn view(&self) -> HardwareLeafView {
        HardwareLeafView { key_id: self.key_id, node_id: self.node_id, label: self.label@ }
    }
}

pub open spec fn leaf_views(v: Seq<HardwareLeafRef>) -> Seq<HardwareLeafView> {
    Seq::new(v.len(), |i: int| v[i]@)
}

/// The active leaves of one secret among these rows that are sealed to the key.
pub open spec fn leaves_on(
    nodes: Seq<NodeRowView>,
    key_id: i64,
    hardware_key_id: i64,
) -> Seq<HardwareLeafView>
    decreases nodes.len(),
{
    if nodes.len() == 0 {
        Seq::empty()
    } else {
        let before = leaves_on(nodes.drop_last(), key_id, hardware_key_id);
        let last = nodes.last();
        if last.key_id == key_id && last.is_active && last.hardware_key_id == Some(
            hardware_key_id,
        ) {
            before.push(
                HardwareLeafView { key_id, node_id: last.id, label: last.label },
            )
        } else {
            before
        }
    }
}

/// The active leaves sealed to the key, secret by secret.
pub open spec fn all_leaves_on(
    keys: Seq<KeyRowView>,
    nodes: Seq<NodeRowView>,
    hardware_key_id: i64,
) -> Seq<HardwareLeafView>
    decreases keys.len(),
{
    if keys.len() == 0 {
        Seq::empty()
    } else {
        all_leaves_on(keys.drop_last(), nodes, hardware_key_id) + leaves_on(
            nodes,
            keys.last().id,
            hardware_key_id,
        )
    }
}

/// The active leaves sealed to a hardware key, across all trees, by secret and
/// then by node.
pub fn active_leaves_for_hardware(store: &TreeStore, hardware_key_id: i64) -> (r: Vec<
    HardwareLeafRef,
>)
    ensures
        leaf_views(r@) == all_leaves_on(store@.keys, store@.nodes, hardware_key_id),
{
    let ghost keys = store@.keys;
    let ghost nodes = store@.nodes;
    let mut found: Vec<HardwareLeafRef> = Vec::new();
    let mut k: usize = 0;
    assert(keys.take(0) =~= Seq::<KeyRowView>::empty());
    assert(leaf_views(found@) =~= all_leaves_on(keys.take(0), nodes, hardware_key_id));
    while k < store.keys.len()
        invariant
            k <= store.keys.len(),
            keys == store@.keys,
            nodes == store@.nodes,
            keys.len() == store.keys@.len(),
            nodes.len() == store.nodes@.len(),
            leaf_views(found@) == all_leaves_on(keys.take(k as int), nodes, hardware_key_id),
        decreases store.keys.len() - k,
    {
        let ghost before = leaf_views(found@);
        assert(keys[k as int] == store.keys@[k as int]@);
        let key_id: i64 = store.keys[k].id;
        let mut i: usize = 0;
        assert(nodes.take(0) =~= Seq::<NodeRowView>::empty());
        assert(before + leaves_on(nodes.take(0), key_id, hardware_key_id) =~= before);
        while i < store.nodes.len()
            invariant
                i <= store.nodes.len(),
                nodes == store@.nodes,
                nodes.len() == store.nodes@.len(),
                leaf_views(found@) == before + leaves_on(
                    nodes.take(i as int),
                    key_id,
                    hardware_key_id,
                ),
            decreases store.nodes.len() - i,
        {
            let ghost so_far = leaf_views(found@);
            assert(nodes[i as int] == store.nodes@[i as int]@);
            let row = &store.nodes[i];
            let sealed_to_it = match row.hardware_key_id {
                Some(id) => id == hardware_key_id,
                None => false,
            };
            if row.key_id == key_id && row.is_active && sealed_to_it {
                found.push(
                    HardwareLeafRef { key_id, node_id: row.id, label: row.label.clone() },
                );
            }
            proof {
                let longer = nodes.take(i + 1);
                assert(longer.drop_last() =~= nodes.take(i as int));
                assert(longer.last() == nodes[i as int]);
                if row.key_id == key_id && row.is_active && sealed_to_it {
                    let leaf = HardwareLeafView { key_id, node_id: row.id, label: row.label@ };
                    assert(leaf_views(found@) =~= so_far.push(leaf));
                    assert(before + leaves_on(longer, key_id, hardware_key_id) =~= so_far.push(
                        leaf,
                    ));
                }
            }
            i += 1;
        }
        proof {
            assert(nodes.take(i as int) =~= nodes);
            assert(keys.take(k + 1).drop_last() =~= keys.take(k as int));
            assert(keys.take(k + 1).last() == keys[k as int]);
        }
        k += 1;
    }
    assert(keys.take(k as int) =~= keys);
    found
}

/// The bindings of the first `n` leaves are dropped in turn.
pub open spec fn bindings_dropped_for(s: TreeStoreView, leaves: Seq<HardwareLeafView>, n: nat) -> TreeStoreView
    decreases n,
{
    if n == 0 {
        s
    } else {
        let before = bindings_dropped_for(s, leaves, (n - 1) as nat);
        let leaf = leaves[n - 1];
        bindings_dropped(before, leaf.key_id, leaf.node_id, leaf.label)
    }
}

/// What is listed for a hardware key are rows with its label.
proof fn lemma_leaves_on_rows(nodes: Seq<NodeRowView>, key_id: i64, hardware_key_id: i64, k: int)
    requires
        0 <= k < leaves_on(nodes, key_id, hardware_key_id).len(),
    ensures
        exists|i: int|
            0 <= i < nodes.len() && (#[trigger] nodes[i]).id == leaves_on(
                nodes,
                key_id,
                hardware_key_id,
            )[k].node_id && nodes[i].label == leaves_on(nodes, key_id, hardware_key_id)[k].label
                && nodes[i].key_id == key_id && leaves_on(nodes, key_id, hardware_key_id)[k].key_id
                == key_id && nodes[i].is_active && nodes[i].hardware_key_id == Some(hardware_key_id),
    decreases nodes.len(),
{
    let front = nodes.drop_last();
    let before = leaves_on(front, key_id, hardware_key_id);
    if k < before.len() {
        lemma_leaves_on_rows(front, key_id, hardware_key_id, k);
        let i = choose|i: int|
            0 <= i < front.len() && (#[trigger] front[i]).id == before[k].node_id && front[i].label
                == before[k].label && front[i].key_id == key_id && before[k].key_id == key_id
                && front[i].is_active && front[i].hardware_key_id == Some(hardware_key_id);
        assert(nodes[i] == front[i]);
    } else {
        assert(nodes[nodes.len() - 1] == nodes.last());
    }
}

proof fn lemma_all_leaves_rows(
    keys: Seq<KeyRowView>,
    nodes: Seq<NodeRowView>,
    hardware_key_id: i64,
    k: int,
)
    requires
        0 <= k < all_leaves_on(keys, nodes, hardware_key_id).len(),
    ensures
        exists|i: int|
            0 <= i < nodes.len() && (#[trigger] nodes[i]).id == all_leaves_on(
                keys,
                nodes,
                hardware_key_id,
            )[k].node_id && nodes[i].label == all_leaves_on(keys, nodes, hardware_key_id)[k].label
                && nodes[i].key_id == all_leaves_on(keys, nodes, hardware_key_id)[k].key_id,
    decreases keys.len(),
{
    let before = all_leaves_on(keys.drop_last(), nodes, hardware_key_id);
    let last = leaves_on(nodes, keys.last().id, hardware_key_id);
    if k < before.len() {
        lemma_all_leaves_rows(keys.drop_last(), nodes, hardware_key_id, k);
    } else {
        lemma_leaves_on_rows(nodes, keys.last().id, hardware_key_id, k - before.len());
        assert(all_leaves_on(keys, nodes, hardware_key_id)[k] == last[k - before.len()]);
    }
}

/// Drops the pairings and permissions of every active leaf that is sealed to
/// the hardware key. The nodes stay.
pub fn drop_bindings_for_hardware(store: &mut TreeStore, hardware_key_id: i64) -> (r: Vec<
    HardwareLeafRef,
>)
    requires
        old(store).wf(),
    ensures
        final(store).wf(),
        leaf_views(r@) == all_leaves_on(old(store)@.keys, old(store)@.nodes, hardware_key_id),
        final(store)@ == bindings_dropped_for(old(store)@, leaf_views(r@), r@.len()),
{
    let leaves = active_leaves_for_hardware(store, hardware_key_id);
    let ghost views = leaf_views(leaves@);
    let ghost before = store@;
    let mut i: usize = 0;
    while i < leaves.len()
        invariant
            i <= leaves.len(),
            store.wf(),
            views == leaf_views(leaves@),
            views == all_leaves_on(before.keys, before.nodes, hardware_key_id),
            store@.nodes == before.nodes,
            store@ == bindings_dropped_for(before, views, i as nat),
        decreases leaves.len() - i,
    {
        assert(views[i as int] == leaves@[i as int]@);
        proof {
            lemma_all_leaves_rows(before.keys, before.nodes, hardware_key_id, i as int);
            let row = choose|k: int|
                0 <= k < before.nodes.len() && (#[trigger] before.nodes[k]).id
                    == views[i as int].node_id && before.nodes[k].label == views[i as int].label
                    && before.nodes[k].key_id == views[i as int].key_id;
            lemma_place_of(before.nodes, row);
            assert(node_of_key(before.nodes, before.nodes[row].key_id, before.nodes[row].id));
        }
        let dropped = delete_node_bindings(store, leaves[i].key_id, leaves[i].node_id);
        assert(dropped is Ok);
        i += 1;
    }
    leaves
}

/// An established pairing, by label.
#[derive(Debug)]
pub struct EstablishedBridge {
    pub from: String,
    pub to: String,
}

/// The permissions and pairings of one secret, by label.
#[derive(Debug)]
pub struct BridgeListing {
    pub allowed: Vec<(String, String)>,
    pub established: Vec<EstablishedBridge>,
}

/// The permissions of one secret among the rows, with labels for ids.
pub open spec fn allowed_pairs(
    rows: Seq<(i64, Seq<char>)>,
    nodes: Seq<NodeRowView>,
    key_id: i64,
) -> Seq<TextPair>
    decreases rows.len(),
{
    if rows.len() == 0 {
        Seq::empty()
    } else {
        let before = allowed_pairs(rows.drop_last(), nodes, key_id);
        let last = rows.last();
        if node_of_key(nodes, key_id, last.0) {
            before.push((nodes[place_of(nodes, last.0)].label, last.1))
        } else {
            before
        }
    }
}

/// The pairings of one secret among the rows, with labels for ids.
pub open spec fn established_pairs(
    rows: Seq<(i64, i64)>,
    nodes: Seq<NodeRowView>,
    key_id: i64,
) -> Seq<TextPair>
    decreases rows.len(),
{
    if rows.len() == 0 {
        Seq::empty()
    } else {
        let before = established_pairs(rows.drop_last(), nodes, key_id);
        let last = rows.last();
        if node_of_key(nodes, key_id, last.0) && node_of_key(nodes, key_id, last.1) {
            before.push(
                (nodes[place_of(nodes, last.0)].label, nodes[place_of(nodes, last.1)].label),
            )
        } else {
            before
        }
    }
}

pub open spec fn established_views(v: Seq<EstablishedBridge>) -> Seq<TextPair> {
    Seq::new(v.len(), |i: int| (v[i].from@, v[i].to@))
}

/// The label of a node of the secret.
fn label_in_key(store: &TreeStore, key_id: i64, id: i64) -> (r: Option<String>)
    requires
        store.wf(),
    ensures
        match r {
            Some(label) => node_of_key(store@.nodes, key_id, id) && label@ == store@.nodes[place_of(
                store@.nodes,
                id,
            )].label,
            None => !node_of_key(store@.nodes, key_id, id),
        },
{
    match store.find_node(id) {
        None => None,
        Some(place) => {
            assert(store@.nodes[place as int] == store.nodes@[place as int]@);
            proof {
                lemma_place_of(store@.nodes, place as int);
                if node_of_key(store@.nodes, key_id, id) {
                    let i = choose|i: int|
                        0 <= i < store@.nodes.len() && (#[trigger] store@.nodes[i]).id == id
                            && store@.nodes[i].key_id == key_id;
                    lemma_place_of(store@.nodes, i);
                }
            }
            if store.nodes[place].key_id == key_id {
                Some(store.nodes[place].label.clone())
            } else {
                None
            }
        },
    }
}

/// The permissions and pairings of one secret, in order of the labels.
pub fn list_bridges(store: &TreeStore, key_id: i64) -> (r: BridgeListing)
    requires
        store.wf(),
    ensures
        pairs_in_order(pair_views(r.allowed@)),
        pair_views(r.allowed@).to_multiset() == allowed_pairs(
            bridge_views(store.bridges@),
            store@.nodes,
            key_id,
        ).to_multiset(),
        pairs_in_order(established_views(r.established@)),
        established_views(r.established@).to_multiset() == established_pairs(
            link_views(store.links@),
            store@.nodes,
            key_id,
        ).to_multiset(),
{
    let ghost bridges = bridge_views(store.bridges@);
    let ghost links = link_views(store.links@);
    let ghost nodes = store@.nodes;
    let mut allowed: Vec<(String, String)> = Vec::new();
    let mut i: usize = 0;
    assert(bridges.take(0) =~= Seq::<(i64, Seq<char>)>::empty());
    assert(pair_views(allowed@) =~= allowed_pairs(bridges.take(0), nodes, key_id));
    while i < store.bridges.len()
        invariant
            i <= store.bridges.len(),
            store.wf(),
            bridges == bridge_views(store.bridges@),
            nodes == store@.nodes,
            pair_views(allowed@) == allowed_pairs(bridges.take(i as int), nodes, key_id),
        decreases store.bridges.len() - i,
    {
        let ghost before = pair_views(allowed@);
        assert(bridges[i as int] == store.bridges@[i as int]@);
        proof {
            assert(bridges.take(i + 1).drop_last() =~= bridges.take(i as int));
            assert(bridges.take(i + 1).last() == bridges[i as int]);
        }
        match label_in_key(store, key_id, store.bridges[i].node_id) {
            Some(label) => {
                let ghost pair = (label@, store.bridges@[i as int].peer_label@);
                allowed.push((label, store.bridges[i].peer_label.clone()));
                assert(pair_views(allowed@) =~= before.push(pair));
            },
            None => {},
        }
        i += 1;
    }
    assert(bridges.take(i as int) =~= bridges);
    let mut pairs: Vec<(String, String)> = Vec::new();
    let mut j: usize = 0;
    assert(links.take(0) =~= Seq::<(i64, i64)>::empty());
    assert(pair_views(pairs@) =~= established_pairs(links.take(0), nodes, key_id));
    while j < store.links.len()
        invariant
            j <= store.links.len(),
            store.wf(),
            links == link_views(store.links@),
            nodes == store@.nodes,
            pair_views(pairs@) == established_pairs(links.take(j as int), nodes, key_id),
        decreases store.links.len() - j,
    {
        let ghost before = pair_views(pairs@);
        assert(links[j as int] == store.links@[j as int]@);
        proof {
            assert(links.take(j + 1).drop_last() =~= links.take(j as int));
            assert(links.take(j + 1).last() == links[j as int]);
        }
        match label_in_key(store, key_id, store.links[j].node_a_id) {
            Some(from) => {
                match label_in_key(store, key_id, store.links[j].node_b_id) {
                    Some(to) => {
                        let ghost pair = (from@, to@);
                        pairs.push((from, to));
                        assert(pair_views(pairs@) =~= before.push(pair));
                    },
                    None => {},
                }
            },
            None => {},
        }
        j += 1;
    }
    assert(links.take(j as int) =~= links);
    let sorted = sorted_pairs(pairs);
    let mut established: Vec<EstablishedBridge> = Vec::new();
    let mut k: usize = 0;
    while k < sorted.len()
        invariant
            k <= sorted.len(),
            established@.len() == k,
            forall|m: int|
                0 <= m < k ==> (#[trigger] established@[m]).from@ == sorted@[m].0@
                    && established@[m].to@ == sorted@[m].1@,
        decreases sorted.len() - k,
    {
        established.push(
            EstablishedBridge { from: sorted[k].0.clone(), to: sorted[k].1.clone() },
        );
        k += 1;
    }
    assert(established_views(established@) =~= pair_views(sorted@));
    BridgeListing { allowed: sorted_pairs(allowed), established }
}

/// A node in a summary.
#[derive(Debug)]
pub struct TreeNodeSummary {
    pub id: i64,
    pub label: String,
    pub threshold: Option<i64>,
    pub hardware_key_id: Option<i64>,
    pub hardware_key_label: Option<String>,
    pub is_active: bool,
    pub allowed_bridges: Vec<String>,
    pub children: Vec<TreeNodeSummary>,
}

/// A tree in a summary.
#[derive(Debug)]
pub struct TreeSummary {
    pub key_id: i64,
    pub label: String,
    pub root: TreeNodeSummary,
}

/// Every hardware key that a node names is registered.
pub open spec fn hardware_registered(nodes: Seq<NodeRowView>, keys: Seq<HardwareKeyView>) -> bool {
    forall|i: int|
        0 <= i < nodes.len() ==> ((#[trigger] nodes[i]).hardware_key_id matches Some(id)
            ==> key_place(keys, id) is Some)
}

/// The summary tells of the node at the place: its row, the label of its key,
/// its whitelist in order, and its children.
pub open spec fn summarises(
    s: TreeStoreView,
    keys: Seq<HardwareKeyView>,
    i: int,
    summary: TreeNodeSummary,
) -> bool
    decreases summary, summary.children@.len() + 1,
{
    let row = s.nodes[i];
    let at = child_places(s.nodes, row.id);
    &&& summary.id == row.id
    &&& summary.label@ == row.label
    &&& summary.threshold == row.threshold
    &&& summary.hardware_key_id == row.hardware_key_id
    &&& summary.is_active == row.is_active
    &&& match (row.hardware_key_id, summary.hardware_key_label) {
        (Some(id), Some(label)) => key_with_id(keys, id) matches Ok(key) && label@ == key.label,
        (None, None) => true,
        _ => false,
    }
    &&& lists_set(
        text_views(summary.allowed_bridges@),
        Set::new(|peer: Seq<char>| s.bridges.contains((row.id, peer))),
    )
    &&& summary.children@.len() == at.len()
    &&& summarise_children(s, keys, at, summary, summary.children@.len())
}

pub open spec fn summarise_children(
    s: TreeStoreView,
    keys: Seq<HardwareKeyView>,
    at: Seq<int>,
    summary: TreeNodeSummary,
    n: nat,
) -> bool
    decreases summary, n,
    when n <= summary.children@.len()
{
    n == 0 || (summarise_children(s, keys, at, summary, (n - 1) as nat) && summarises(
        s,
        keys,
        at[n - 1],
        summary.children@[n - 1],
    ))
}

proof fn lemma_summarise_all(
    s: TreeStoreView,
    keys: Seq<HardwareKeyView>,
    at: Seq<int>,
    summary: TreeNodeSummary,
    n: nat,
)
    requires
        n <= summary.children@.len(),
        forall|k: int| 0 <= k < n ==> summarises(s, keys, at[k], #[trigger] summary.children@[k]),
    ensures
        summarise_children(s, keys, at, summary, n),
    decreases n,
{
    if n > 0 {
        lemma_summarise_all(s, keys, at, summary, (n - 1) as nat);
        assert(summarises(s, keys, at[n - 1], summary.children@[n - 1]));
    }
}

fn describe_node(store: &TreeStore, registry: &KeyRegistry, place: usize) -> (r: TreeNodeSummary)
    requires
        store.wf(),
        registry_wf(registry@),
        hardware_registered(store@.nodes, registry@),
        place < store@.nodes.len(),
    ensures
        summarises(store@, registry@, place as int, r),
    decreases store@.nodes.len() - place,
{
    let ghost s = store@;
    assert(s.nodes[place as int] == store.nodes@[place as int]@);
    let row = &store.nodes[place];
    let hardware_key_label = match row.hardware_key_id {
        None => None,
        Some(id) => match get_key(registry, id) {
            Ok(key) => Some(key.label.clone()),
            Err(_) => {
                assert(false);
                None
            },
        },
    };
    let peers = peers_of(store, row.id);
    let allowed_bridges = sorted_texts(&peers);
    let ghost at = child_places(s.nodes, row.id);
    proof {
        lemma_child_places(s.nodes, row.id);
    }
    let mut children: Vec<TreeNodeSummary> = Vec::new();
    let mut i: usize = 0;
    assert(s.nodes.take(0) =~= Seq::<NodeRowView>::empty());
    while i < store.nodes.len()
        invariant
            i <= store.nodes.len(),
            s == store@,
            s.nodes.len() == store.nodes@.len(),
            store.wf(),
            registry_wf(registry@),
            hardware_registered(s.nodes, registry@),
            place < s.nodes.len(),
            row@ == s.nodes[place as int],
            at == child_places(s.nodes, row.id),
            children@.len() == child_places(s.nodes.take(i as int), row.id).len(),
            forall|k: int|
                0 <= k < children@.len() ==> summarises(
                    s,
                    registry@,
                    child_places(s.nodes.take(i as int), row.id)[k],
                    #[trigger] children@[k],
                ),
        decreases store.nodes.len() - i,
    {
        assert(s.nodes[i as int] == store.nodes@[i as int]@);
        let ghost so_far = child_places(s.nodes.take(i as int), row.id);
        let is_child = match store.nodes[i].parent_id {
            Some(p) => p == row.id,
            None => false,
        };
        proof {
            assert(s.nodes.take(i + 1).drop_last() =~= s.nodes.take(i as int));
            assert(s.nodes.take(i + 1).last() == s.nodes[i as int]);
        }
        if is_child {
            assert(i > place) by {
                if i <= place {
                    if i < place {
                        assert(s.nodes[i as int].id < s.nodes[place as int].id);
                    }
                }
            }
            let child = describe_node(store, registry, i);
            children.push(child);
            assert(child_places(s.nodes.take(i + 1), row.id) == so_far.push(i as int));
        }
        i += 1;
    }
    assert(s.nodes.take(i as int) =~= s.nodes);
    let summary = TreeNodeSummary {
        id: row.id,
        label: row.label.clone(),
        threshold: row.threshold,
        hardware_key_id: row.hardware_key_id,
        hardware_key_label,
        is_active: row.is_active,
        allowed_bridges,
        children,
    };
    proof {
        lemma_summarise_all(s, registry@, at, summary, summary.children@.len());
    }
    summary
}

/// The place of the first node of the secret that has no parent.
pub open spec fn root_at(nodes: Seq<NodeRowView>, key_id: i64, i: int) -> bool {
    &&& 0 <= i < nodes.len()
    &&& nodes[i].key_id == key_id
    &&& nodes[i].parent_id is None
    &&& forall|j: int|
        0 <= j < i ==> !((#[trigger] nodes[j]).key_id == key_id && nodes[j].parent_id is None)
}

/// The secret exists and has a root.
pub open spec fn describable(s: TreeStoreView, key_id: i64) -> bool {
    key_exists(s.keys, key_id) && exists|i: int| #[trigger] root_at(s.nodes, key_id, i)
}

/// The summary is that of the tree of a secret.
pub open spec fn describes(
    s: TreeStoreView,
    keys: Seq<HardwareKeyView>,
    key_id: i64,
    summary: TreeSummary,
) -> bool {
    &&& summary.key_id == key_id
    &&& exists|k: int|
        0 <= k < s.keys.len() && (#[trigger] s.keys[k]).id == key_id && summary.label@
            == s.keys[k].label
    &&& exists|i: int| #[trigger]
        root_at(s.nodes, key_id, i) && summarises(s, keys, i, summary.root)
}

/// A summary of one tree: labels, thresholds, and the hardware key behind each
/// leaf.
pub fn describe(store: &TreeStore, registry: &KeyRegistry, key_id: i64) -> (r: Result<
    TreeSummary,
    Error,
>)
    requires
        store.wf(),
        registry_wf(registry@),
        hardware_registered(store@.nodes, registry@),
    ensures
        match r {
            Ok(summary) => describes(store@, registry@, key_id, summary),
            Err(e) => e == Error::Db(StoreError::NoRows) && !describable(store@, key_id),
        },
{
    let mut k: usize = 0;
    while k < store.keys.len() && store.keys[k].id != key_id
        invariant
            k <= store.keys.len(),
            forall|m: int| 0 <= m < k ==> (#[trigger] store@.keys[m]).id != key_id,
        decreases store.keys.len() - k,
    {
        assert(store@.keys[k as int] == store.keys@[k as int]@);
        k += 1;
    }
    if k >= store.keys.len() {
        return Err(Error::Db(StoreError::NoRows));
    }
    assert(store@.keys[k as int] == store.keys@[k as int]@);
    let label: String = store.keys[k].label.clone();
    let mut i: usize = 0;
    while i < store.nodes.len() && !(store.nodes[i].key_id == key_id && store.nodes[i].parent_id.is_none())
        invariant
            i <= store.nodes.len(),
            forall|j: int|
                0 <= j < i ==> !((#[trigger] store@.nodes[j]).key_id == key_id
                    && store@.nodes[j].parent_id is None),
        decreases store.nodes.len() - i,
    {
        assert(store@.nodes[i as int] == store.nodes@[i as int]@);
        i += 1;
    }
    if i >= store.nodes.len() {
        return Err(Error::Db(StoreError::NoRows));
    }
    assert(store@.nodes[i as int] == store.nodes@[i as int]@);
    assert(root_at(store@.nodes, key_id, i as int));
    let root = describe_node(store, registry, i);
    Ok(TreeSummary { key_id, label, root })
}

} // verus!
