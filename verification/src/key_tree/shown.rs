//! What lists, summaries and the public side of a tree show of what is stored.

use vstd::prelude::*;

use crate::encoding::hex_text;
use crate::key_tree::listing::{
    active_places, all_leaves_on, allowed_pairs, bindings_dropped_for, describes,
    established_pairs, leaves_on, root_at, snapshot_of, snapshots_of, summarise_children,
    summarises, HardwareLeafView, TreeNodeSummary, TreeSummary,
};
use crate::key_tree::publish::{edge_pairs, edges_are, published_node, published_nodes, publishes};
use crate::key_tree::spec::NodeSpec;
use crate::key_tree::store::{
    bridge_views, link_views, next_key_id, next_node_id, node_of_key, nodes_ordered, KeyRowView,
    NodeRowView, TreeStore, TreeStoreView,
};
use crate::key_tree::tree::{child_places, lemma_place_of, TreeShape};
use crate::keys::{key_place, registry_wf, HardwareKeyView};
use crate::relay::public_tree::{PublicEdgeView, PublicNodeView, PublicTreeView};
use crate::text::{text_views, TextPair};

verus! {

/// The active children of a node, in order.
pub open spec fn active_children(t: TreeShape, i: int) -> Seq<int> {
    t.nodes[i].children.filter(|c: int| t.nodes[c].is_active)
}

proof fn lemma_active_places(t: TreeShape, i: int, n: nat)
    requires
        n <= t.nodes[i].children.len(),
    ensures
        active_places(t, i, n) == t.nodes[i].children.take(n as int).filter(
            |c: int| t.nodes[c].is_active,
        ),
    decreases n,
{
    reveal(Seq::filter);
    let kids = t.nodes[i].children;
    if n > 0 {
        lemma_active_places(t, i, (n - 1) as nat);
        assert(kids.take(n as int).drop_last() =~= kids.take(n - 1));
        assert(kids.take(n as int).last() == kids[n - 1]);
    } else {
        assert(kids.take(0).filter(|c: int| t.nodes[c].is_active) =~= Seq::<int>::empty());
    }
}

proof fn lemma_snapshots(t: TreeShape, at: Seq<int>, spec: NodeSpec, n: nat, k: int)
    requires
        n <= spec.children_view().len(),
        snapshots_of(t, at, spec, n),
        0 <= k < n,
    ensures
        snapshot_of(t, at[k], spec.children_view()[k]),
    decreases n,
{
    if k < n - 1 {
        lemma_snapshots(t, at, spec, (n - 1) as nat, k);
    }
}

/// A snapshot of a leaf names its key. A snapshot of a split has its threshold and the
/// snapshots of exactly its active children, in order. Both have the node's label and its
/// permissions, each once.
pub proof fn snapshot_shows_what_is_active(t: TreeShape, i: int, spec: NodeSpec)
    requires
        snapshot_of(t, i, spec),
    ensures
        spec.label_view() == t.nodes[i].label,
        forall|peer: Seq<char>| #[trigger]
            spec.bridges_view().contains(peer) <==> t.nodes[i].allowed.contains(peer),
        spec.bridges_view().no_duplicates(),
        t.nodes[i].hardware_key_id matches Some(id) ==> (spec matches NodeSpec::Leaf {
            hardware_key_id,
            ..
        } && hardware_key_id == id),
        t.nodes[i].hardware_key_id is None ==> {
            &&& spec matches NodeSpec::Split { threshold, .. } && (
            t.nodes[i].threshold matches Some(m) ==> threshold == m)
            &&& spec.children_view().len() == active_children(t, i).len()
            &&& forall|k: int|
                0 <= k < spec.children_view().len() ==> snapshot_of(
                    t,
                    active_children(t, i)[k],
                    #[trigger] spec.children_view()[k],
                )
        },
{
    let kids = t.nodes[i].children;
    lemma_active_places(t, i, kids.len());
    assert(kids.take(kids.len() as int) =~= kids);
    assert forall|peer: Seq<char>| #[trigger] spec.bridges_view().contains(peer)
        <==> t.nodes[i].allowed.contains(peer) by {
        assert(spec.bridges_view().to_set().contains(peer) <==> spec.bridges_view().contains(peer));
    }
    let at = active_places(t, i, kids.len());
    if t.nodes[i].hardware_key_id is None {
        assert forall|k: int| 0 <= k < spec.children_view().len() implies snapshot_of(
            t,
            active_children(t, i)[k],
            #[trigger] spec.children_view()[k],
        ) by {
            lemma_snapshots(t, at, spec, spec.children_view().len(), k);
        }
    }
}

/// An active leaf of a secret that is sealed to the key.
pub open spec fn is_active_on(row: NodeRowView, key_id: i64, hardware_key_id: i64) -> bool {
    row.key_id == key_id && row.is_active && row.hardware_key_id == Some(hardware_key_id)
}

proof fn lemma_leaves_on(
    nodes: Seq<NodeRowView>,
    key_id: i64,
    hardware_key_id: i64,
    leaf: HardwareLeafView,
)
    ensures
        leaves_on(nodes, key_id, hardware_key_id).contains(leaf) <==> exists|i: int|
            0 <= i < nodes.len() && is_active_on(#[trigger] nodes[i], key_id, hardware_key_id)
                && leaf.key_id == key_id && leaf.node_id == nodes[i].id && leaf.label
                == nodes[i].label,
    decreases nodes.len(),
{
    let all = leaves_on(nodes, key_id, hardware_key_id);
    if nodes.len() > 0 {
        let rest = nodes.drop_last();
        let before = leaves_on(rest, key_id, hardware_key_id);
        lemma_leaves_on(rest, key_id, hardware_key_id, leaf);
        if all.contains(leaf) {
            let k = choose|k: int| 0 <= k < all.len() && all[k] == leaf;
            if k < before.len() {
                assert(before[k] == leaf);
                let i = choose|i: int|
                    0 <= i < rest.len() && is_active_on(#[trigger] rest[i], key_id, hardware_key_id)
                        && leaf.key_id == key_id && leaf.node_id == rest[i].id && leaf.label
                        == rest[i].label;
                assert(nodes[i] == rest[i]);
            } else {
                assert(is_active_on(nodes[nodes.len() - 1], key_id, hardware_key_id));
            }
        }
        if exists|i: int|
            0 <= i < nodes.len() && is_active_on(#[trigger] nodes[i], key_id, hardware_key_id)
                && leaf.key_id == key_id && leaf.node_id == nodes[i].id && leaf.label
                == nodes[i].label {
            let i = choose|i: int|
                0 <= i < nodes.len() && is_active_on(#[trigger] nodes[i], key_id, hardware_key_id)
                    && leaf.key_id == key_id && leaf.node_id == nodes[i].id && leaf.label
                    == nodes[i].label;
            if i < rest.len() {
                assert(rest[i] == nodes[i]);
                assert(before.contains(leaf));
                let k = choose|k: int| 0 <= k < before.len() && before[k] == leaf;
                assert(all[k] == leaf);
            } else {
                assert(all[before.len() as int] == leaf);
            }
        }
    } else {
        assert(!all.contains(leaf));
    }
}

/// The leaves that are listed for a hardware key are exactly the active ones that are
/// sealed to it, of every secret that is stored.
pub proof fn key_lists_its_active_leaves(
    keys: Seq<KeyRowView>,
    nodes: Seq<NodeRowView>,
    hardware_key_id: i64,
    leaf: HardwareLeafView,
)
    ensures
        all_leaves_on(keys, nodes, hardware_key_id).contains(leaf) <==> {
            &&& exists|k: int| 0 <= k < keys.len() && (#[trigger] keys[k]).id == leaf.key_id
            &&& exists|i: int|
                0 <= i < nodes.len() && (#[trigger] nodes[i]).is_active
                    && nodes[i].hardware_key_id == Some(hardware_key_id) && nodes[i].key_id
                    == leaf.key_id && nodes[i].id == leaf.node_id && nodes[i].label == leaf.label
        },
    decreases keys.len(),
{
    let all = all_leaves_on(keys, nodes, hardware_key_id);
    if keys.len() > 0 {
        let rest = keys.drop_last();
        let last = keys.last();
        let before = all_leaves_on(rest, nodes, hardware_key_id);
        let own = leaves_on(nodes, last.id, hardware_key_id);
        key_lists_its_active_leaves(rest, nodes, hardware_key_id, leaf);
        lemma_leaves_on(nodes, last.id, hardware_key_id, leaf);
        if all.contains(leaf) {
            let k = choose|k: int| 0 <= k < all.len() && all[k] == leaf;
            if k < before.len() {
                assert(before[k] == leaf);
                let r = choose|r: int| 0 <= r < rest.len() && (#[trigger] rest[r]).id == leaf.key_id;
                assert(keys[r] == rest[r]);
            } else {
                assert(own[k - before.len()] == leaf);
                assert(own.contains(leaf));
                assert(keys[keys.len() - 1].id == leaf.key_id);
            }
        }
        if before.contains(leaf) {
            let k = choose|k: int| 0 <= k < before.len() && before[k] == leaf;
            assert(all[k] == leaf);
        }
        if own.contains(leaf) {
            let k = choose|k: int| 0 <= k < own.len() && own[k] == leaf;
            assert(all[before.len() + k] == leaf);
        }
        if (exists|k: int| 0 <= k < keys.len() && (#[trigger] keys[k]).id == leaf.key_id) && exists|
            i: int,
        |
            0 <= i < nodes.len() && (#[trigger] nodes[i]).is_active && nodes[i].hardware_key_id
                == Some(hardware_key_id) && nodes[i].key_id == leaf.key_id && nodes[i].id
                == leaf.node_id && nodes[i].label == leaf.label {
            let k = choose|k: int| 0 <= k < keys.len() && (#[trigger] keys[k]).id == leaf.key_id;
            let i = choose|i: int|
                0 <= i < nodes.len() && (#[trigger] nodes[i]).is_active && nodes[i].hardware_key_id
                    == Some(hardware_key_id) && nodes[i].key_id == leaf.key_id && nodes[i].id
                    == leaf.node_id && nodes[i].label == leaf.label;
            if k < rest.len() {
                assert(rest[k].id == leaf.key_id);
                assert(before.contains(leaf));
            } else {
                assert(is_active_on(nodes[i], last.id, hardware_key_id));
                assert(own.contains(leaf));
            }
        }
    } else {
        assert(!all.contains(leaf));
    }
}

/// Dropping the bindings of some leaves takes their permissions, those that nodes of the
/// same secret have for their labels, and their pairings, and nothing else.
pub proof fn bindings_of_these_leaves_go(
    s: TreeStoreView,
    leaves: Seq<HardwareLeafView>,
    n: nat,
    permission: (i64, Seq<char>),
    pairing: (i64, i64),
)
    requires
        n <= leaves.len(),
    ensures
        ({
            let after = bindings_dropped_for(s, leaves, n);
            &&& after.nodes == s.nodes
            &&& after.keys == s.keys
            &&& after.bridges.contains(permission) <==> s.bridges.contains(permission) && forall|
                k: int,
            |
                0 <= k < n ==> permission.0 != (#[trigger] leaves[k]).node_id && !(permission.1
                    == leaves[k].label && node_of_key(s.nodes, leaves[k].key_id, permission.0))
            &&& after.links.contains(pairing) <==> s.links.contains(pairing) && forall|k: int|
                0 <= k < n ==> pairing.0 != (#[trigger] leaves[k]).node_id && pairing.1
                    != leaves[k].node_id
        }),
    decreases n,
{
    if n > 0 {
        bindings_of_these_leaves_go(s, leaves, (n - 1) as nat, permission, pairing);
    }
}

/// The permissions that are listed are exactly those of the secret's nodes, under the
/// nodes' labels.
pub proof fn permissions_are_listed_by_label(
    rows: Seq<(i64, Seq<char>)>,
    nodes: Seq<NodeRowView>,
    key_id: i64,
    pair: TextPair,
)
    requires
        nodes_ordered(nodes),
    ensures
        allowed_pairs(rows, nodes, key_id).contains(pair) <==> exists|k: int, i: int|
            0 <= k < rows.len() && 0 <= i < nodes.len() && (#[trigger] rows[k]).0 == (
            #[trigger] nodes[i]).id && nodes[i].key_id == key_id && nodes[i].label == pair.0
                && rows[k].1 == pair.1,
    decreases rows.len(),
{
    let all = allowed_pairs(rows, nodes, key_id);
    if rows.len() > 0 {
        let rest = rows.drop_last();
        let last = rows.last();
        let before = allowed_pairs(rest, nodes, key_id);
        permissions_are_listed_by_label(rest, nodes, key_id, pair);
        if all.contains(pair) {
            let j = choose|j: int| 0 <= j < all.len() && all[j] == pair;
            if j < before.len() {
                assert(before[j] == pair);
                let (k, i) = choose|k: int, i: int|
                    0 <= k < rest.len() && 0 <= i < nodes.len() && (#[trigger] rest[k]).0 == (
                    #[trigger] nodes[i]).id && nodes[i].key_id == key_id && nodes[i].label
                        == pair.0 && rest[k].1 == pair.1;
                assert(rows[k] == rest[k]);
            } else {
                let i = choose|i: int|
                    0 <= i < nodes.len() && (#[trigger] nodes[i]).id == last.0 && nodes[i].key_id
                        == key_id;
                lemma_place_of(nodes, i);
                assert(rows[rows.len() - 1].0 == nodes[i].id);
            }
        }
        if exists|k: int, i: int|
            0 <= k < rows.len() && 0 <= i < nodes.len() && (#[trigger] rows[k]).0 == (
            #[trigger] nodes[i]).id && nodes[i].key_id == key_id && nodes[i].label == pair.0
                && rows[k].1 == pair.1 {
            let (k, i) = choose|k: int, i: int|
                0 <= k < rows.len() && 0 <= i < nodes.len() && (#[trigger] rows[k]).0 == (
                #[trigger] nodes[i]).id && nodes[i].key_id == key_id && nodes[i].label == pair.0
                    && rows[k].1 == pair.1;
            if k < rest.len() {
                assert(rest[k].0 == nodes[i].id);
                assert(before.contains(pair));
                let j = choose|j: int| 0 <= j < before.len() && before[j] == pair;
                assert(all[j] == pair);
            } else {
                lemma_place_of(nodes, i);
                assert(node_of_key(nodes, key_id, last.0));
                assert(all[before.len() as int] == pair);
            }
        }
    } else {
        assert(!all.contains(pair));
    }
}

/// The pairings that are listed are exactly those between two nodes of the secret, under
/// the labels of both.
pub proof fn pairings_are_listed_by_label(
    rows: Seq<(i64, i64)>,
    nodes: Seq<NodeRowView>,
    key_id: i64,
    pair: TextPair,
)
    requires
        nodes_ordered(nodes),
    ensures
        established_pairs(rows, nodes, key_id).contains(pair) <==> exists|k: int, i: int, j: int|
            0 <= k < rows.len() && joins_two(#[trigger] rows[k], nodes, #[trigger] nodes[i],
                #[trigger] nodes[j], key_id, i, j) && nodes[i].label == pair.0 && nodes[j].label
                == pair.1,
    decreases rows.len(),
{
    let all = established_pairs(rows, nodes, key_id);
    if rows.len() > 0 {
        let rest = rows.drop_last();
        let last = rows.last();
        let before = established_pairs(rest, nodes, key_id);
        pairings_are_listed_by_label(rest, nodes, key_id, pair);
        if all.contains(pair) {
            let m = choose|m: int| 0 <= m < all.len() && all[m] == pair;
            if m < before.len() {
                assert(before[m] == pair);
                let (k, i, j) = choose|k: int, i: int, j: int|
                    0 <= k < rest.len() && joins_two(#[trigger] rest[k], nodes, #[trigger] nodes[i],
                        #[trigger] nodes[j], key_id, i, j) && nodes[i].label == pair.0
                        && nodes[j].label == pair.1;
                assert(rows[k] == rest[k]);
                assert(joins_two(rows[k], nodes, nodes[i], nodes[j], key_id, i, j));
            } else {
                let i = choose|i: int|
                    0 <= i < nodes.len() && (#[trigger] nodes[i]).id == last.0 && nodes[i].key_id
                        == key_id;
                let j = choose|j: int|
                    0 <= j < nodes.len() && (#[trigger] nodes[j]).id == last.1 && nodes[j].key_id
                        == key_id;
                lemma_place_of(nodes, i);
                lemma_place_of(nodes, j);
                assert(joins_two(rows[rows.len() - 1], nodes, nodes[i], nodes[j], key_id, i, j));
            }
        }
        if exists|k: int, i: int, j: int|
            0 <= k < rows.len() && joins_two(#[trigger] rows[k], nodes, #[trigger] nodes[i],
                #[trigger] nodes[j], key_id, i, j) && nodes[i].label == pair.0 && nodes[j].label
                == pair.1 {
            let (k, i, j) = choose|k: int, i: int, j: int|
                0 <= k < rows.len() && joins_two(#[trigger] rows[k], nodes, #[trigger] nodes[i],
                    #[trigger] nodes[j], key_id, i, j) && nodes[i].label == pair.0
                    && nodes[j].label == pair.1;
            if k < rest.len() {
                assert(joins_two(rest[k], nodes, nodes[i], nodes[j], key_id, i, j));
                assert(before.contains(pair));
                let m = choose|m: int| 0 <= m < before.len() && before[m] == pair;
                assert(all[m] == pair);
            } else {
                lemma_place_of(nodes, i);
                lemma_place_of(nodes, j);
                assert(node_of_key(nodes, key_id, last.0));
                assert(node_of_key(nodes, key_id, last.1));
                assert(all[before.len() as int] == pair);
            }
        }
    } else {
        assert(!all.contains(pair));
    }
}

/// A pairing of two nodes of the secret.
pub open spec fn joins_two(
    pairing: (i64, i64),
    nodes: Seq<NodeRowView>,
    one: NodeRowView,
    other: NodeRowView,
    key_id: i64,
    i: int,
    j: int,
) -> bool {
    &&& 0 <= i < nodes.len()
    &&& 0 <= j < nodes.len()
    &&& pairing.0 == one.id
    &&& pairing.1 == other.id
    &&& one.key_id == key_id
    &&& other.key_id == key_id
}

proof fn lemma_summaries(
    s: TreeStoreView,
    keys: Seq<HardwareKeyView>,
    at: Seq<int>,
    summary: TreeNodeSummary,
    n: nat,
    k: int,
)
    requires
        n <= summary.children@.len(),
        summarise_children(s, keys, at, summary, n),
        0 <= k < n,
    ensures
        summarises(s, keys, at[k], summary.children@[k]),
    decreases n,
{
    if k < n - 1 {
        lemma_summaries(s, keys, at, summary, (n - 1) as nat, k);
    }
}

/// A summary says of a node what its row says, and has one child for each row below it,
/// active or not, in order.
pub proof fn summary_says_what_the_row_says(
    s: TreeStoreView,
    keys: Seq<HardwareKeyView>,
    i: int,
    summary: TreeNodeSummary,
)
    requires
        summarises(s, keys, i, summary),
    ensures
        summary.id == s.nodes[i].id,
        summary.label@ == s.nodes[i].label,
        summary.threshold == s.nodes[i].threshold,
        summary.hardware_key_id == s.nodes[i].hardware_key_id,
        summary.is_active == s.nodes[i].is_active,
        summary.hardware_key_label is Some <==> s.nodes[i].hardware_key_id is Some,
        forall|peer: Seq<char>| #[trigger]
            text_views(summary.allowed_bridges@).contains(peer) <==> s.bridges.contains(
                (s.nodes[i].id, peer),
            ),
        summary.children@.len() == child_places(s.nodes, s.nodes[i].id).len(),
        forall|k: int|
            0 <= k < summary.children@.len() ==> summarises(
                s,
                keys,
                child_places(s.nodes, s.nodes[i].id)[k],
                #[trigger] summary.children@[k],
            ),
{
    let at = child_places(s.nodes, s.nodes[i].id);
    let listed = text_views(summary.allowed_bridges@);
    assert forall|peer: Seq<char>| #[trigger] listed.contains(peer) <==> s.bridges.contains(
        (s.nodes[i].id, peer),
    ) by {
        assert(listed.to_set().contains(peer) <==> listed.contains(peer));
    }
    assert forall|k: int| 0 <= k < summary.children@.len() implies summarises(
        s,
        keys,
        at[k],
        #[trigger] summary.children@[k],
    ) by {
        lemma_summaries(s, keys, at, summary, summary.children@.len(), k);
    }
}

/// What is public of a secret is what is public of each of its nodes, active or not, in
/// order.
pub proof fn all_nodes_of_a_secret_are_published(
    rows: Seq<NodeRowView>,
    nodes: Seq<NodeRowView>,
    keys: Seq<HardwareKeyView>,
    key_id: i64,
)
    ensures
        published_nodes(rows, nodes, keys, key_id) == rows.filter(
            |row: NodeRowView| row.key_id == key_id,
        ).map_values(|row: NodeRowView| published_node(nodes, keys, row)),
    decreases rows.len(),
{
    reveal(Seq::filter);
    let own = |row: NodeRowView| row.key_id == key_id;
    let show = |row: NodeRowView| published_node(nodes, keys, row);
    if rows.len() > 0 {
        all_nodes_of_a_secret_are_published(rows.drop_last(), nodes, keys, key_id);
        let before = rows.drop_last().filter(own);
        if own(rows.last()) {
            assert(before.push(rows.last()).map_values(show) =~= before.map_values(show).push(
                show(rows.last()),
            ));
        }
    } else {
        assert(rows.filter(own) =~= Seq::<NodeRowView>::empty());
        assert(Seq::<NodeRowView>::empty().map_values(show) =~= Seq::<PublicNodeView>::empty());
    }
}

/// A published node has the label, the threshold and the activity of its row, the label of
/// the row above, and the fingerprint and the public key of the registered key behind it.
pub proof fn published_node_says(
    nodes: Seq<NodeRowView>,
    keys: Seq<HardwareKeyView>,
    row: NodeRowView,
    p: int,
    k: int,
)
    requires
        nodes_ordered(nodes),
        registry_wf(keys),
    ensures
        ({
            let node = published_node(nodes, keys, row);
            &&& node.label == row.label
            &&& node.threshold == row.threshold
            &&& node.is_active == row.is_active
            &&& row.parent_id is None ==> node.parent_label is None
            &&& 0 <= p < nodes.len() && row.parent_id == Some(nodes[p].id) ==> node.parent_label
                == Some(nodes[p].label)
            &&& row.hardware_key_id is None ==> node.encryption_fingerprint is None
                && node.encryption_public_key is None
            &&& 0 <= k < keys.len() && row.hardware_key_id == Some(keys[k].id)
                ==> node.encryption_fingerprint == Some(keys[k].fingerprint)
                && node.encryption_public_key == Some(hex_text(keys[k].public_key))
        }),
{
    if 0 <= p < nodes.len() {
        lemma_place_of(nodes, p);
    }
    if 0 <= k < keys.len() {
        let j = key_place(keys, keys[k].id)->0;
        assert(keys[j].id == keys[k].id);
    }
}

/// Nodes and secrets are counted from one on, without a gap.
pub proof fn tree_ids_count_on(
    nodes: Seq<NodeRowView>,
    node: NodeRowView,
    keys: Seq<KeyRowView>,
    key: KeyRowView,
)
    ensures
        next_node_id(Seq::<NodeRowView>::empty()) == 1,
        node.id == next_node_id(nodes) ==> next_node_id(nodes.push(node)) == next_node_id(nodes)
            + 1,
        next_key_id(Seq::<KeyRowView>::empty()) == 1,
        key.id == next_key_id(keys) ==> next_key_id(keys.push(key)) == next_key_id(keys) + 1,
{
}

/// The public side of a tree has the secret's label, generation one, every node of the
/// secret and no other, and the permissions and pairings that are listed for the secret.
pub proof fn public_side_is_whole(
    store: TreeStore,
    keys: Seq<HardwareKeyView>,
    key_id: i64,
    tree: PublicTreeView,
    edge: PublicEdgeView,
)
    requires
        publishes(store, keys, key_id, tree),
    ensures
        exists|k: int|
            0 <= k < store@.keys.len() && (#[trigger] store@.keys[k]).id == key_id && tree.label
                == store@.keys[k].label,
        tree.generation == 1,
        tree.nodes == published_nodes(store@.nodes, store@.nodes, keys, key_id),
        tree.whitelist.contains(edge) <==> allowed_pairs(
            bridge_views(store.bridges@),
            store@.nodes,
            key_id,
        ).contains((edge.from, edge.to)),
        tree.links.contains(edge) <==> established_pairs(
            link_views(store.links@),
            store@.nodes,
            key_id,
        ).contains((edge.from, edge.to)),
{
    lemma_edges_are(
        tree.whitelist,
        allowed_pairs(bridge_views(store.bridges@), store@.nodes, key_id),
        edge,
    );
    lemma_edges_are(
        tree.links,
        established_pairs(link_views(store.links@), store@.nodes, key_id),
        edge,
    );
}

proof fn lemma_edges_are(edges: Seq<PublicEdgeView>, pairs: Seq<TextPair>, edge: PublicEdgeView)
    requires
        edges_are(edges, pairs),
    ensures
        edges.contains(edge) <==> pairs.contains((edge.from, edge.to)),
{
    broadcast use vstd::seq_lib::group_to_multiset_ensures;

    let listed = edge_pairs(edges);
    let pair = (edge.from, edge.to);
    assert(listed.contains(pair) <==> listed.to_multiset().count(pair) > 0);
    assert(pairs.contains(pair) <==> pairs.to_multiset().count(pair) > 0);
    if edges.contains(edge) {
        let k = choose|k: int| 0 <= k < edges.len() && edges[k] == edge;
        assert(listed[k] == pair);
    }
    if listed.contains(pair) {
        let k = choose|k: int| 0 <= k < listed.len() && listed[k] == pair;
        assert(edges[k] == edge);
    }
}

/// A tree is summarised from the first of its nodes that has no parent, under its own label.
pub proof fn summary_starts_at_the_root(
    s: TreeStoreView,
    keys: Seq<HardwareKeyView>,
    key_id: i64,
    summary: TreeSummary,
)
    requires
        s.wf(),
        describes(s, keys, key_id, summary),
    ensures
        summary.key_id == key_id,
        exists|k: int|
            0 <= k < s.keys.len() && (#[trigger] s.keys[k]).id == key_id && s.keys[k].label
                == summary.label@,
        exists|i: int|
            0 <= i < s.nodes.len() && (#[trigger] s.nodes[i]).key_id == key_id
                && s.nodes[i].parent_id is None && s.nodes[i].id == summary.root.id && forall|
                j: int,
            |
                0 <= j < i && (#[trigger] s.nodes[j]).key_id == key_id
                    ==> s.nodes[j].parent_id is Some,
{
    let i = choose|i: int| #[trigger]
        root_at(s.nodes, key_id, i) && summarises(s, keys, i, summary.root);
    assert(s.nodes[i].key_id == key_id);
    assert forall|j: int| 0 <= j < i && (#[trigger] s.nodes[j]).key_id
        == key_id implies s.nodes[j].parent_id is Some by {}
}

} // verus!
