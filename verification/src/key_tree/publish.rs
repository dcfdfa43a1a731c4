//! The public side of a stored tree: what the relay may know of it, and what the
//! holder of one of its leaves sees.

use vstd::prelude::*;

use crate::encoding::{hex_encode, hex_text};
use crate::error::{Error, StoreError};
use crate::key_tree::listing::{
    allowed_pairs, established_pairs, list_bridges, EstablishedBridge,
};
use crate::key_tree::store::{
    bridge_views, key_exists, link_views, node_exists, nodes_ordered, NodeRow, NodeRowView,
    TreeStore,
};
use crate::key_tree::tree::{lemma_place_of, place_of};
use crate::keys::{get_key, key_place, registry_wf, HardwareKeyView, KeyRegistry};
use crate::relay::public_tree::{
    edge_views, find_label, has_label, lemma_label_place, public_node_views, PublicEdge, PublicEdgeView, PublicNode,
    PublicNodeView, PublicTree, PublicTreeView,
};
use crate::relay::visibility::{visible_labels_in_public_tree, visible_to};
use crate::text::{pair_views, pairs_in_order, text_views, TextPair};

verus! {

/// The label of the node above, if there is one.
pub open spec fn label_above(nodes: Seq<NodeRowView>, row: NodeRowView) -> Option<Seq<char>> {
    match row.parent_id {
        Some(parent) => if node_exists(nodes, parent) {
            Some(nodes[place_of(nodes, parent)].label)
        } else {
            None
        },
        None => None,
    }
}

/// The key behind a leaf, if it is registered.
pub open spec fn key_behind(keys: Seq<HardwareKeyView>, row: NodeRowView) -> Option<
    HardwareKeyView,
> {
    match row.hardware_key_id {
        Some(id) => match key_place(keys, id) {
            Some(place) => Some(keys[place]),
            None => None,
        },
        None => None,
    }
}

/// What is public of a node: all but the share that it holds.
pub open spec fn published_node(
    nodes: Seq<NodeRowView>,
    keys: Seq<HardwareKeyView>,
    row: NodeRowView,
) -> PublicNodeView {
    PublicNodeView {
        label: row.label,
        parent_label: label_above(nodes, row),
        threshold: row.threshold,
        is_active: row.is_active,
        encryption_fingerprint: match key_behind(keys, row) {
            Some(key) => Some(key.fingerprint),
            None => None,
        },
        encryption_public_key: match key_behind(keys, row) {
            Some(key) => Some(hex_text(key.public_key)),
            None => None,
        },
    }
}

/// What is public of the nodes of a secret among the rows.
pub open spec fn published_nodes(
    rows: Seq<NodeRowView>,
    nodes: Seq<NodeRowView>,
    keys: Seq<HardwareKeyView>,
    key_id: i64,
) -> Seq<PublicNodeView>
    decreases rows.len(),
{
    if rows.len() == 0 {
        Seq::empty()
    } else {
        let before = published_nodes(rows.drop_last(), nodes, keys, key_id);
        if rows.last().key_id == key_id {
            before.push(published_node(nodes, keys, rows.last()))
        } else {
            before
        }
    }
}

/// The rows differ in nothing but the shares that they hold.
pub open spec fn same_but_shares(a: Seq<NodeRowView>, b: Seq<NodeRowView>) -> bool {
    &&& a.len() == b.len()
    &&& forall|i: int|
        0 <= i < a.len() ==> (#[trigger] b[i]) == (NodeRowView {
            wrapped_share: b[i].wrapped_share,
            ..a[i]
        })
}

proof fn lemma_same_published(
    rows_a: Seq<NodeRowView>,
    rows_b: Seq<NodeRowView>,
    a: Seq<NodeRowView>,
    b: Seq<NodeRowView>,
    keys: Seq<HardwareKeyView>,
    key_id: i64,
)
    requires
        nodes_ordered(a),
        nodes_ordered(b),
        same_but_shares(a, b),
        same_but_shares(rows_a, rows_b),
    ensures
        published_nodes(rows_a, a, keys, key_id) == published_nodes(rows_b, b, keys, key_id),
    decreases rows_a.len(),
{
    if rows_a.len() > 0 {
        let last_a = rows_a.last();
        let last_b = rows_b.last();
        assert(rows_b[rows_b.len() - 1] == last_b);
        assert forall|i: int| 0 <= i < rows_a.drop_last().len() implies (
        #[trigger] rows_b.drop_last()[i]) == (NodeRowView {
            wrapped_share: rows_b.drop_last()[i].wrapped_share,
            ..rows_a.drop_last()[i]
        }) by {
            assert(rows_b.drop_last()[i] == rows_b[i]);
        }
        lemma_same_published(rows_a.drop_last(), rows_b.drop_last(), a, b, keys, key_id);
        if let Some(parent) = last_a.parent_id {
            if node_exists(a, parent) {
                let i = choose|i: int| 0 <= i < a.len() && (#[trigger] a[i]).id == parent;
                assert(b[i].id == parent);
                lemma_place_of(a, i);
                lemma_place_of(b, i);
            }
            if node_exists(b, parent) {
                let i = choose|i: int| 0 <= i < b.len() && (#[trigger] b[i]).id == parent;
                assert(a[i].id == parent);
            }
        }
        assert(published_node(a, keys, last_a) == published_node(b, keys, last_b));
    }
}

/// The public side of a tree tells nothing of the shares in it: trees that differ
/// in their shares alone have the same.
pub proof fn shares_are_not_published(
    a: Seq<NodeRowView>,
    b: Seq<NodeRowView>,
    keys: Seq<HardwareKeyView>,
    key_id: i64,
)
    requires
        nodes_ordered(a),
        nodes_ordered(b),
        same_but_shares(a, b),
    ensures
        published_nodes(a, a, keys, key_id) == published_nodes(b, b, keys, key_id),
{
    lemma_same_published(a, b, a, b, keys, key_id);
}

/// The pairs of labels that edges join.
pub open spec fn edge_pairs(edges: Seq<PublicEdgeView>) -> Seq<TextPair> {
    Seq::new(edges.len(), |i: int| (edges[i].from, edges[i].to))
}

/// The edges are the pairs, in the order of their labels.
pub open spec fn edges_are(edges: Seq<PublicEdgeView>, pairs: Seq<TextPair>) -> bool {
    pairs_in_order(edge_pairs(edges)) && edge_pairs(edges).to_multiset() == pairs.to_multiset()
}

/// The tree is the public side of a secret's.
pub open spec fn publishes(
    store: TreeStore,
    keys: Seq<HardwareKeyView>,
    key_id: i64,
    tree: PublicTreeView,
) -> bool {
    &&& exists|k: int|
        0 <= k < store@.keys.len() && (#[trigger] store@.keys[k]).id == key_id && tree.label
            == store@.keys[k].label
    &&& tree.generation == 1
    &&& tree.nodes == published_nodes(store@.nodes, store@.nodes, keys, key_id)
    &&& edges_are(
        tree.whitelist,
        allowed_pairs(bridge_views(store.bridges@), store@.nodes, key_id),
    )
    &&& edges_are(tree.links, established_pairs(link_views(store.links@), store@.nodes, key_id))
}

fn publish_node(store: &TreeStore, registry: &KeyRegistry, row: &NodeRow) -> (r: PublicNode)
    requires
        store.wf(),
        registry_wf(registry@),
    ensures
        r@ == published_node(store@.nodes, registry@, row@),
{
    let parent_label = match row.parent_id {
        None => None,
        Some(parent) => match store.find_node(parent) {
            None => None,
            Some(place) => {
                assert(store@.nodes[place as int] == store.nodes@[place as int]@);
                proof {
                    lemma_place_of(store@.nodes, place as int);
                }
                Some(store.nodes[place].label.clone())
            },
        },
    };
    let (encryption_fingerprint, encryption_public_key) = match row.hardware_key_id {
        None => (None, None),
        Some(id) => match get_key(registry, id) {
            Ok(key) => (
                Some(key.fingerprint.clone()),
                Some(hex_encode(key.public_key.as_slice())),
            ),
            Err(_) => (None, None),
        },
    };
    PublicNode {
        label: row.label.clone(),
        parent_label,
        threshold: row.threshold,
        is_active: row.is_active,
        encryption_fingerprint,
        encryption_public_key,
    }
}

fn allowed_edges(pairs: &Vec<(String, String)>) -> (r: Vec<PublicEdge>)
    ensures
        edge_pairs(edge_views(r@)) == pair_views(pairs@),
{
    let mut out: Vec<PublicEdge> = Vec::new();
    let mut i: usize = 0;
    while i < pairs.len()
        invariant
            i <= pairs.len(),
            out@.len() == i,
            forall|k: int|
                0 <= k < i ==> (#[trigger] out@[k]).from@ == pairs@[k].0@ && out@[k].to@
                    == pairs@[k].1@,
        decreases pairs.len() - i,
    {
        out.push(PublicEdge { from: pairs[i].0.clone(), to: pairs[i].1.clone() });
        i += 1;
    }
    assert(edge_pairs(edge_views(out@)) =~= pair_views(pairs@));
    out
}

fn established_edges(bridges: &Vec<EstablishedBridge>) -> (r: Vec<PublicEdge>)
    ensures
        edge_pairs(edge_views(r@)) == crate::key_tree::listing::established_views(bridges@),
{
    let mut out: Vec<PublicEdge> = Vec::new();
    let mut i: usize = 0;
    while i < bridges.len()
        invariant
            i <= bridges.len(),
            out@.len() == i,
            forall|k: int|
                0 <= k < i ==> (#[trigger] out@[k]).from@ == bridges@[k].from@ && out@[k].to@
                    == bridges@[k].to@,
        decreases bridges.len() - i,
    {
        out.push(PublicEdge { from: bridges[i].from.clone(), to: bridges[i].to.clone() });
        i += 1;
    }
    assert(edge_pairs(edge_views(out@)) =~= crate::key_tree::listing::established_views(bridges@));
    out
}

/// The public side of a stored tree: labels, thresholds, public keys, permissions
/// and pairings, and no share.
pub fn export_public_tree(store: &TreeStore, registry: &KeyRegistry, key_id: i64) -> (r: Result<
    PublicTree,
    Error,
>)
    requires
        store.wf(),
        registry_wf(registry@),
    ensures
        match r {
            Ok(tree) => publishes(*store, registry@, key_id, tree@),
            Err(e) => e == Error::Db(StoreError::NoRows) && !key_exists(store@.keys, key_id),
        },
{
    let mut k: usize = 0;
    while k < store.keys.len() && store.keys[k].id != key_id
        invariant
            k <= store.keys.len(),
            forall|m: int| 0 <= m < k ==> (#[trigger] store@.keys[m]).id != key_id,
        decreases store.keys.len() - k,
    {
        assert(store@.keys[k as int] == store.keys@[k as int]@);
        k += 1;
    }
    if k >= store.keys.len() {
        return Err(Error::Db(StoreError::NoRows));
    }
    assert(store@.keys[k as int] == store.keys@[k as int]@);
    let label: String = store.keys[k].label.clone();
    let ghost all = store@.nodes;
    let mut nodes: Vec<PublicNode> = Vec::new();
    let mut i: usize = 0;
    assert(all.take(0) =~= Seq::<NodeRowView>::empty());
    assert(public_node_views(nodes@) =~= Seq::<PublicNodeView>::empty());
    while i < store.nodes.len()
        invariant
            i <= store.nodes.len(),
            store.wf(),
            registry_wf(registry@),
            all == store@.nodes,
            public_node_views(nodes@) == published_nodes(
                all.take(i as int),
                all,
                registry@,
                key_id,
            ),
        decreases store.nodes.len() - i,
    {
        let ghost before = public_node_views(nodes@);
        proof {
            assert(all[i as int] == store.nodes@[i as int]@);
            assert(all.take(i + 1).drop_last() =~= all.take(i as int));
            assert(all.take(i + 1).last() == all[i as int]);
        }
        if store.nodes[i].key_id == key_id {
            let node = publish_node(store, registry, &store.nodes[i]);
            let ghost added = node@;
            nodes.push(node);
            assert(public_node_views(nodes@) =~= before.push(added));
        }
        i += 1;
    }
    assert(all.take(i as int) =~= all);
    let listing = list_bridges(store, key_id);
    let whitelist = allowed_edges(&listing.allowed);
    let links = established_edges(&listing.established);
    Ok(PublicTree { label, generation: 1, nodes, whitelist, links })
}

/// The labels are those that the holder of a leaf sees of a stored tree.
pub open spec fn sees_of_store(
    store: TreeStore,
    keys: Seq<HardwareKeyView>,
    key_id: i64,
    label: Seq<char>,
    seen: Seq<Seq<char>>,
) -> bool {
    exists|tree: PublicTreeView| #[trigger]
        publishes(store, keys, key_id, tree) && forall|other: Seq<char>|
            #![trigger seen.contains(other)]
            seen.contains(other) <==> visible_to(tree, seq![label], other)
}

/// The labels that the holder of a leaf sees of a stored tree.
pub fn visible_labels(store: &TreeStore, registry: &KeyRegistry, key_id: i64, label: &str) -> (r:
    Result<Vec<String>, Error>)
    requires
        store.wf(),
        registry_wf(registry@),
    ensures
        ({
            let nodes = published_nodes(store@.nodes, store@.nodes, registry@, key_id);
            match r {
                Ok(seen) => {
                    &&& key_exists(store@.keys, key_id)
                    &&& has_label(nodes, label@)
                    &&& sees_of_store(*store, registry@, key_id, label@, text_views(seen@))
                },
                Err(e) => if !key_exists(store@.keys, key_id) {
                    e == Error::Db(StoreError::NoRows)
                } else {
                    !has_label(nodes, label@) && e == Error::NodeNotFound
                },
            }
        }),
{
    let tree = match export_public_tree(store, registry, key_id) {
        Ok(tree) => tree,
        Err(e) => return Err(e),
    };
    proof {
        lemma_label_place(tree@.nodes, label@);
    }
    if find_label(&tree.nodes, label).is_none() {
        return Err(Error::NodeNotFound);
    }
    let mut seeds: Vec<String> = Vec::new();
    seeds.push(label.to_owned());
    assert(text_views(seeds@) =~= seq![label@]);
    let seen = visible_labels_in_public_tree(&tree, &seeds);
    assert(publishes(*store, registry@, key_id, tree@));
    Ok(seen)
}

} // verus!
