//! What genuine shares are enough for: with the shares that the leaves of a tree
//! stand for, a leaf can be added and one can be evicted.

use vstd::prelude::*;

use crate::error::Error;
use crate::keys::{active_encryption_key, HardwareKeyView};
use crate::key_tree::bridges::{labelled_place, lemma_label_agrees};
use crate::key_tree::evict::{deactivated, eviction, shares_of, survivor_fault};
use crate::key_tree::grow::{growth, hardware_at, hardware_fault, ids_at, leaves_below,
    lemma_leaves_below, presented_for};
use crate::key_tree::holding::{active_children, lemma_children_are_rows, node_holds,
    share_the_secret, tree_holds, values_at};
use crate::key_tree::laws::{lemma_distinct_shares_recoverable, lemma_row_in_store,
    lemma_row_is_child};
use crate::key_tree::mutate::{coordinates_usable, secret_from};
use crate::key_tree::store::{node_of_key, nodes_ordered, NodeRowView, TreeStoreView};
use crate::key_tree::tree::{child_places, key_rows, lemma_child_places, lemma_place_of,
    lemma_rows_ordered, lemma_shape_wf, loaded, shape_of_row, shape_of_rows};
use crate::key_tree::upkeep::{lemma_children_in_key, lemma_deactivated_rows, lemma_hardware_of_leaf,
    lemma_leaves_are_children, lemma_presented_values};
use crate::pss::refreshable;
use crate::shamir::{distinct_xs, quorum_of};

verus! {

/// Every active row below a node, without one of them, is a leaf that an active
/// encryption key backs.
pub open spec fn backed_leaves(
    nodes: Seq<NodeRowView>,
    keys: Seq<HardwareKeyView>,
    id: i64,
    without: i64,
) -> bool {
    forall|i: int|
        0 <= i < nodes.len() && (#[trigger] nodes[i]).parent_id == Some(id) && nodes[i].is_active
            && nodes[i].id != without ==> (nodes[i].hardware_key_id matches Some(hardware)
            && active_encryption_key(keys, hardware) is Ok)
}

/// Shares are presented under the ids of leaves, and are the leaves' own.
pub open spec fn genuine(presented: Map<i64, Seq<u8>>, values: Map<i64, Seq<u8>>) -> bool {
    forall|id: i64| #[trigger] presented.contains_key(id) ==> presented[id] == values[id]
}

proof fn lemma_all_leaves(
    rows: Seq<NodeRowView>,
    bridges: Set<(i64, Seq<char>)>,
    p: int,
    except: int,
    n: nat,
)
    requires
        0 <= p < rows.len(),
        n <= child_places(rows, rows[p].id).len(),
        forall|k: int|
            0 <= k < child_places(rows, rows[p].id).len() ==> {
                let c = #[trigger] child_places(rows, rows[p].id)[k];
                0 <= c < rows.len() && (c != except && rows[c].is_active
                    ==> rows[c].hardware_key_id is Some)
            },
    ensures
        leaves_below(shape_of_rows(rows, bridges), p, except, n) is Some,
    decreases n,
{
    let t = shape_of_rows(rows, bridges);
    assert(t.nodes[p] == shape_of_row(rows, bridges, p));
    if n > 0 {
        lemma_all_leaves(rows, bridges, p, except, (n - 1) as nat);
        let c = child_places(rows, rows[p].id)[n - 1];
        assert(t.nodes[p].children[n - 1] == c);
        assert(t.nodes[c] == shape_of_row(rows, bridges, c));
    }
}

proof fn lemma_no_hardware_fault(keys: Seq<HardwareKeyView>, hardware: Seq<i64>, n: nat)
    requires
        n <= hardware.len(),
        forall|k: int|
            0 <= k < hardware.len() ==> active_encryption_key(keys, #[trigger] hardware[k]) is Ok,
    ensures
        hardware_fault(keys, hardware, n) is None,
    decreases n,
{
    if n > 0 {
        lemma_no_hardware_fault(keys, hardware, (n - 1) as nat);
        assert(active_encryption_key(keys, hardware[n - 1]) is Ok);
    }
}

proof fn lemma_no_survivor_fault(
    keys: Seq<HardwareKeyView>,
    ids: Seq<i64>,
    hardware: Seq<i64>,
    presented: Map<i64, Seq<u8>>,
    n: nat,
)
    requires
        n <= hardware.len(),
        ids.len() == hardware.len(),
        forall|k: int|
            0 <= k < hardware.len() ==> active_encryption_key(keys, #[trigger] hardware[k]) is Ok,
        forall|k: int| 0 <= k < ids.len() ==> presented.contains_key(#[trigger] ids[k]),
    ensures
        survivor_fault(keys, ids, hardware, presented, n) is None,
    decreases n,
{
    if n > 0 {
        lemma_no_survivor_fault(keys, ids, hardware, presented, (n - 1) as nat);
        assert(active_encryption_key(keys, hardware[n - 1]) is Ok);
        assert(presented.contains_key(ids[n - 1]));
    }
}

/// A share is one of the first `n`.
spec fn among(share: Seq<u8>, own: Seq<Seq<u8>>, n: nat) -> bool {
    exists|k: int| 0 <= k < n && #[trigger] own[k] == share
}

/// Genuine shares of different leaves stand at different places.
proof fn lemma_presented_distinct(
    ids: Seq<i64>,
    presented: Map<i64, Seq<u8>>,
    values: Map<i64, Seq<u8>>,
    n: nat,
)
    requires
        n <= ids.len(),
        genuine(presented, values),
        distinct_xs(values_at(ids, values)),
    ensures
        distinct_xs(presented_for(ids, presented, n)),
        forall|m: int|
            0 <= m < presented_for(ids, presented, n).len() ==> among(
                #[trigger] presented_for(ids, presented, n)[m],
                values_at(ids, values),
                n,
            ),
    decreases n,
{
    if n > 0 {
        let q = (n - 1) as nat;
        lemma_presented_distinct(ids, presented, values, q);
        let own = values_at(ids, values);
        let before = presented_for(ids, presented, q);
        let all = presented_for(ids, presented, n);
        assert forall|m: int| 0 <= m < all.len() implies among(#[trigger] all[m], own, n) by {
            if m < before.len() {
                assert(all[m] == before[m]);
                assert(among(before[m], own, q));
                let k = choose|k: int| 0 <= k < q && #[trigger] own[k] == before[m];
                assert(own[k] == all[m]);
            } else {
                assert(own[q as int] == all[m]);
            }
        }
        assert forall|x: int, y: int| 0 <= x < y < all.len() implies (#[trigger] all[x])[0] != (
        #[trigger] all[y])[0] by {
            assert(all[x] == before[x]);
            if y < before.len() {
                assert(all[y] == before[y]);
            } else {
                assert(among(before[x], own, q));
                let k = choose|k: int| 0 <= k < q && #[trigger] own[k] == before[x];
                assert(own[k][0] != own[q as int][0]);
            }
        }
    }
}

/// Enough genuine shares of a split's children are usable and give its value.
proof fn lemma_genuine_secret(
    ids: Seq<i64>,
    presented: Map<i64, Seq<u8>>,
    values: Map<i64, Seq<u8>>,
    value: Seq<u8>,
    threshold: u8,
)
    requires
        genuine(presented, values),
        share_the_secret(values_at(ids, values), value, threshold),
        value.len() > 0,
        threshold >= 1,
        presented_for(ids, presented, ids.len()).len() >= threshold,
    ensures
        secret_from(threshold, presented_for(ids, presented, ids.len())) == Ok::<Seq<u8>, Error>(
            value,
        ),
{
    let raws = presented_for(ids, presented, ids.len());
    let own = values_at(ids, values);
    lemma_presented_distinct(ids, presented, values, ids.len());
    lemma_presented_values(ids, presented, values, ids.len());
    assert forall|k: int| 0 <= k < raws.len() implies (#[trigger] raws[k]).len() == value.len() + 1
        && raws[k][0] != 0 by {
        assert(among(raws[k], own, ids.len()));
        let m = choose|m: int| 0 <= m < ids.len() && #[trigger] own[m] == raws[k];
        assert(own[m].len() == value.len() + 1);
    }
    let xs = raws.map_values(|s: Seq<u8>| s[0]);
    assert(coordinates_usable(raws)) by {
        assert forall|i: int| 0 <= i < xs.len() implies #[trigger] xs[i] != 0 by {
            assert(raws[i][0] != 0);
        }
        assert forall|i: int, j: int|
            0 <= i < xs.len() && 0 <= j < xs.len() && i != j implies xs[i] != xs[j] by {
            if i < j {
                assert(raws[i][0] != raws[j][0]);
            } else {
                assert(raws[j][0] != raws[i][0]);
            }
        }
    }
    lemma_distinct_shares_recoverable(raws, threshold, (value.len() + 1) as nat);
    assert(quorum_of(raws, own, threshold));
}

/// Where a leaf is to be added to a split of a tree whose nodes stand for values:
/// the split has room and only leaves below it, every key is active, the label is
/// free, and enough shares were presented, all of them genuine.
pub open spec fn room_for_leaf(
    s: TreeStoreView,
    keys: Seq<HardwareKeyView>,
    key_id: i64,
    split: int,
    new_label: Seq<char>,
    new_hardware_id: i64,
    presented: Map<i64, Seq<u8>>,
    values: Map<i64, Seq<u8>>,
) -> bool {
    let nodes = s.nodes;
    let kids = active_children(nodes, nodes[split].id);
    &&& loaded(s, key_id) is Ok
    &&& tree_holds(nodes, key_id, keys, values)
    &&& 0 <= split < nodes.len()
    &&& nodes[split].key_id == key_id
    &&& values[nodes[split].id].len() > 0
    &&& backed_leaves(nodes, keys, nodes[split].id, 0)
    &&& kids.len() < 255
    &&& nodes[split].threshold matches Some(threshold) && presented_for(
        kids,
        presented,
        kids.len(),
    ).len() >= threshold
    &&& genuine(presented, values)
    &&& active_encryption_key(keys, new_hardware_id) is Ok
    &&& new_label.len() > 0
    &&& forall|i: int|
        0 <= i < nodes.len() && (#[trigger] nodes[i]).key_id == key_id ==> nodes[i].label
            != new_label
}

/// With enough genuine shares a leaf is added: the split keeps its threshold, and
/// what is dealt anew among its leaves is the value that it stood for.
pub proof fn genuine_shares_add_a_leaf(
    s: TreeStoreView,
    keys: Seq<HardwareKeyView>,
    key_id: i64,
    split: int,
    new_label: Seq<char>,
    new_hardware_id: i64,
    presented: Map<i64, Seq<u8>>,
    values: Map<i64, Seq<u8>>,
)
    requires
        s.wf(),
        room_for_leaf(s, keys, key_id, split, new_label, new_hardware_id, presented, values),
    ensures
        growth(
            s,
            keys,
            key_id,
            s.nodes[split].label,
            new_label,
            new_hardware_id,
            presented,
        ) matches Ok(plan) && {
            &&& plan.parent_id == s.nodes[split].id
            &&& Some(plan.threshold as i64) == s.nodes[split].threshold
            &&& plan.leaf_ids == active_children(s.nodes, s.nodes[split].id)
            &&& plan.secret == values[s.nodes[split].id]
        },
{
    let nodes = s.nodes;
    let t = loaded(s, key_id)->Ok_0;
    let rows = key_rows(nodes, key_id);
    let parent = nodes[split].id;
    let threshold = nodes[split].threshold->0;
    lemma_rows_ordered(nodes, key_id);
    lemma_shape_wf(rows, s.bridges);
    assert(rows.contains(nodes[split]));
    let p = choose|p: int| 0 <= p < rows.len() && rows[p] == nodes[split];
    assert(t.nodes[p] == shape_of_row(rows, s.bridges, p));
    lemma_label_agrees(s, key_id, nodes[split].label);
    assert(labelled_place(t, nodes[split].label) == Some(p));
    lemma_label_agrees(s, key_id, new_label);
    assert(labelled_place(t, new_label) is None) by {
        if labelled_place(t, new_label) is Some {
            let i = labelled_place(t, new_label)->0;
            assert(t.nodes[i] == shape_of_row(rows, s.bridges, i));
            assert(nodes.contains(rows[i]));
        }
    }
    let n = t.nodes[p].children.len();
    let at = lemma_leaves_of_split(s, keys, key_id, p, -1, 0);
    let ids = ids_at(t, at);
    assert(deactivated(rows, 0) =~= rows);
    assert(deactivated(nodes, 0) =~= nodes);
    assert(node_holds(nodes, keys, values, nodes[split]));
    assert(ids == active_children(nodes, parent));
    lemma_presented_for_len(ids, presented, ids.len());
    lemma_genuine_secret(ids, presented, values, values[parent], threshold as u8);
    lemma_no_hardware_fault(keys, hardware_at(t, at), at.len());
}

proof fn lemma_presented_for_len(ids: Seq<i64>, presented: Map<i64, Seq<u8>>, n: nat)
    ensures
        presented_for(ids, presented, n).len() <= n,
    decreases n,
{
    if n > 0 {
        lemma_presented_for_len(ids, presented, (n - 1) as nat);
    }
}

/// The leaves below a split, without one of them, and the keys that back them.
proof fn lemma_leaves_of_split(
    s: TreeStoreView,
    keys: Seq<HardwareKeyView>,
    key_id: i64,
    p: int,
    except: int,
    gone: i64,
) -> (at: Seq<int>)
    requires
        s.wf(),
        loaded(s, key_id) is Ok,
        0 <= p < key_rows(s.nodes, key_id).len(),
        forall|i: int|
            0 <= i < key_rows(s.nodes, key_id).len() ==> ((#[trigger] key_rows(
                s.nodes,
                key_id,
            )[i]).id == gone <==> i == except),
        backed_leaves(s.nodes, keys, key_rows(s.nodes, key_id)[p].id, gone),
    ensures
        ({
            let t = loaded(s, key_id)->Ok_0;
            &&& leaves_below(t, p, except, t.nodes[p].children.len()) == Some(at)
            &&& ids_at(t, at) == active_children(
                deactivated(s.nodes, gone),
                key_rows(s.nodes, key_id)[p].id,
            )
            &&& forall|k: int|
                0 <= k < at.len() ==> active_encryption_key(
                    keys,
                    #[trigger] hardware_at(t, at)[k],
                ) is Ok
        }),
{
    let nodes = s.nodes;
    let t = loaded(s, key_id)->Ok_0;
    let rows = key_rows(nodes, key_id);
    let parent = rows[p].id;
    lemma_rows_ordered(nodes, key_id);
    assert(t.nodes[p] == shape_of_row(rows, s.bridges, p));
    let n = t.nodes[p].children.len();
    lemma_child_places(rows, parent);
    assert forall|k: int| 0 <= k < child_places(rows, parent).len() implies {
        let c = #[trigger] child_places(rows, parent)[k];
        0 <= c < rows.len() && (c != except && rows[c].is_active
            ==> rows[c].hardware_key_id is Some)
    } by {
        let c = child_places(rows, parent)[k];
        let home = lemma_row_in_store(nodes, key_id, c);
        assert(nodes[home] == rows[c]);
    }
    lemma_all_leaves(rows, s.bridges, p, except, n);
    let at = leaves_below(t, p, except, n)->0;
    lemma_leaves_below(rows, s.bridges, p, except, n);
    lemma_leaves_are_children(rows, s.bridges, p, except, gone, rows.len());
    assert(rows.take(rows.len() as int) =~= rows);
    let idle = deactivated(nodes, gone);
    assert(deactivated(rows, gone).take(rows.len() as int) =~= deactivated(rows, gone));
    lemma_deactivated_rows(nodes, key_id, gone);
    let split = lemma_row_in_store(nodes, key_id, p);
    assert forall|i: int| 0 <= i < idle.len() && (#[trigger] idle[i]).parent_id == Some(
        parent,
    ) implies idle[i].key_id == key_id by {
        assert(nodes[i].parent_id == Some(nodes[split].id));
    }
    lemma_children_in_key(idle, key_id, parent);
    assert forall|k: int| 0 <= k < at.len() implies active_encryption_key(
        keys,
        #[trigger] hardware_at(t, at)[k],
    ) is Ok by {
        lemma_hardware_of_leaf(t, rows, s.bridges, at, k);
        let home = lemma_row_in_store(nodes, key_id, at[k]);
        assert(nodes[home].id != gone);
    }
    at
}

/// Where a leaf is to be evicted from a tree whose nodes stand for values: it is
/// active, its split needs two shares or more and keeps as many leaves, every key
/// is active, and all the others presented their genuine shares.
pub open spec fn ready_to_evict(
    s: TreeStoreView,
    keys: Seq<HardwareKeyView>,
    key_id: i64,
    leaf: int,
    split: int,
    presented: Map<i64, Seq<u8>>,
    values: Map<i64, Seq<u8>>,
) -> bool {
    let nodes = s.nodes;
    let kids = active_children(deactivated(nodes, nodes[leaf].id), nodes[split].id);
    &&& loaded(s, key_id) is Ok
    &&& tree_holds(nodes, key_id, keys, values)
    &&& 0 <= leaf < nodes.len()
    &&& nodes[leaf].key_id == key_id
    &&& nodes[leaf].is_active
    &&& nodes[leaf].hardware_key_id is Some
    &&& 0 <= split < nodes.len()
    &&& nodes[leaf].parent_id == Some(nodes[split].id)
    &&& values[nodes[split].id].len() > 0
    &&& backed_leaves(nodes, keys, nodes[split].id, nodes[leaf].id)
    &&& nodes[split].threshold matches Some(threshold) && 2 <= threshold <= kids.len()
    &&& genuine(presented, values)
    &&& forall|k: int| 0 <= k < kids.len() ==> presented.contains_key(#[trigger] kids[k])
}

/// With the genuine shares of all its siblings a leaf is evicted: the threshold
/// stays, the siblings are the ones that stay, and their own shares are what is
/// refreshed.
pub proof fn genuine_shares_evict_a_leaf(
    s: TreeStoreView,
    keys: Seq<HardwareKeyView>,
    key_id: i64,
    leaf: int,
    split: int,
    presented: Map<i64, Seq<u8>>,
    values: Map<i64, Seq<u8>>,
)
    requires
        s.wf(),
        ready_to_evict(s, keys, key_id, leaf, split, presented, values),
    ensures
        eviction(s, keys, key_id, s.nodes[leaf].id, presented) matches Ok(plan) && {
            &&& Some(plan.threshold as i64) == s.nodes[split].threshold
            &&& plan.leaf_ids == active_children(
                deactivated(s.nodes, s.nodes[leaf].id),
                s.nodes[split].id,
            )
            &&& plan.shares == values_at(plan.leaf_ids, values)
        },
{
    let nodes = s.nodes;
    let t = loaded(s, key_id)->Ok_0;
    let rows = key_rows(nodes, key_id);
    let gone = nodes[leaf].id;
    let parent = nodes[split].id;
    let threshold = nodes[split].threshold->0;
    lemma_rows_ordered(nodes, key_id);
    lemma_shape_wf(rows, s.bridges);
    assert(nodes[split].key_id == key_id) by {
        assert(nodes[leaf].parent_id == Some(nodes[split].id));
    }
    assert(rows.contains(nodes[leaf]));
    assert(rows.contains(nodes[split]));
    let e = choose|e: int| 0 <= e < rows.len() && rows[e] == nodes[leaf];
    let p = choose|p: int| 0 <= p < rows.len() && rows[p] == nodes[split];
    lemma_place_of(rows, e);
    lemma_place_of(rows, p);
    assert(t.nodes[e] == shape_of_row(rows, s.bridges, e));
    assert(t.nodes[p] == shape_of_row(rows, s.bridges, p));
    assert(node_of_key(nodes, key_id, gone));
    assert forall|i: int| 0 <= i < rows.len() implies ((#[trigger] rows[i]).id == gone <==> i
        == e) by {
        lemma_place_of(rows, i);
    }
    let at = lemma_leaves_of_split(s, keys, key_id, p, e, gone);
    let ids = ids_at(t, at);
    let hardware = hardware_at(t, at);
    lemma_no_survivor_fault(keys, ids, hardware, presented, at.len());
    let shares = shares_of(ids, presented);
    assert(shares =~= values_at(ids, values)) by {
        assert forall|k: int| 0 <= k < ids.len() implies presented[#[trigger] ids[k]]
            == values[ids[k]] by {
            assert(presented.contains_key(ids[k]));
        }
    }
    assert(node_holds(nodes, keys, values, nodes[split]));
    lemma_remaining_share(nodes, gone, parent, values, threshold as u8);
    let xs = shares.map_values(|s: Seq<u8>| s[0]);
    assert(refreshable(shares, threshold as u8)) by {
        assert forall|i: int| 0 <= i < shares.len() implies (#[trigger] shares[i]).len()
            == shares[0].len() by {
            assert(shares[0].len() == values[parent].len() + 1);
        }
        assert(shares[0].len() == values[parent].len() + 1);
        assert forall|i: int| 0 <= i < xs.len() implies #[trigger] xs[i] != 0 by {
            assert(shares[i][0] != 0);
        }
        assert forall|i: int, j: int|
            0 <= i < xs.len() && 0 <= j < xs.len() && i != j implies xs[i] != xs[j] by {
            if i < j {
                assert(shares[i][0] != shares[j][0]);
            } else {
                assert(shares[j][0] != shares[i][0]);
            }
        }
    }
}

/// The values of the children that stay stand at places of their own too.
proof fn lemma_remaining_share(
    nodes: Seq<NodeRowView>,
    gone: i64,
    id: i64,
    values: Map<i64, Seq<u8>>,
    threshold: u8,
)
    requires
        share_the_secret(values_at(active_children(nodes, id), values), values[id], threshold),
        nodes_ordered(nodes),
    ensures
        ({
            let own = values_at(active_children(deactivated(nodes, gone), id), values);
            &&& distinct_xs(own)
            &&& forall|k: int|
                0 <= k < own.len() ==> (#[trigger] own[k]).len() == values[id].len() + 1
                    && own[k][0] != 0
        }),
{
    let idle = deactivated(nodes, gone);
    let kids = active_children(nodes, id);
    let left = active_children(idle, id);
    let all = values_at(kids, values);
    let own = values_at(left, values);
    assert forall|k: int| 0 <= k < left.len() implies kids.contains(#[trigger] left[k]) by {
        lemma_children_are_rows(idle, id, k);
        let i = choose|i: int|
            0 <= i < idle.len() && (#[trigger] idle[i]).id == left[k] && idle[i].parent_id == Some(
                id,
            ) && idle[i].is_active;
        assert(nodes[i].is_active);
        lemma_row_is_child(nodes, i, id);
    }
    assert forall|k: int| 0 <= k < own.len() implies (#[trigger] own[k]).len() == values[id].len()
        + 1 && own[k][0] != 0 by {
        assert(kids.contains(left[k]));
        let m = choose|m: int| 0 <= m < kids.len() && kids[m] == left[k];
        assert(all[m] == own[k]);
    }
    lemma_children_ascend(idle, id);
    assert forall|x: int, y: int| 0 <= x < y < own.len() implies (#[trigger] own[x])[0] != (
    #[trigger] own[y])[0] by {
        assert(kids.contains(left[x]));
        assert(kids.contains(left[y]));
        let m = choose|m: int| 0 <= m < kids.len() && kids[m] == left[x];
        let n = choose|n: int| 0 <= n < kids.len() && kids[n] == left[y];
        assert(left[x] < left[y]);
        assert(m != n);
        assert(all[m] == own[x]);
        assert(all[n] == own[y]);
        if m < n {
            assert(all[m][0] != all[n][0]);
        } else {
            assert(all[n][0] != all[m][0]);
        }
    }
}

/// Active children stand in the order of their ids.
proof fn lemma_children_ascend(nodes: Seq<NodeRowView>, id: i64)
    requires
        forall|i: int, j: int|
            0 <= i < j < nodes.len() ==> (#[trigger] nodes[i]).id < (#[trigger] nodes[j]).id,
    ensures
        forall|x: int, y: int|
            0 <= x < y < active_children(nodes, id).len() ==> (#[trigger] active_children(
                nodes,
                id,
            )[x]) < (#[trigger] active_children(nodes, id)[y]),
    decreases nodes.len(),
{
    if nodes.len() > 0 {
        let front = nodes.drop_last();
        assert forall|i: int, j: int| 0 <= i < j < front.len() implies (#[trigger] front[i]).id < (
        #[trigger] front[j]).id by {
            assert(nodes[i].id < nodes[j].id);
        }
        lemma_children_ascend(front, id);
        let before = active_children(front, id);
        let all = active_children(nodes, id);
        assert forall|x: int, y: int| 0 <= x < y < all.len() implies (#[trigger] all[x]) < (
        #[trigger] all[y]) by {
            assert(all[x] == before[x]);
            if y < before.len() {
                assert(all[y] == before[y]);
            } else {
                lemma_children_are_rows(front, id, x);
                let i = choose|i: int|
                    0 <= i < front.len() && (#[trigger] front[i]).id == before[x]
                        && front[i].parent_id == Some(id) && front[i].is_active;
                assert(nodes[i].id < nodes[nodes.len() - 1].id);
            }
        }
    }
}

} // verus!
