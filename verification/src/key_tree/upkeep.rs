//! What resealing, adding and evicting leave of a tree: the secret, and the
//! bindings of everyone else.

use vstd::prelude::*;

use crate::error::Error;
use crate::keys::{key_with_id, HardwareKeyView};
use crate::key_tree::bridges::{labelled_place, lemma_label_agrees};
use crate::key_tree::evict::{deactivated, evicted_from, eviction, lemma_eviction, EvictionView};
use crate::key_tree::grow::{grown, growth, hardware_at, ids_at, leaves_below, lemma_growth,
    lemma_hardware_sound, lemma_leaves_below, presented_for, GrowthView};
use crate::key_tree::holding::{active_children, lemma_children_append, lemma_children_are_rows,
    node_holds, share_the_secret, tree_holds, values_at};
use crate::key_tree::laws::{lemma_row_is_child, whole};
use crate::key_tree::mutate::{leaf_share, rebound, secret_from};
use crate::key_tree::store::{next_node_id, node_exists, node_of_key,
    nodes_ordered, resealed, NodeRowView, TreeStoreView};
use crate::key_tree::tree::{child_places, key_rows, lemma_place_of, lemma_rows_ordered,
    lemma_shape_wf, loaded, place_of, shape_of_row, shape_of_rows, TreeShape};
use crate::pss::{
    all_absorbed, blinding_rounds, blinding_rounds_keep_the_degree, chosen, quorum_places,
    refreshable, refreshed, refreshed_in_rounds,
};
use crate::sealing::{opens_to, unsealed};
use crate::seqs::lemma_push_no_duplicates;
use crate::shamir::{
    distinct_xs, evaluated, interpolated, of_degree_below, on_polynomials, quorum_of,
};

verus! {

/// Rows that agree in id, parent and activity have the same active children.
proof fn lemma_same_children(a: Seq<NodeRowView>, b: Seq<NodeRowView>, id: i64)
    requires
        a.len() == b.len(),
        forall|i: int|
            #![trigger a[i]]
            #![trigger b[i]]
            0 <= i < a.len() ==> a[i].id == b[i].id && a[i].parent_id == b[i].parent_id
                && a[i].is_active == b[i].is_active,
    ensures
        active_children(a, id) == active_children(b, id),
    decreases a.len(),
{
    if a.len() > 0 {
        assert forall|i: int|
            #![trigger a.drop_last()[i]]
            #![trigger b.drop_last()[i]]
            0 <= i < a.drop_last().len() implies a.drop_last()[i].id == b.drop_last()[i].id
            && a.drop_last()[i].parent_id == b.drop_last()[i].parent_id
            && a.drop_last()[i].is_active == b.drop_last()[i].is_active by {
            assert(a[i].id == b[i].id);
        }
        lemma_same_children(a.drop_last(), b.drop_last(), id);
        assert(a[a.len() - 1].id == b[b.len() - 1].id);
    }
}

/// The children of a node of a secret are found among the secret's rows.
pub(crate) proof fn lemma_children_in_key(nodes: Seq<NodeRowView>, key_id: i64, id: i64)
    requires
        forall|i: int|
            0 <= i < nodes.len() && (#[trigger] nodes[i]).parent_id == Some(id)
                ==> nodes[i].key_id == key_id,
    ensures
        active_children(nodes, id) == active_children(key_rows(nodes, key_id), id),
    decreases nodes.len(),
{
    reveal(Seq::filter);
    if nodes.len() > 0 {
        let front = nodes.drop_last();
        assert forall|i: int| 0 <= i < front.len() && (#[trigger] front[i]).parent_id == Some(
            id,
        ) implies front[i].key_id == key_id by {
            assert(front[i] == nodes[i]);
        }
        lemma_children_in_key(front, key_id, id);
        let last = nodes[nodes.len() - 1];
        if last.key_id == key_id {
            let rows = key_rows(nodes, key_id);
            assert(rows == key_rows(front, key_id).push(last));
            assert(rows.drop_last() =~= key_rows(front, key_id));
        }
    }
}

/// Deactivating a row of a secret commutes with picking the secret's rows.
pub(crate) proof fn lemma_deactivated_rows(nodes: Seq<NodeRowView>, key_id: i64, gone: i64)
    ensures
        key_rows(deactivated(nodes, gone), key_id) == deactivated(key_rows(nodes, key_id), gone),
    decreases nodes.len(),
{
    reveal(Seq::filter);
    let changed = deactivated(nodes, gone);
    if nodes.len() > 0 {
        lemma_deactivated_rows(nodes.drop_last(), key_id, gone);
        assert(changed.drop_last() =~= deactivated(nodes.drop_last(), gone));
        let front = key_rows(nodes.drop_last(), key_id);
        let rows = key_rows(nodes, key_id);
        if nodes.last().key_id == key_id {
            assert(rows == front.push(nodes.last()));
            assert(deactivated(rows, gone) =~= deactivated(front, gone).push(changed.last()));
        }
    } else {
        assert(key_rows(changed, key_id) =~= deactivated(key_rows(nodes, key_id), gone));
    }
}

/// The leaves gathered below a split are its active children, without the one
/// that is gone.
pub(crate) proof fn lemma_leaves_are_children(
    rows: Seq<NodeRowView>,
    bridges: Set<(i64, Seq<char>)>,
    p: int,
    except: int,
    gone: i64,
    m: nat,
)
    requires
        nodes_ordered(rows),
        0 <= p < rows.len(),
        m <= rows.len(),
        forall|i: int| 0 <= i < rows.len() ==> ((#[trigger] rows[i]).id == gone <==> i == except),
        leaves_below(
            shape_of_rows(rows, bridges),
            p,
            except,
            child_places(rows, rows[p].id).len(),
        ) is Some,
    ensures
        child_places(rows.take(m as int), rows[p].id).len() <= child_places(rows, rows[p].id).len(),
        child_places(rows.take(m as int), rows[p].id) == child_places(rows, rows[p].id).take(
            child_places(rows.take(m as int), rows[p].id).len() as int,
        ),
        leaves_below(
            shape_of_rows(rows, bridges),
            p,
            except,
            child_places(rows.take(m as int), rows[p].id).len(),
        ) matches Some(at) && ids_at(shape_of_rows(rows, bridges), at) == active_children(
            deactivated(rows, gone).take(m as int),
            rows[p].id,
        ),
    decreases m,
{
    let t = shape_of_rows(rows, bridges);
    let id = rows[p].id;
    let all = child_places(rows, id);
    let changed = deactivated(rows, gone);
    assert(t.nodes[p] == shape_of_row(rows, bridges, p));
    lemma_prefix_places(rows, id, m);
    if m == 0 {
        assert(rows.take(0) =~= Seq::<NodeRowView>::empty());
        assert(changed.take(0) =~= Seq::<NodeRowView>::empty());
        assert(ids_at(t, Seq::<int>::empty()) =~= Seq::<i64>::empty());
    } else {
        let q = (m - 1) as nat;
        lemma_leaves_are_children(rows, bridges, p, except, gone, q);
        lemma_prefix_places(rows, id, q);
        assert(rows.take(m as int).drop_last() =~= rows.take(q as int));
        assert(changed.take(m as int).drop_last() =~= changed.take(q as int));
        assert(rows.take(m as int).last() == rows[q as int]);
        assert(changed.take(m as int).last() == changed[q as int]);
        let n = child_places(rows.take(q as int), id).len();
        if rows[q as int].parent_id == Some(id) {
            let longer = child_places(rows.take(m as int), id);
            assert(longer == child_places(rows.take(q as int), id).push(q as int));
            assert(longer[n as int] == q);
            assert(all[n as int] == longer[n as int]);
            assert(t.nodes[p].children[n as int] == q);
            assert(t.nodes[q as int] == shape_of_row(rows, bridges, q as int));
            lemma_some_stays(t, p, except, n + 1);
            let before = leaves_below(t, p, except, n)->0;
            if q != except && rows[q as int].is_active {
                assert(ids_at(t, before.push(q as int)) =~= ids_at(t, before).push(
                    rows[q as int].id,
                ));
            }
        }
    }
}

proof fn lemma_some_stays(t: TreeShape, p: int, except: int, n: nat)
    requires
        n <= t.nodes[p].children.len(),
        leaves_below(t, p, except, t.nodes[p].children.len()) is Some,
    ensures
        leaves_below(t, p, except, n) is Some,
    decreases t.nodes[p].children.len() - n,
{
    if n < t.nodes[p].children.len() {
        lemma_some_stays(t, p, except, n + 1);
    }
}

proof fn lemma_prefix_places(rows: Seq<NodeRowView>, id: i64, m: nat)
    requires
        m <= rows.len(),
    ensures
        child_places(rows.take(m as int), id).len() <= child_places(rows, id).len(),
        child_places(rows.take(m as int), id) == child_places(rows, id).take(
            child_places(rows.take(m as int), id).len() as int,
        ),
    decreases rows.len() - m,
{
    if m == rows.len() {
        assert(rows.take(m as int) =~= rows);
        assert(child_places(rows, id).take(child_places(rows, id).len() as int) =~= child_places(
            rows,
            id,
        ));
    } else {
        lemma_prefix_places(rows, id, m + 1);
        assert(rows.take((m + 1) as int).drop_last() =~= rows.take(m as int));
        let shorter = child_places(rows.take(m as int), id);
        let longer = child_places(rows.take((m + 1) as int), id);
        let all = child_places(rows, id);
        assert(shorter =~= longer.take(shorter.len() as int));
        assert(shorter =~= all.take(shorter.len() as int)) by {
            assert forall|k: int| 0 <= k < shorter.len() implies shorter[k] == all[k] by {
                assert(longer[k] == all.take(longer.len() as int)[k]);
            }
        }
    }
}

/// A quorum of refreshed shares gives what the shares at the same places gave.
proof fn lemma_refreshed_shares_share(
    before: Seq<Seq<u8>>,
    after: Seq<Seq<u8>>,
    family: Seq<Seq<u8>>,
    secret: Seq<u8>,
    threshold: u8,
)
    requires
        refreshed(before, after, threshold),
        refreshed_in_rounds(before, after, threshold),
        secret.len() > 0,
        threshold >= 1,
        share_the_secret(family, secret, threshold),
        distinct_xs(before),
        forall|k: int| 0 <= k < before.len() ==> family.contains(#[trigger] before[k]),
    ensures
        share_the_secret(after, secret, threshold),
{
    assert forall|i: int, j: int| 0 <= i < j < after.len() implies (#[trigger] after[i])[0] != (
    #[trigger] after[j])[0] by {
        assert(before[i][0] == after[i][0]);
        assert(before[j][0] == after[j][0]);
        assert(before[i][0] != before[j][0]);
    }
    assert forall|k: int| 0 <= k < after.len() implies (#[trigger] after[k]).len() == secret.len()
        + 1 by {
        assert(before[k].len() == after[k].len());
        assert(family.contains(before[k]));
    }
    assert(of_degree_below(after, secret, threshold)) by {
        let c = choose|c: Seq<Seq<u8>>| #[trigger] on_polynomials(family, secret, c, threshold);
        assert forall|k: int| 0 <= k < before.len() implies (#[trigger] before[k]) == evaluated(
            secret,
            c,
            before[k][0],
        ) && before[k].len() == secret.len() + 1 by {
            let m = choose|m: int| 0 <= m < family.len() && family[m] == before[k];
            assert(family[m] == evaluated(secret, c, family[m][0]));
        }
        assert(on_polynomials(before, secret, c, threshold));
        let rounds = choose|rounds: Seq<Map<u8, Vec<u8>>>|
            {
                &&& rounds.len() == before.len()
                &&& blinding_rounds(before, rounds, threshold)
                &&& after == #[trigger] all_absorbed(before, rounds)
            };
        blinding_rounds_keep_the_degree(before, rounds, secret, threshold);
    }
    assert forall|picked: Seq<Seq<u8>>| #[trigger]
        quorum_of(picked, after, threshold) implies interpolated(picked) == secret by {
        let places = Seq::new(
            picked.len(),
            |k: int| choose|m: int| 0 <= m < after.len() && after[m] == picked[k],
        );
        assert forall|k: int| 0 <= k < picked.len() implies 0 <= #[trigger] places[k]
            < after.len() && after[places[k]] == picked[k] by {
            assert(after.contains(picked[k]));
        }
        assert forall|i: int, j: int|
            0 <= i < places.len() && 0 <= j < places.len() && i != j implies places[i]
            != places[j] by {
            if i < j {
                assert(picked[i][0] != picked[j][0]);
            } else {
                assert(picked[j][0] != picked[i][0]);
            }
        }
        assert(quorum_places(places, before.len(), threshold));
        assert(chosen(after, places) =~= picked);
        let earlier = chosen(before, places);
        assert(distinct_xs(earlier)) by {
            assert forall|i: int, j: int| 0 <= i < j < earlier.len() implies (
            #[trigger] earlier[i])[0] != (#[trigger] earlier[j])[0] by {
                assert(places[i] != places[j]);
                if places[i] < places[j] {
                    assert(before[places[i]][0] != before[places[j]][0]);
                } else {
                    assert(before[places[j]][0] != before[places[i]][0]);
                }
            }
        }
        assert forall|k: int| 0 <= k < earlier.len() implies family.contains(
            #[trigger] earlier[k],
        ) by {
            assert(family.contains(before[places[k]]));
        }
        assert(quorum_of(earlier, family, threshold));
    }
}

/// Values replaced at some ids.
pub open spec fn values_replaced(
    values: Map<i64, Seq<u8>>,
    ids: Seq<i64>,
    shares: Seq<Seq<u8>>,
) -> Map<i64, Seq<u8>> {
    Map::new(
        |id: i64| true,
        |id: i64|
            if ids.contains(id) {
                shares[ids.index_of(id)]
            } else {
                values[id]
            },
    )
}

proof fn lemma_index_of(ids: Seq<i64>, k: int)
    requires
        ids.no_duplicates(),
        0 <= k < ids.len(),
    ensures
        ids.contains(ids[k]),
        ids.index_of(ids[k]) == k,
{
    let m = ids.index_of(ids[k]);
    assert(0 <= m < ids.len() && ids[m] == ids[k]);
}

/// What an opened leaf holds is the leaf's value.
pub proof fn opening_gives_the_leaf_value(
    nodes: Seq<NodeRowView>,
    key_id: i64,
    keys: Seq<HardwareKeyView>,
    values: Map<i64, Seq<u8>>,
    node_id: i64,
    secret: Seq<u8>,
)
    requires
        nodes_ordered(nodes),
        tree_holds(nodes, key_id, keys, values),
        node_of_key(nodes, key_id, node_id),
        leaf_share(nodes, keys, node_id, secret) is Ok,
    ensures
        leaf_share(nodes, keys, node_id, secret)->Ok_0 == values[node_id],
{
    let i = choose|i: int|
        0 <= i < nodes.len() && (#[trigger] nodes[i]).id == node_id && nodes[i].key_id == key_id;
    lemma_place_of(nodes, i);
    assert(node_holds(nodes, keys, values, nodes[i]));
    let wrapped = nodes[i].wrapped_share->0;
    assert(unsealed(secret, wrapped) == Some(values[node_id]));
}

/// Sealing a leaf's share to another key leaves every value as it was.
pub proof fn rebinding_keeps_the_values(
    before: TreeStoreView,
    after: TreeStoreView,
    key_id: i64,
    keys: Seq<HardwareKeyView>,
    values: Map<i64, Seq<u8>>,
    id: i64,
    new_hardware_id: i64,
    sealed: Seq<u8>,
)
    requires
        before.wf(),
        tree_holds(before.nodes, key_id, keys, values),
        rebound(before, after, id, new_hardware_id, sealed),
        forall|i: int|
            0 <= i < before.nodes.len() && (#[trigger] before.nodes[i]).id == id
                ==> before.nodes[i].hardware_key_id is Some,
        key_with_id(keys, new_hardware_id) matches Ok(key) && opens_to(
            sealed,
            key.public_key,
            values[id],
        ),
    ensures
        tree_holds(after.nodes, key_id, keys, values),
{
    assert forall|i: int| 0 <= i < after.nodes.len() && (#[trigger] after.nodes[i]).key_id
        == key_id implies node_holds(after.nodes, keys, values, after.nodes[i]) by {
        assert(node_holds(before.nodes, keys, values, before.nodes[i]));
        lemma_same_children(before.nodes, after.nodes, before.nodes[i].id);
    }
}

/// After an eviction the nodes stand for values again: the survivors for their
/// refreshed shares, everyone else for what they did before. The split above
/// keeps its value, and so does the root.
pub proof fn evicting_keeps_the_secret(
    before: TreeStoreView,
    after: TreeStoreView,
    keys: Seq<HardwareKeyView>,
    key_id: i64,
    evicted: i64,
    presented: Map<i64, Seq<u8>>,
    values: Map<i64, Seq<u8>>,
    shares: Seq<Seq<u8>>,
    sealed: Seq<Seq<u8>>,
)
    requires
        before.wf(),
        tree_holds(before.nodes, key_id, keys, values),
        eviction(before, keys, key_id, evicted, presented) is Ok,
        forall|k: int|
            0 <= k < (eviction(before, keys, key_id, evicted, presented)->Ok_0).leaf_ids.len() ==> (
            eviction(before, keys, key_id, evicted, presented)->Ok_0).shares[k] == values[(
            #[trigger] (eviction(before, keys, key_id, evicted, presented)->Ok_0).leaf_ids[k])],
        evicted_from(
            before,
            after,
            keys,
            key_id,
            evicted,
            eviction(before, keys, key_id, evicted, presented)->Ok_0,
            shares,
            sealed,
        ),
    ensures
        tree_holds(
            after.nodes,
            key_id,
            keys,
            values_replaced(
                values,
                (eviction(before, keys, key_id, evicted, presented)->Ok_0).leaf_ids,
                shares,
            ),
        ),
{
    let plan = eviction(before, keys, key_id, evicted, presented)->Ok_0;
    let ids = plan.leaf_ids;
    let now = values_replaced(values, ids, shares);
    lemma_eviction(before, keys, key_id, evicted, presented);
    let nodes = before.nodes;
    let idle = deactivated(nodes, evicted);
    let split = lemma_eviction_place(before, keys, key_id, evicted, presented);
    let parent = nodes[split].id;
    lemma_survivors_share(nodes, key_id, keys, evicted, values, plan, shares, split);
    lemma_same_skeleton_after_reseal(idle, after.nodes, ids, sealed);
    assert forall|i: int| 0 <= i < nodes.len() && ids.contains(
        (#[trigger] nodes[i]).id,
    ) implies nodes[i].parent_id == Some(parent) by {
        let k = choose|k: int| 0 <= k < ids.len() && ids[k] == nodes[i].id;
        assert(nodes[i].id == ids[k]);
    }
    assert forall|i: int| 0 <= i < after.nodes.len() && (#[trigger] after.nodes[i]).key_id
        == key_id implies node_holds(after.nodes, keys, now, after.nodes[i]) by {
        assert(idle[i].id == after.nodes[i].id);
        assert(node_holds(nodes, keys, values, nodes[i]));
        if nodes[i].hardware_key_id is Some {
            if ids.contains(nodes[i].id) {
                let k = choose|k: int| 0 <= k < ids.len() && ids[k] == nodes[i].id;
                lemma_index_of(ids, k);
                assert(idle[i].id == ids[k]);
                assert(after.nodes[i].wrapped_share == Some(sealed[k]));
                assert(nodes[i].hardware_key_id == Some(plan.leaf_hardware[k]));
                lemma_hardware_sound(keys, plan.leaf_hardware, plan.leaf_hardware.len(), k);
                assert(opens_to(
                    sealed[k],
                    (key_with_id(keys, plan.leaf_hardware[k])->Ok_0).public_key,
                    shares[k],
                ));
            } else {
                assert(after.nodes[i] == idle[i]);
            }
        } else if nodes[i].threshold is Some {
            let id = nodes[i].id;
            lemma_same_children(idle, after.nodes, id);
            assert(!ids.contains(id)) by {
                if ids.contains(id) {
                    let k = choose|k: int| 0 <= k < ids.len() && ids[k] == id;
                    assert(nodes[i].id == ids[k]);
                }
            }
            if id == parent {
                assert(values_at(ids, now) =~= shares) by {
                    assert forall|k: int| 0 <= k < ids.len() implies now[#[trigger] ids[k]]
                        == shares[k] by {
                        lemma_index_of(ids, k);
                    }
                }
                lemma_place_of(nodes, i);
                lemma_place_of(nodes, split);
            } else {
                lemma_children_of_others(nodes, evicted, parent, id);
                lemma_values_of_others(nodes, ids, parent, id, values, shares);
            }
        }
    }
}

/// The split below which an eviction takes place.
proof fn lemma_eviction_place(
    before: TreeStoreView,
    keys: Seq<HardwareKeyView>,
    key_id: i64,
    evicted: i64,
    presented: Map<i64, Seq<u8>>,
) -> (split: int)
    requires
        before.wf(),
        eviction(before, keys, key_id, evicted, presented) is Ok,
    ensures
        ({
            let plan = eviction(before, keys, key_id, evicted, presented)->Ok_0;
            let nodes = before.nodes;
            &&& 0 <= split < nodes.len()
            &&& nodes[split].key_id == key_id
            &&& nodes[split].threshold == Some(plan.threshold as i64)
            &&& nodes[split].hardware_key_id is None
            &&& active_children(deactivated(nodes, evicted), nodes[split].id) == plan.leaf_ids
            &&& forall|i: int|
                0 <= i < nodes.len() && (#[trigger] nodes[i]).id == evicted ==> nodes[i].parent_id
                    == Some(nodes[split].id)
            &&& forall|i: int, k: int|
                0 <= i < nodes.len() && 0 <= k < plan.leaf_ids.len() && (#[trigger] nodes[i]).id
                    == (#[trigger] plan.leaf_ids[k]) ==> {
                    &&& nodes[i].hardware_key_id == Some(plan.leaf_hardware[k])
                    &&& nodes[i].parent_id == Some(nodes[split].id)
                    &&& nodes[i].is_active
                }
        }),
{
    let plan = eviction(before, keys, key_id, evicted, presented)->Ok_0;
    let nodes = before.nodes;
    let idle = deactivated(nodes, evicted);
    let t = loaded(before, key_id)->Ok_0;
    let rows = key_rows(nodes, key_id);
    lemma_rows_ordered(nodes, key_id);
    lemma_shape_wf(rows, before.bridges);
    let home = choose|k: int|
        0 <= k < nodes.len() && (#[trigger] nodes[k]).id == evicted && nodes[k].key_id == key_id;
    assert(rows.contains(nodes[home]));
    let e = choose|e: int| 0 <= e < rows.len() && rows[e] == nodes[home];
    lemma_place_of(rows, e);
    assert(t.nodes[e] == shape_of_row(rows, before.bridges, e));
    let p = t.nodes[e].parent->0;
    assert(t.nodes[p] == shape_of_row(rows, before.bridges, p));
    let parent = rows[p].id;
    assert(rows[e].parent_id == Some(parent)) by {
        let id = rows[e].parent_id->0;
        assert(node_exists(rows, id));
        assert(rows[place_of(rows, id)].id == id);
    }
    let at = leaves_below(t, p, e, t.nodes[p].children.len())->0;
    lemma_leaves_below(rows, before.bridges, p, e, t.nodes[p].children.len());
    assert forall|i: int| 0 <= i < rows.len() implies ((#[trigger] rows[i]).id == evicted <==> i
        == e) by {
        lemma_place_of(rows, i);
    }
    lemma_leaves_are_children(rows, before.bridges, p, e, evicted, rows.len());
    assert(rows.take(rows.len() as int) =~= rows);
    assert(deactivated(rows, evicted).take(rows.len() as int) =~= deactivated(rows, evicted));
    lemma_deactivated_rows(nodes, key_id, evicted);
    assert(nodes.contains(rows[p]));
    let split = choose|k: int| 0 <= k < nodes.len() && nodes[k] == rows[p];
    assert forall|i: int| 0 <= i < idle.len() && (#[trigger] idle[i]).parent_id == Some(
        parent,
    ) implies idle[i].key_id == key_id by {
        assert(nodes[i].parent_id == Some(nodes[split].id));
    }
    lemma_children_in_key(idle, key_id, parent);
    assert forall|i: int| 0 <= i < nodes.len() && (#[trigger] nodes[i]).id
        == evicted implies nodes[i].parent_id == Some(parent) by {
        lemma_place_of(nodes, i);
        lemma_place_of(nodes, home);
    }
    assert forall|i: int, k: int|
        0 <= i < nodes.len() && 0 <= k < plan.leaf_ids.len() && (#[trigger] nodes[i]).id == (
        #[trigger] plan.leaf_ids[k]) implies {
        &&& nodes[i].hardware_key_id == Some(plan.leaf_hardware[k])
        &&& nodes[i].parent_id == Some(parent)
        &&& nodes[i].is_active
    } by {
        lemma_hardware_of_leaf(t, rows, before.bridges, at, k);
        assert(nodes.contains(rows[at[k]]));
        let r = choose|r: int| 0 <= r < nodes.len() && nodes[r] == rows[at[k]];
        lemma_place_of(nodes, i);
        lemma_place_of(nodes, r);
    }
    split
}

/// The refreshed shares of the survivors share the split's value.
proof fn lemma_survivors_share(
    nodes: Seq<NodeRowView>,
    key_id: i64,
    keys: Seq<HardwareKeyView>,
    evicted: i64,
    values: Map<i64, Seq<u8>>,
    plan: EvictionView,
    shares: Seq<Seq<u8>>,
    split: int,
)
    requires
        tree_holds(nodes, key_id, keys, values),
        0 <= split < nodes.len(),
        nodes[split].key_id == key_id,
        nodes[split].threshold == Some(plan.threshold as i64),
        nodes[split].hardware_key_id is None,
        active_children(deactivated(nodes, evicted), nodes[split].id) == plan.leaf_ids,
        plan.shares.len() == plan.leaf_ids.len(),
        refreshable(plan.shares, plan.threshold),
        refreshed(plan.shares, shares, plan.threshold),
        refreshed_in_rounds(plan.shares, shares, plan.threshold),
        forall|k: int|
            0 <= k < plan.leaf_ids.len() ==> plan.shares[k] == values[(
            #[trigger] plan.leaf_ids[k])],
    ensures
        share_the_secret(shares, values[nodes[split].id], plan.threshold),
{
    let ids = plan.leaf_ids;
    let idle = deactivated(nodes, evicted);
    let parent = nodes[split].id;
    let kids = active_children(nodes, parent);
    let family = values_at(kids, values);
    assert(node_holds(nodes, keys, values, nodes[split]));
    assert(distinct_xs(plan.shares)) by {
        let xs = plan.shares.map_values(|s: Seq<u8>| s[0]);
        assert forall|i: int, j: int| 0 <= i < j < plan.shares.len() implies (
        #[trigger] plan.shares[i])[0] != (#[trigger] plan.shares[j])[0] by {
            assert(xs[i] != xs[j]);
        }
    }
    assert forall|k: int| 0 <= k < plan.shares.len() implies family.contains(
        #[trigger] plan.shares[k],
    ) by {
        assert(plan.shares[k] == values[ids[k]]);
        lemma_children_are_rows(idle, parent, k);
        let i = choose|i: int|
            0 <= i < idle.len() && (#[trigger] idle[i]).id == ids[k] && idle[i].parent_id == Some(
                parent,
            ) && idle[i].is_active;
        assert(nodes[i].is_active);
        lemma_row_is_child(nodes, i, parent);
        let m = choose|m: int| 0 <= m < kids.len() && kids[m] == nodes[i].id;
        assert(family[m] == plan.shares[k]);
    }
    assert(family.contains(plan.shares[0]));
    lemma_refreshed_shares_share(plan.shares, shares, family, values[parent], plan.threshold);
}

/// Sealing shares anew changes sealed shares only.
proof fn lemma_same_skeleton_after_reseal(
    before: Seq<NodeRowView>,
    after: Seq<NodeRowView>,
    ids: Seq<i64>,
    sealed: Seq<Seq<u8>>,
)
    requires
        resealed(before, after, ids, sealed),
    ensures
        after.len() == before.len(),
        forall|i: int|
            #![trigger before[i]]
            #![trigger after[i]]
            0 <= i < before.len() ==> after[i] == (NodeRowView {
                wrapped_share: after[i].wrapped_share,
                ..before[i]
            }),
{
    assert forall|i: int|
        #![trigger before[i]]
        #![trigger after[i]]
        0 <= i < before.len() implies after[i] == (NodeRowView {
        wrapped_share: after[i].wrapped_share,
        ..before[i]
    }) by {
        if ids.contains(before[i].id) {
            let k = choose|k: int| 0 <= k < ids.len() && ids[k] == before[i].id;
            assert(before[i].id == ids[k]);
        }
    }
}

/// New values below one split are nobody else's children.
proof fn lemma_values_of_others(
    nodes: Seq<NodeRowView>,
    ids: Seq<i64>,
    parent: i64,
    id: i64,
    values: Map<i64, Seq<u8>>,
    shares: Seq<Seq<u8>>,
)
    requires
        id != parent,
        forall|i: int|
            0 <= i < nodes.len() && ids.contains((#[trigger] nodes[i]).id) ==> nodes[i].parent_id
                == Some(parent),
    ensures
        values_at(active_children(nodes, id), values_replaced(values, ids, shares)) == values_at(
            active_children(nodes, id),
            values,
        ),
{
    let kids = active_children(nodes, id);
    let now = values_replaced(values, ids, shares);
    assert forall|m: int| 0 <= m < kids.len() implies now[#[trigger] kids[m]]
        == values[kids[m]] by {
        lemma_children_are_rows(nodes, id, m);
    }
    assert(values_at(kids, now) =~= values_at(kids, values));
}

/// Deactivating a child of one node changes nobody else's children.
proof fn lemma_children_of_others(nodes: Seq<NodeRowView>, gone: i64, parent: i64, id: i64)
    requires
        id != parent,
        forall|i: int|
            0 <= i < nodes.len() && (#[trigger] nodes[i]).id == gone ==> nodes[i].parent_id == Some(
                parent,
            ),
    ensures
        active_children(deactivated(nodes, gone), id) == active_children(nodes, id),
    decreases nodes.len(),
{
    let changed = deactivated(nodes, gone);
    if nodes.len() > 0 {
        assert(changed.drop_last() =~= deactivated(nodes.drop_last(), gone));
        assert forall|i: int| 0 <= i < nodes.drop_last().len() && (
        #[trigger] nodes.drop_last()[i]).id == gone implies nodes.drop_last()[i].parent_id == Some(
            parent,
        ) by {
            assert(nodes.drop_last()[i] == nodes[i]);
        }
        lemma_children_of_others(nodes.drop_last(), gone, parent, id);
        assert(changed.last() == (if nodes[nodes.len() - 1].id == gone {
            NodeRowView { is_active: false, ..nodes[nodes.len() - 1] }
        } else {
            nodes[nodes.len() - 1]
        }));
    }
}

pub(crate) proof fn lemma_hardware_of_leaf(
    t: TreeShape,
    rows: Seq<NodeRowView>,
    bridges: Set<(i64, Seq<char>)>,
    at: Seq<int>,
    k: int,
)
    requires
        t == shape_of_rows(rows, bridges),
        0 <= k < at.len(),
        0 <= at[k] < rows.len(),
        rows[at[k]].hardware_key_id is Some,
    ensures
        ids_at(t, at)[k] == rows[at[k]].id,
        hardware_at(t, at)[k] == rows[at[k]].hardware_key_id->0,
{
    assert(t.nodes[at[k]] == shape_of_row(rows, bridges, at[k]));
}

/// The split below which a leaf is added.
proof fn lemma_growth_place(
    before: TreeStoreView,
    keys: Seq<HardwareKeyView>,
    key_id: i64,
    parent_label: Seq<char>,
    new_label: Seq<char>,
    new_hardware_id: i64,
    presented: Map<i64, Seq<u8>>,
) -> (split: int)
    requires
        before.wf(),
        growth(
            before,
            keys,
            key_id,
            parent_label,
            new_label,
            new_hardware_id,
            presented,
        ) is Ok,
    ensures
        ({
            let plan = growth(
                before,
                keys,
                key_id,
                parent_label,
                new_label,
                new_hardware_id,
                presented,
            )->Ok_0;
            let nodes = before.nodes;
            let raws = presented_for(plan.leaf_ids, presented, plan.leaf_ids.len());
            &&& 0 <= split < nodes.len()
            &&& nodes[split].id == plan.parent_id
            &&& nodes[split].key_id == key_id
            &&& nodes[split].threshold == Some(plan.threshold as i64)
            &&& nodes[split].hardware_key_id is None
            &&& active_children(nodes, plan.parent_id) == plan.leaf_ids
            &&& raws.len() >= plan.threshold
            &&& secret_from(plan.threshold, raws) == Ok::<Seq<u8>, Error>(plan.secret)
            &&& forall|i: int, k: int|
                0 <= i < nodes.len() && 0 <= k < plan.leaf_ids.len() && (#[trigger] nodes[i]).id
                    == (#[trigger] plan.leaf_ids[k]) ==> {
                    &&& nodes[i].hardware_key_id == Some(plan.leaf_hardware[k])
                    &&& nodes[i].parent_id == Some(plan.parent_id)
                    &&& nodes[i].is_active
                }
        }),
{
    let plan = growth(
        before,
        keys,
        key_id,
        parent_label,
        new_label,
        new_hardware_id,
        presented,
    )->Ok_0;
    let nodes = before.nodes;
    let t = loaded(before, key_id)->Ok_0;
    let rows = key_rows(nodes, key_id);
    lemma_rows_ordered(nodes, key_id);
    lemma_label_agrees(before, key_id, parent_label);
    let p = labelled_place(t, parent_label)->0;
    assert(t.nodes[p] == shape_of_row(rows, before.bridges, p));
    let parent = rows[p].id;
    let at = leaves_below(t, p, -1, t.nodes[p].children.len())->0;
    lemma_leaves_below(rows, before.bridges, p, -1, t.nodes[p].children.len());
    assert forall|i: int| 0 <= i < rows.len() implies ((#[trigger] rows[i]).id == 0 <==> i
        == -1) by {}
    lemma_leaves_are_children(rows, before.bridges, p, -1, 0, rows.len());
    assert(rows.take(rows.len() as int) =~= rows);
    assert(deactivated(rows, 0) =~= rows);
    assert(nodes.contains(rows[p]));
    let split = choose|k: int| 0 <= k < nodes.len() && nodes[k] == rows[p];
    assert forall|i: int| 0 <= i < nodes.len() && (#[trigger] nodes[i]).parent_id == Some(
        parent,
    ) implies nodes[i].key_id == key_id by {
        assert(nodes[i].parent_id == Some(nodes[split].id));
    }
    lemma_children_in_key(nodes, key_id, parent);
    assert forall|i: int, k: int|
        0 <= i < nodes.len() && 0 <= k < plan.leaf_ids.len() && (#[trigger] nodes[i]).id == (
        #[trigger] plan.leaf_ids[k]) implies {
        &&& nodes[i].hardware_key_id == Some(plan.leaf_hardware[k])
        &&& nodes[i].parent_id == Some(parent)
        &&& nodes[i].is_active
    } by {
        lemma_hardware_of_leaf(t, rows, before.bridges, at, k);
        assert(nodes.contains(rows[at[k]]));
        let r = choose|r: int| 0 <= r < nodes.len() && nodes[r] == rows[at[k]];
        lemma_place_of(nodes, i);
        lemma_place_of(nodes, r);
    }
    split
}

/// Shares presented for some ids are values at these ids.
pub(crate) proof fn lemma_presented_values(
    ids: Seq<i64>,
    presented: Map<i64, Seq<u8>>,
    values: Map<i64, Seq<u8>>,
    n: nat,
)
    requires
        n <= ids.len(),
        forall|k: int|
            0 <= k < ids.len() && presented.contains_key(#[trigger] ids[k]) ==> presented[ids[k]]
                == values[ids[k]],
    ensures
        forall|m: int|
            0 <= m < presented_for(ids, presented, n).len() ==> values_at(ids, values).contains(
                #[trigger] presented_for(ids, presented, n)[m],
            ),
    decreases n,
{
    if n > 0 {
        lemma_presented_values(ids, presented, values, (n - 1) as nat);
        let before = presented_for(ids, presented, (n - 1) as nat);
        let all = presented_for(ids, presented, n);
        assert forall|m: int| 0 <= m < all.len() implies values_at(ids, values).contains(
            #[trigger] all[m],
        ) by {
            if m < before.len() {
                assert(all[m] == before[m]);
            } else {
                assert(values_at(ids, values)[n - 1] == all[m]);
            }
        }
    }
}

/// After a leaf was added the nodes stand for values again: the leaves of the
/// split for new shares, everyone else for what they did before. The split keeps
/// its value, and so does the root.
pub proof fn adding_keeps_the_secret(
    before: TreeStoreView,
    after: TreeStoreView,
    keys: Seq<HardwareKeyView>,
    key_id: i64,
    parent_label: Seq<char>,
    new_label: Seq<char>,
    new_hardware_id: i64,
    presented: Map<i64, Seq<u8>>,
    values: Map<i64, Seq<u8>>,
    plan: GrowthView,
    shares: Seq<Seq<u8>>,
    sealed: Seq<Seq<u8>>,
)
    requires
        before.wf(),
        next_node_id(before.nodes) <= i64::MAX,
        tree_holds(before.nodes, key_id, keys, values),
        growth(
            before,
            keys,
            key_id,
            parent_label,
            new_label,
            new_hardware_id,
            presented,
        ) == Ok::<GrowthView, Error>(plan),
        values[plan.parent_id].len() > 0,
        forall|k: int|
            0 <= k < plan.leaf_ids.len() && presented.contains_key(#[trigger] plan.leaf_ids[k])
                ==> presented[plan.leaf_ids[k]] == values[plan.leaf_ids[k]],
        grown(
            before,
            after,
            keys,
            key_id,
            new_label,
            new_hardware_id,
            plan,
            shares,
            sealed,
        ),
    ensures
        tree_holds(
            after.nodes,
            key_id,
            keys,
            values_replaced(
                values,
                plan.leaf_ids.push(next_node_id(before.nodes) as i64),
                shares,
            ),
        ),
        plan.secret == values[plan.parent_id],
{
    let ids = plan.leaf_ids;
    let n = ids.len();
    let new_id = next_node_id(before.nodes) as i64;
    let all_ids = ids.push(new_id);
    let now = values_replaced(values, all_ids, shares);
    let nodes = before.nodes;
    let parent = plan.parent_id;
    lemma_growth(
        before,
        keys,
        key_id,
        parent_label,
        new_label,
        new_hardware_id,
        presented,
    );
    let split = lemma_growth_place(
        before,
        keys,
        key_id,
        parent_label,
        new_label,
        new_hardware_id,
        presented,
    );
    let raws = presented_for(ids, presented, n);
    assert(node_holds(nodes, keys, values, nodes[split]));
    lemma_presented_values(ids, presented, values, n);
    assert(quorum_of(raws, values_at(ids, values), plan.threshold)) by {
        let xs = raws.map_values(|s: Seq<u8>| s[0]);
        assert forall|i: int, j: int| 0 <= i < j < raws.len() implies (#[trigger] raws[i])[0] != (
        #[trigger] raws[j])[0] by {
            assert(xs[i] != xs[j]);
        }
    }
    assert(plan.secret == values[parent]);
    let middle = after.nodes.drop_last();
    assert(after.nodes =~= middle + seq![after.nodes.last()]);
    lemma_same_skeleton_after_reseal(nodes, middle, ids, sealed.take(n as int));
    assert forall|i: int| 0 <= i < nodes.len() implies (#[trigger] nodes[i]).id < new_id by {
        if i < nodes.len() - 1 {
            assert(nodes[i].id < nodes[nodes.len() - 1].id);
        }
    }
    assert(!ids.contains(new_id)) by {
        if ids.contains(new_id) {
            let k = choose|k: int| 0 <= k < ids.len() && ids[k] == new_id;
            lemma_children_are_rows(nodes, parent, k);
        }
    }
    lemma_push_no_duplicates(ids, new_id);
    assert forall|i: int| 0 <= i < nodes.len() && all_ids.contains(
        (#[trigger] nodes[i]).id,
    ) implies nodes[i].parent_id == Some(parent) && nodes[i].hardware_key_id is Some by {
        let k = choose|k: int| 0 <= k < all_ids.len() && all_ids[k] == nodes[i].id;
        assert(k < n);
        assert(nodes[i].id == ids[k]);
    }
    assert forall|i: int| 0 <= i < after.nodes.len() && (#[trigger] after.nodes[i]).key_id
        == key_id implies node_holds(after.nodes, keys, now, after.nodes[i]) by {
        let id = after.nodes[i].id;
        let one = seq![after.nodes.last()];
        if i < nodes.len() {
            assert(middle[i] == after.nodes[i]);
            assert(nodes[i].id == id);
            assert(node_holds(nodes, keys, values, nodes[i]));
            if nodes[i].hardware_key_id is Some {
                if all_ids.contains(id) {
                    let k = choose|k: int| 0 <= k < all_ids.len() && all_ids[k] == id;
                    lemma_index_of(all_ids, k);
                    assert(nodes[i].id == ids[k]);
                    assert(middle[i].wrapped_share == Some(sealed.take(n as int)[k]));
                    lemma_hardware_sound(keys, plan.leaf_hardware, plan.leaf_hardware.len(), k);
                    assert(opens_to(
                        sealed[k],
                        (key_with_id(keys, plan.leaf_hardware[k])->Ok_0).public_key,
                        shares[k],
                    ));
                } else {
                    assert(!ids.contains(id)) by {
                        if ids.contains(id) {
                            let k = choose|k: int| 0 <= k < ids.len() && ids[k] == id;
                            assert(all_ids[k] == id);
                        }
                    }
                    assert(middle[i] == nodes[i]);
                }
            } else if nodes[i].threshold is Some {
                lemma_children_append(middle, one, id);
                lemma_same_children(nodes, middle, id);
                reveal_with_fuel(active_children, 2);
                assert(one.drop_last() =~= Seq::<NodeRowView>::empty());
                if id == parent {
                    assert(active_children(one, id) =~= seq![new_id]);
                    assert(active_children(after.nodes, id) =~= all_ids);
                    assert(values_at(all_ids, now) =~= shares) by {
                        assert forall|k: int| 0 <= k < all_ids.len() implies now[
                            #[trigger] all_ids[k]
                        ] == shares[k] by {
                            lemma_index_of(all_ids, k);
                        }
                    }
                    lemma_place_of(nodes, i);
                    lemma_place_of(nodes, split);
                    assert(!all_ids.contains(parent));
                } else {
                    assert(active_children(one, id) =~= Seq::<i64>::empty());
                    assert(active_children(after.nodes, id) =~= active_children(nodes, id));
                    lemma_values_of_others(nodes, all_ids, parent, id, values, shares);
                    assert(!all_ids.contains(id));
                }
            }
        } else {
            lemma_index_of(all_ids, n as int);
            assert(after.nodes[i] == after.nodes.last());
        }
    }
}

/// Eviction takes nothing from pairings and permissions that do not mention the
/// evicted leaf.
pub proof fn evicting_keeps_other_bindings(
    before: TreeStoreView,
    after: TreeStoreView,
    keys: Seq<HardwareKeyView>,
    key_id: i64,
    evicted: i64,
    plan: EvictionView,
    shares: Seq<Seq<u8>>,
    sealed: Seq<Seq<u8>>,
)
    requires
        evicted_from(before, after, keys, key_id, evicted, plan, shares, sealed),
    ensures
        forall|p: (i64, i64)| #[trigger]
            after.links.contains(p) <==> before.links.contains(p) && p.0 != evicted && p.1
                != evicted,
        forall|p: (i64, Seq<char>)|
            before.bridges.contains(p) && p.0 != evicted && p.1 != before.nodes[place_of(
                before.nodes,
                evicted,
            )].label ==> #[trigger] after.bridges.contains(p),
        forall|p: (i64, Seq<char>)| #[trigger] after.bridges.contains(p) ==> p.0 != evicted,
{
}

/// Evicting a leaf leaves a whole tree whole.
pub proof fn evicting_keeps_the_tree_whole(
    before: TreeStoreView,
    after: TreeStoreView,
    keys: Seq<HardwareKeyView>,
    key_id: i64,
    evicted: i64,
    presented: Map<i64, Seq<u8>>,
    shares: Seq<Seq<u8>>,
    sealed: Seq<Seq<u8>>,
)
    requires
        before.wf(),
        whole(before.nodes, key_id),
        eviction(before, keys, key_id, evicted, presented) is Ok,
        evicted_from(
            before,
            after,
            keys,
            key_id,
            evicted,
            eviction(before, keys, key_id, evicted, presented)->Ok_0,
            shares,
            sealed,
        ),
    ensures
        whole(after.nodes, key_id),
{
    let plan = eviction(before, keys, key_id, evicted, presented)->Ok_0;
    let nodes = before.nodes;
    let idle = deactivated(nodes, evicted);
    let rows = key_rows(nodes, key_id);
    let t = loaded(before, key_id)->Ok_0;
    lemma_rows_ordered(nodes, key_id);
    lemma_same_skeleton_after_reseal(idle, after.nodes, plan.leaf_ids, sealed);
    let home = choose|k: int|
        0 <= k < nodes.len() && (#[trigger] nodes[k]).id == evicted && nodes[k].key_id == key_id;
    assert(rows.contains(nodes[home]));
    let e = choose|e: int| 0 <= e < rows.len() && rows[e] == nodes[home];
    lemma_place_of(rows, e);
    assert(t.nodes[e] == shape_of_row(rows, before.bridges, e));
    assert forall|i: int|
        0 <= i < after.nodes.len() && (#[trigger] after.nodes[i]).key_id == key_id
            && after.nodes[i].hardware_key_id is None implies after.nodes[i].is_active
        && after.nodes[i].threshold is Some by {
        assert(after.nodes[i].id == idle[i].id);
        if nodes[i].id == evicted {
            lemma_place_of(nodes, i);
            lemma_place_of(nodes, home);
        }
    }
    assert forall|i: int, j: int|
        0 <= i < j < after.nodes.len() && (#[trigger] after.nodes[i]).key_id == key_id && (
        #[trigger] after.nodes[j]).key_id == key_id implies after.nodes[i].parent_id is Some
        || after.nodes[j].parent_id is Some by {
        assert(after.nodes[i].id == idle[i].id && after.nodes[j].id == idle[j].id);
        assert(nodes[i].key_id == key_id && nodes[j].key_id == key_id);
    }
}

/// Adding a leaf leaves a whole tree whole.
pub proof fn adding_keeps_the_tree_whole(
    before: TreeStoreView,
    after: TreeStoreView,
    keys: Seq<HardwareKeyView>,
    key_id: i64,
    new_label: Seq<char>,
    new_hardware_id: i64,
    plan: GrowthView,
    shares: Seq<Seq<u8>>,
    sealed: Seq<Seq<u8>>,
)
    requires
        whole(before.nodes, key_id),
        grown(before, after, keys, key_id, new_label, new_hardware_id, plan, shares, sealed),
    ensures
        whole(after.nodes, key_id),
{
    let n = plan.leaf_ids.len();
    let nodes = before.nodes;
    let middle = after.nodes.drop_last();
    lemma_same_skeleton_after_reseal(nodes, middle, plan.leaf_ids, sealed.take(n as int));
    assert forall|i: int| 0 <= i < nodes.len() implies (#[trigger] after.nodes[i]) == (NodeRowView {
        wrapped_share: after.nodes[i].wrapped_share,
        ..nodes[i]
    }) by {
        assert(middle[i] == after.nodes[i]);
    }
    let last = after.nodes[after.nodes.len() - 1];
    assert(last.parent_id is Some && last.hardware_key_id is Some);
    assert forall|i: int, j: int|
        0 <= i < j < after.nodes.len() && (#[trigger] after.nodes[i]).key_id == key_id && (
        #[trigger] after.nodes[j]).key_id == key_id implies after.nodes[i].parent_id is Some
        || after.nodes[j].parent_id is Some by {
        if j < nodes.len() {
            assert(nodes[i].key_id == key_id && nodes[j].key_id == key_id);
        }
    }
    assert forall|i: int|
        0 <= i < after.nodes.len() && (#[trigger] after.nodes[i]).key_id == key_id
            && after.nodes[i].hardware_key_id is None implies after.nodes[i].is_active
        && after.nodes[i].threshold is Some by {
        if i < nodes.len() {
            assert(nodes[i].key_id == key_id);
        }
    }
}

/// Sealing a leaf to another key leaves a whole tree whole.
pub proof fn rebinding_keeps_the_tree_whole(
    before: TreeStoreView,
    after: TreeStoreView,
    key_id: i64,
    id: i64,
    new_hardware_id: i64,
    sealed: Seq<u8>,
)
    requires
        whole(before.nodes, key_id),
        rebound(before, after, id, new_hardware_id, sealed),
    ensures
        whole(after.nodes, key_id),
{
    let nodes = before.nodes;
    assert forall|i: int, j: int|
        0 <= i < j < after.nodes.len() && (#[trigger] after.nodes[i]).key_id == key_id && (
        #[trigger] after.nodes[j]).key_id == key_id implies after.nodes[i].parent_id is Some
        || after.nodes[j].parent_id is Some by {
        assert(nodes[i].key_id == key_id && nodes[j].key_id == key_id);
    }
    assert forall|i: int|
        0 <= i < after.nodes.len() && (#[trigger] after.nodes[i]).key_id == key_id
            && after.nodes[i].hardware_key_id is None implies after.nodes[i].is_active
        && after.nodes[i].threshold is Some by {
        assert(nodes[i].key_id == key_id);
    }
}

} // verus!
