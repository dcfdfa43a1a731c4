//! What splitting, refreshing and reconstructing promise together.

use vstd::prelude::*;

use crate::error::Error;
use crate::keys::HardwareKeyView;
use crate::key_tree::holding::{active_children, node_holds, share_the_secret, tree_holds, values_at};
use crate::key_tree::reconstruct::{climbed, climbed_from, combined, gathered, gathered_beside,
    lineage, reconstructed, resolved};
use crate::key_tree::store::{node_exists, nodes_ordered,
    parents_are_splits, NodeRowView, TreeStoreView};
use crate::key_tree::tree::{child_places, key_rows, labels_repeat, lemma_child_places,
    lemma_rows_ordered, lemma_shape_wf, loaded, parent_missing, shape_of_row, shape_of_rows,
    TreeShape};
use crate::seqs::lemma_push_no_duplicates;
use crate::shamir::{distinct_xs, quorum_of, recoverable};

verus! {

/// The presented leaves meet a node's quorum: the leaf itself is presented, or
/// enough active children of the split have their quorum met.
pub open spec fn quorum_met(t: TreeShape, i: int, present: Set<i64>) -> bool
    decreases t.nodes.len() - i, t.nodes[i].children.len() + 1,
    when t.wf() && 0 <= i < t.nodes.len()
{
    &&& t.nodes[i].is_active
    &&& if t.nodes[i].hardware_key_id is Some {
        present.contains(t.nodes[i].db_id)
    } else {
        match t.nodes[i].threshold {
            None => false,
            Some(threshold) => children_met(t, i, present, t.nodes[i].children.len()) >= threshold,
        }
    }
}

/// How many of the first `n` children have their quorum met.
pub open spec fn children_met(t: TreeShape, i: int, present: Set<i64>, n: nat) -> int
    decreases t.nodes.len() - i, n,
    when t.wf() && 0 <= i < t.nodes.len() && n <= t.nodes[i].children.len()
{
    if n == 0 {
        0
    } else {
        children_met(t, i, present, (n - 1) as nat) + if quorum_met(
            t,
            t.nodes[i].children[n - 1],
            present,
        ) {
            1int
        } else {
            0int
        }
    }
}

/// A stored tree that can be loaded, the values that its nodes stand for, and
/// shares that were presented for some of its leaves and are theirs.
pub open spec fn presented_truly(
    nodes: Seq<NodeRowView>,
    key_id: i64,
    keys: Seq<HardwareKeyView>,
    values: Map<i64, Seq<u8>>,
    shares: Map<i64, Seq<u8>>,
) -> bool {
    let rows = key_rows(nodes, key_id);
    &&& nodes_ordered(nodes)
    &&& parents_are_splits(nodes)
    &&& rows.len() > 0
    &&& !labels_repeat(rows)
    &&& !parent_missing(rows)
    &&& tree_holds(nodes, key_id, keys, values)
    &&& values[rows[0].id].len() > 0
    &&& forall|id: i64| #[trigger] shares.contains_key(id) ==> shares[id] == values[id]
}

/// The places of the children whose values are gathered.
spec fn picked(t: TreeShape, i: int, limit: int, present: Set<i64>, n: nat) -> Seq<int>
    decreases n,
{
    if n == 0 {
        Seq::empty()
    } else {
        let before = picked(t, i, limit, present, (n - 1) as nat);
        let child = t.nodes[i].children[n - 1];
        if before.len() < limit && quorum_met(t, child, present) {
            before.push(child)
        } else {
            before
        }
    }
}

spec fn values_of_places(rows: Seq<NodeRowView>, at: Seq<int>, values: Map<i64, Seq<u8>>) -> Seq<
    Seq<u8>,
> {
    Seq::new(at.len(), |k: int| values[rows[at[k]].id])
}

proof fn lemma_picked(t: TreeShape, i: int, limit: int, present: Set<i64>, n: nat)
    requires
        t.wf(),
        0 <= i < t.nodes.len(),
        n <= t.nodes[i].children.len(),
        limit >= 0,
    ensures
        picked(t, i, limit, present, n).len() == if children_met(t, i, present, n) < limit {
            children_met(t, i, present, n)
        } else {
            limit
        },
        children_met(t, i, present, n) >= 0,
        forall|k: int|
            0 <= k < picked(t, i, limit, present, n).len() ==> exists|m: int|
                0 <= m < n && t.nodes[i].children[m] == #[trigger] picked(t, i, limit, present, n)[k],
    decreases n,
{
    if n > 0 {
        lemma_picked(t, i, limit, present, (n - 1) as nat);
        let before = picked(t, i, limit, present, (n - 1) as nat);
        let all = picked(t, i, limit, present, n);
        assert forall|k: int| 0 <= k < all.len() implies exists|m: int|
            0 <= m < n && t.nodes[i].children[m] == #[trigger] all[k] by {
            if k < before.len() {
                assert(all[k] == before[k]);
                let m = choose|m: int| 0 <= m < n - 1 && t.nodes[i].children[m] == before[k];
                assert(t.nodes[i].children[m] == all[k]);
            } else {
                assert(t.nodes[i].children[n - 1] == all[k]);
            }
        }
    }
}

/// An active row is among the active children of its parent.
pub(crate) proof fn lemma_row_is_child(nodes: Seq<NodeRowView>, i: int, id: i64)
    requires
        0 <= i < nodes.len(),
        nodes[i].parent_id == Some(id),
        nodes[i].is_active,
    ensures
        active_children(nodes, id).contains(nodes[i].id),
    decreases nodes.len(),
{
    let front = nodes.drop_last();
    let before = active_children(front, id);
    let all = active_children(nodes, id);
    if i < front.len() {
        assert(front[i] == nodes[i]);
        lemma_row_is_child(front, i, id);
        let k = choose|k: int| 0 <= k < before.len() && before[k] == nodes[i].id;
        assert(all[k] == nodes[i].id);
    } else {
        assert(all[all.len() - 1] == nodes[i].id);
    }
}

/// A row of a secret is a row of the store.
pub(crate) proof fn lemma_row_in_store(nodes: Seq<NodeRowView>, key_id: i64, c: int) -> (i: int)
    requires
        nodes_ordered(nodes),
        0 <= c < key_rows(nodes, key_id).len(),
    ensures
        0 <= i < nodes.len(),
        nodes[i] == key_rows(nodes, key_id)[c],
        nodes[i].key_id == key_id,
{
    lemma_rows_ordered(nodes, key_id);
    let rows = key_rows(nodes, key_id);
    assert(nodes.contains(rows[c]));
    choose|i: int| 0 <= i < nodes.len() && nodes[i] == rows[c]
}

/// Values at different active places below one split are different shares of
/// its value.
proof fn lemma_places_share(
    nodes: Seq<NodeRowView>,
    bridges: Set<(i64, Seq<char>)>,
    key_id: i64,
    keys: Seq<HardwareKeyView>,
    values: Map<i64, Seq<u8>>,
    i: int,
    threshold: i64,
    at: Seq<int>,
)
    requires
        nodes_ordered(nodes),
        !parent_missing(key_rows(nodes, key_id)),
        tree_holds(nodes, key_id, keys, values),
        0 <= i < key_rows(nodes, key_id).len(),
        key_rows(nodes, key_id)[i].hardware_key_id is None,
        key_rows(nodes, key_id)[i].threshold == Some(threshold),
        values[key_rows(nodes, key_id)[i].id].len() > 0,
        at.no_duplicates(),
        at.len() > 0,
        at.len() >= threshold,
        forall|k: int|
            0 <= k < at.len() ==> 0 <= #[trigger] at[k] < key_rows(nodes, key_id).len() && key_rows(
                nodes,
                key_id,
            )[at[k]].is_active && key_rows(nodes, key_id)[at[k]].parent_id == Some(
                key_rows(nodes, key_id)[i].id,
            ),
    ensures
        combined(threshold as int, values_of_places(key_rows(nodes, key_id), at, values)) == Ok::<
            Seq<u8>,
            Error,
        >(values[key_rows(nodes, key_id)[i].id]),
{
    let rows = key_rows(nodes, key_id);
    lemma_rows_ordered(nodes, key_id);
    let id = rows[i].id;
    let value = values[id];
    let kids = active_children(nodes, id);
    let kid_values = values_at(kids, values);
    let chosen = values_of_places(rows, at, values);
    let home = lemma_row_in_store(nodes, key_id, i);
    assert(node_holds(nodes, keys, values, nodes[home]));
    assert(rows[i].threshold == Some(threshold) && 1 <= threshold <= 255);
    assert(share_the_secret(kid_values, value, threshold as u8));
    assert forall|k: int| 0 <= k < at.len() implies exists|m: int|
        0 <= m < kids.len() && kids[m] == rows[#[trigger] at[k]].id by {
        let row = lemma_row_in_store(nodes, key_id, at[k]);
        lemma_row_is_child(nodes, row, id);
    }
    assert forall|k: int| 0 <= k < chosen.len() implies kid_values.contains(#[trigger] chosen[k])
        && chosen[k].len() == value.len() + 1 by {
        let m = choose|m: int| 0 <= m < kids.len() && kids[m] == rows[at[k]].id;
        assert(kid_values[m] == chosen[k]);
    }
    assert forall|x: int, y: int| 0 <= x < y < chosen.len() implies (#[trigger] chosen[x])[0] != (
    #[trigger] chosen[y])[0] by {
        let m = choose|m: int| 0 <= m < kids.len() && kids[m] == rows[at[x]].id;
        let n = choose|n: int| 0 <= n < kids.len() && kids[n] == rows[at[y]].id;
        assert(at[x] != at[y]);
        assert(rows[at[x]].id != rows[at[y]].id) by {
            if at[x] < at[y] {
                assert(rows[at[x]].id < rows[at[y]].id);
            } else {
                assert(rows[at[y]].id < rows[at[x]].id);
            }
        }
        assert(m != n);
        assert(kid_values[m] == chosen[x]);
        assert(kid_values[n] == chosen[y]);
        if m < n {
            assert(kid_values[m][0] != kid_values[n][0]);
        } else {
            assert(kid_values[n][0] != kid_values[m][0]);
        }
    }
    assert(quorum_of(chosen, kid_values, threshold as u8));
    lemma_distinct_shares_recoverable(chosen, threshold as u8, (value.len() + 1) as nat);
}

pub(crate) proof fn lemma_distinct_shares_recoverable(shares: Seq<Seq<u8>>, threshold: u8, len: nat)
    requires
        shares.len() > 0,
        shares.len() >= threshold,
        distinct_xs(shares),
        forall|k: int| 0 <= k < shares.len() ==> (#[trigger] shares[k]).len() == len,
    ensures
        recoverable(threshold, shares),
{
    let xs = shares.map_values(|s: Seq<u8>| s[0]);
    assert(xs.no_duplicates()) by {
        assert forall|i: int, j: int|
            0 <= i < xs.len() && 0 <= j < xs.len() && i != j implies xs[i] != xs[j] by {
            if i < j {
                assert(shares[i][0] != shares[j][0]);
            } else {
                assert(shares[j][0] != shares[i][0]);
            }
        }
    }
    xs.unique_seq_to_set();
}

/// A node resolves to its value exactly where its quorum is met.
pub proof fn resolved_iff_quorum_met(
    nodes: Seq<NodeRowView>,
    bridges: Set<(i64, Seq<char>)>,
    key_id: i64,
    keys: Seq<HardwareKeyView>,
    values: Map<i64, Seq<u8>>,
    shares: Map<i64, Seq<u8>>,
    i: int,
)
    requires
        presented_truly(nodes, key_id, keys, values, shares),
        0 <= i < key_rows(nodes, key_id).len(),
        values[key_rows(nodes, key_id)[i].id].len() > 0,
    ensures
        resolved(shape_of_rows(key_rows(nodes, key_id), bridges), i, shares) == if quorum_met(
            shape_of_rows(key_rows(nodes, key_id), bridges),
            i,
            shares.dom(),
        ) {
            Ok::<Seq<u8>, Error>(values[key_rows(nodes, key_id)[i].id])
        } else {
            Err(Error::QuorumNotMet)
        },
    decreases key_rows(nodes, key_id).len() - i, child_places(
        key_rows(nodes, key_id),
        key_rows(nodes, key_id)[i].id,
    ).len() + 1,
{
    let rows = key_rows(nodes, key_id);
    let t = shape_of_rows(rows, bridges);
    lemma_rows_ordered(nodes, key_id);
    lemma_shape_wf(rows, bridges);
    assert(t.nodes[i] == shape_of_row(rows, bridges, i));
    if rows[i].is_active && rows[i].hardware_key_id is None && rows[i].threshold is Some {
        let threshold = rows[i].threshold->0;
        let n = t.nodes[i].children.len();
        lemma_gathered(nodes, bridges, key_id, keys, values, shares, i, threshold, n);
        let at = picked(t, i, threshold as int, shares.dom(), n);
        lemma_picked(t, i, threshold as int, shares.dom(), n);
        if at.len() >= threshold {
            lemma_places_share(nodes, bridges, key_id, keys, values, i, threshold, at);
        }
    }
}

/// What is gathered below a split are the values of the picked children.
proof fn lemma_gathered(
    nodes: Seq<NodeRowView>,
    bridges: Set<(i64, Seq<char>)>,
    key_id: i64,
    keys: Seq<HardwareKeyView>,
    values: Map<i64, Seq<u8>>,
    shares: Map<i64, Seq<u8>>,
    i: int,
    threshold: i64,
    n: nat,
)
    requires
        presented_truly(nodes, key_id, keys, values, shares),
        0 <= i < key_rows(nodes, key_id).len(),
        values[key_rows(nodes, key_id)[i].id].len() > 0,
        key_rows(nodes, key_id)[i].hardware_key_id is None,
        key_rows(nodes, key_id)[i].threshold == Some(threshold),
        n <= child_places(key_rows(nodes, key_id), key_rows(nodes, key_id)[i].id).len(),
    ensures
        ({
            let rows = key_rows(nodes, key_id);
            let t = shape_of_rows(rows, bridges);
            let at = picked(t, i, threshold as int, shares.dom(), n);
            &&& gathered(t, i, threshold as int, shares, n) == values_of_places(rows, at, values)
            &&& at.no_duplicates()
            &&& forall|k: int|
                0 <= k < at.len() ==> 0 <= #[trigger] at[k] < rows.len() && rows[at[k]].is_active
                    && rows[at[k]].parent_id == Some(rows[i].id)
            &&& forall|k: int|
                0 <= k < at.len() ==> exists|m: int|
                    0 <= m < n && t.nodes[i].children[m] == #[trigger] at[k]
        }),
    decreases key_rows(nodes, key_id).len() - i, n,
{
    let rows = key_rows(nodes, key_id);
    let t = shape_of_rows(rows, bridges);
    lemma_rows_ordered(nodes, key_id);
    lemma_shape_wf(rows, bridges);
    assert(t.nodes[i] == shape_of_row(rows, bridges, i));
    let limit = threshold as int;
    if n == 0 {
        assert(gathered(t, i, limit, shares, 0) =~= values_of_places(
            rows,
            picked(t, i, limit, shares.dom(), 0),
            values,
        ));
    } else {
        let m = (n - 1) as nat;
        lemma_gathered(nodes, bridges, key_id, keys, values, shares, i, threshold, m);
        lemma_child_places(rows, rows[i].id);
        let child = t.nodes[i].children[m as int];
        assert(child == child_places(rows, rows[i].id)[m as int]);
        let before = picked(t, i, limit, shares.dom(), m);
        let all = picked(t, i, limit, shares.dom(), n);
        lemma_child_value_len(nodes, key_id, keys, values, i, threshold, child);
        if rows[child].is_active {
            resolved_iff_quorum_met(nodes, bridges, key_id, keys, values, shares, child);
        }
        assert(t.nodes[child] == shape_of_row(rows, bridges, child));
        if before.len() < limit && quorum_met(t, child, shares.dom()) {
            assert(values_of_places(rows, all, values) =~= values_of_places(
                rows,
                before,
                values,
            ).push(values[rows[child].id]));
            assert(!before.contains(child)) by {
                if before.contains(child) {
                    let k = choose|k: int| 0 <= k < before.len() && before[k] == child;
                    let q = choose|q: int| 0 <= q < m && t.nodes[i].children[q] == before[k];
                    assert(child_places(rows, rows[i].id)[q] < child_places(
                        rows,
                        rows[i].id,
                    )[m as int]);
                }
            }
            lemma_push_no_duplicates(before, child);
            assert forall|k: int| 0 <= k < all.len() implies 0 <= #[trigger] all[k] < rows.len()
                && rows[all[k]].is_active && rows[all[k]].parent_id == Some(rows[i].id) by {
                if k < before.len() {
                    assert(all[k] == before[k]);
                }
            }
        } else {
            assert(all == before);
        }
        lemma_picked(t, i, limit, shares.dom(), n);
    }
}

/// A value below a split is one byte longer than the split's.
proof fn lemma_child_value_len(
    nodes: Seq<NodeRowView>,
    key_id: i64,
    keys: Seq<HardwareKeyView>,
    values: Map<i64, Seq<u8>>,
    i: int,
    threshold: i64,
    child: int,
)
    requires
        nodes_ordered(nodes),
        tree_holds(nodes, key_id, keys, values),
        0 <= i < key_rows(nodes, key_id).len(),
        0 <= child < key_rows(nodes, key_id).len(),
        key_rows(nodes, key_id)[i].hardware_key_id is None,
        key_rows(nodes, key_id)[i].threshold == Some(threshold),
        key_rows(nodes, key_id)[child].parent_id == Some(key_rows(nodes, key_id)[i].id),
    ensures
        key_rows(nodes, key_id)[child].is_active ==> values[key_rows(nodes, key_id)[child].id].len()
            == values[key_rows(nodes, key_id)[i].id].len() + 1,
{
    let rows = key_rows(nodes, key_id);
    if rows[child].is_active {
        let home = lemma_row_in_store(nodes, key_id, i);
        let row = lemma_row_in_store(nodes, key_id, child);
        lemma_row_is_child(nodes, row, rows[i].id);
        let kids = active_children(nodes, rows[i].id);
        let k = choose|k: int| 0 <= k < kids.len() && kids[k] == rows[child].id;
        assert(node_holds(nodes, keys, values, nodes[home]));
        assert(values_at(kids, values)[k] == values[rows[child].id]);
    }
}

/// Reconstruction gives the secret where the presented leaves meet the quorum
/// of the root, and nothing where they do not.
pub proof fn reconstruction_needs_exactly_a_quorum(
    store: TreeStoreView,
    key_id: i64,
    keys: Seq<HardwareKeyView>,
    values: Map<i64, Seq<u8>>,
    shares: Map<i64, Seq<u8>>,
)
    requires
        presented_truly(store.nodes, key_id, keys, values, shares),
    ensures
        loaded(store, key_id) matches Ok(t) && reconstructed(store, key_id, shares)
            == if quorum_met(t, t.root, shares.dom()) {
            Ok::<Seq<u8>, Error>(values[key_rows(store.nodes, key_id)[0].id])
        } else {
            Err(Error::QuorumNotMet)
        },
{
    resolved_iff_quorum_met(store.nodes, store.bridges, key_id, keys, values, shares, 0);
}

proof fn lemma_inactive_not_gathered(
    t: TreeShape,
    i: int,
    limit: int,
    shares: Map<i64, Seq<u8>>,
    id: i64,
    share: Seq<u8>,
    n: nat,
)
    requires
        t.wf(),
        0 <= i < t.nodes.len(),
        n <= t.nodes[i].children.len(),
        forall|k: int|
            0 <= k < t.nodes.len() && (#[trigger] t.nodes[k]).db_id == id ==> !t.nodes[k].is_active,
    ensures
        gathered(t, i, limit, shares.insert(id, share), n) == gathered(t, i, limit, shares, n),
    decreases t.nodes.len() - i, n,
{
    if n > 0 {
        let child = t.nodes[i].children[n - 1];
        lemma_inactive_not_gathered(t, i, limit, shares, id, share, (n - 1) as nat);
        inactive_leaf_counts_for_nothing(t, child, shares, id, share);
    }
}

/// What is presented for a leaf that is no longer active counts for nothing: no
/// node resolves to anything else with it than without.
pub proof fn inactive_leaf_counts_for_nothing(
    t: TreeShape,
    i: int,
    shares: Map<i64, Seq<u8>>,
    id: i64,
    share: Seq<u8>,
)
    requires
        t.wf(),
        forall|k: int|
            0 <= k < t.nodes.len() && (#[trigger] t.nodes[k]).db_id == id ==> !t.nodes[k].is_active,
    ensures
        resolved(t, i, shares.insert(id, share)) == resolved(t, i, shares),
    decreases t.nodes.len() - i, t.nodes[i].children.len() + 1,
{
    if 0 <= i < t.nodes.len() && t.nodes[i].is_active && t.nodes[i].hardware_key_id is None {
        if let Some(threshold) = t.nodes[i].threshold {
            lemma_inactive_not_gathered(
                t,
                i,
                threshold,
                shares,
                id,
                share,
                t.nodes[i].children.len(),
            );
        }
    }
}

/// The child that brings its value, then the siblings that are gathered.
spec fn picked_beside(t: TreeShape, p: int, from: int, limit: int, present: Set<i64>, n: nat) -> Seq<int>
    decreases n,
{
    if n == 0 {
        seq![from]
    } else {
        let before = picked_beside(t, p, from, limit, present, (n - 1) as nat);
        let child = t.nodes[p].children[n - 1];
        if before.len() < limit && child != from && quorum_met(t, child, present) {
            before.push(child)
        } else {
            before
        }
    }
}

/// How many of the first `n` children other than `from` have their quorum met.
spec fn others_met(t: TreeShape, p: int, from: int, present: Set<i64>, n: nat) -> int
    decreases n,
{
    if n == 0 {
        0
    } else {
        others_met(t, p, from, present, (n - 1) as nat) + if t.nodes[p].children[n - 1] != from
            && quorum_met(t, t.nodes[p].children[n - 1], present) {
            1int
        } else {
            0int
        }
    }
}

proof fn lemma_others_met(t: TreeShape, p: int, from: int, present: Set<i64>, n: nat)
    requires
        t.wf(),
        0 <= p < t.nodes.len(),
        n <= t.nodes[p].children.len(),
        quorum_met(t, from, present),
        forall|k: int, m: int|
            0 <= k < m < t.nodes[p].children.len() ==> (#[trigger] t.nodes[p].children[k]) < (
            #[trigger] t.nodes[p].children[m]),
    ensures
        others_met(t, p, from, present, n) >= 0,
        children_met(t, p, present, n) == others_met(t, p, from, present, n) + if exists|m: int|
            0 <= m < n && t.nodes[p].children[m] == from {
            1int
        } else {
            0int
        },
    decreases n,
{
    if n > 0 {
        lemma_others_met(t, p, from, present, (n - 1) as nat);
        let last = t.nodes[p].children[n - 1];
        if last == from {
            assert(!exists|m: int| 0 <= m < n - 1 && t.nodes[p].children[m] == from);
            assert(t.nodes[p].children[n - 1] == from);
        } else if exists|m: int| 0 <= m < n && t.nodes[p].children[m] == from {
            let m = choose|m: int| 0 <= m < n && t.nodes[p].children[m] == from;
            assert(0 <= m < n - 1);
        }
    }
}

proof fn lemma_gathered_beside(
    nodes: Seq<NodeRowView>,
    bridges: Set<(i64, Seq<char>)>,
    key_id: i64,
    keys: Seq<HardwareKeyView>,
    values: Map<i64, Seq<u8>>,
    shares: Map<i64, Seq<u8>>,
    p: int,
    from: int,
    threshold: i64,
    n: nat,
)
    requires
        presented_truly(nodes, key_id, keys, values, shares),
        0 <= p < key_rows(nodes, key_id).len(),
        values[key_rows(nodes, key_id)[p].id].len() > 0,
        key_rows(nodes, key_id)[p].hardware_key_id is None,
        key_rows(nodes, key_id)[p].threshold == Some(threshold),
        n <= child_places(key_rows(nodes, key_id), key_rows(nodes, key_id)[p].id).len(),
        0 <= from < key_rows(nodes, key_id).len(),
        key_rows(nodes, key_id)[from].parent_id == Some(key_rows(nodes, key_id)[p].id),
        key_rows(nodes, key_id)[from].is_active,
    ensures
        ({
            let rows = key_rows(nodes, key_id);
            let t = shape_of_rows(rows, bridges);
            let at = picked_beside(t, p, from, threshold as int, shares.dom(), n);
            let others = others_met(t, p, from, shares.dom(), n);
            &&& gathered_beside(
                t,
                p,
                from,
                values[rows[from].id],
                threshold as int,
                shares,
                n,
            ) == values_of_places(rows, at, values)
            &&& others >= 0
            &&& at.len() == if 1 + others < threshold {
                1 + others
            } else {
                threshold as int
            }
            &&& at.no_duplicates()
            &&& forall|k: int|
                0 <= k < at.len() ==> 0 <= #[trigger] at[k] < rows.len() && rows[at[k]].is_active
                    && rows[at[k]].parent_id == Some(rows[p].id)
            &&& forall|k: int|
                0 <= k < at.len() ==> #[trigger] at[k] == from || exists|m: int|
                    0 <= m < n && t.nodes[p].children[m] == at[k]
        }),
    decreases n,
{
    let rows = key_rows(nodes, key_id);
    let t = shape_of_rows(rows, bridges);
    lemma_rows_ordered(nodes, key_id);
    lemma_shape_wf(rows, bridges);
    assert(t.nodes[p] == shape_of_row(rows, bridges, p));
    lemma_child_value_len(nodes, key_id, keys, values, p, threshold, from);
    assert(1 <= threshold <= 255) by {
        let home = lemma_row_in_store(nodes, key_id, p);
    }
    let limit = threshold as int;
    if n == 0 {
        assert(gathered_beside(t, p, from, values[rows[from].id], limit, shares, 0)
            =~= values_of_places(
            rows,
            picked_beside(t, p, from, limit, shares.dom(), 0),
            values,
        ));
    } else {
        let m = (n - 1) as nat;
        lemma_gathered_beside(
            nodes,
            bridges,
            key_id,
            keys,
            values,
            shares,
            p,
            from,
            threshold,
            m,
        );
        lemma_child_places(rows, rows[p].id);
        let child = t.nodes[p].children[m as int];
        assert(child == child_places(rows, rows[p].id)[m as int]);
        let before = picked_beside(t, p, from, limit, shares.dom(), m);
        let all = picked_beside(t, p, from, limit, shares.dom(), n);
        lemma_child_value_len(nodes, key_id, keys, values, p, threshold, child);
        if rows[child].is_active {
            resolved_iff_quorum_met(nodes, bridges, key_id, keys, values, shares, child);
        }
        assert(t.nodes[child] == shape_of_row(rows, bridges, child));
        if before.len() < limit && child != from && quorum_met(t, child, shares.dom()) {
            assert(values_of_places(rows, all, values) =~= values_of_places(
                rows,
                before,
                values,
            ).push(values[rows[child].id]));
            assert(!before.contains(child)) by {
                if before.contains(child) {
                    let k = choose|k: int| 0 <= k < before.len() && before[k] == child;
                    assert(before[k] != from);
                    let q = choose|q: int| 0 <= q < m && t.nodes[p].children[q] == before[k];
                    assert(child_places(rows, rows[p].id)[q] < child_places(
                        rows,
                        rows[p].id,
                    )[m as int]);
                }
            }
            lemma_push_no_duplicates(before, child);
            assert forall|k: int| 0 <= k < all.len() implies 0 <= #[trigger] all[k] < rows.len()
                && rows[all[k]].is_active && rows[all[k]].parent_id == Some(rows[p].id) by {
                if k < before.len() {
                    assert(all[k] == before[k]);
                }
            }
            assert forall|k: int| 0 <= k < all.len() implies #[trigger] all[k] == from || exists|q:
                int| 0 <= q < n && t.nodes[p].children[q] == all[k] by {
                if k < before.len() {
                    assert(all[k] == before[k]);
                    if before[k] != from {
                        let q = choose|q: int| 0 <= q < m && t.nodes[p].children[q] == before[k];
                        assert(t.nodes[p].children[q] == all[k]);
                    }
                } else {
                    assert(t.nodes[p].children[m as int] == all[k]);
                }
            }
        } else {
            assert(all == before);
            assert forall|k: int| 0 <= k < all.len() implies #[trigger] all[k] == from || exists|q:
                int| 0 <= q < n && t.nodes[p].children[q] == all[k] by {
                if before[k] != from {
                    let q = choose|q: int| 0 <= q < m && t.nodes[p].children[q] == before[k];
                    assert(t.nodes[p].children[q] == all[k]);
                }
            }
        }
    }
}

/// From any node whose quorum is met, and with it that of every node above,
/// going up parent by parent gives the value of the topmost one.
pub proof fn climbing_gives_the_top_value(
    nodes: Seq<NodeRowView>,
    bridges: Set<(i64, Seq<char>)>,
    key_id: i64,
    keys: Seq<HardwareKeyView>,
    values: Map<i64, Seq<u8>>,
    shares: Map<i64, Seq<u8>>,
    i: int,
)
    requires
        presented_truly(nodes, key_id, keys, values, shares),
        0 <= i < key_rows(nodes, key_id).len(),
        forall|k: int|
            0 <= k < lineage(shape_of_rows(key_rows(nodes, key_id), bridges), i).len()
                ==> quorum_met(
                shape_of_rows(key_rows(nodes, key_id), bridges),
                #[trigger] lineage(shape_of_rows(key_rows(nodes, key_id), bridges), i)[k],
                shares.dom(),
            ) && values[key_rows(nodes, key_id)[lineage(
                shape_of_rows(key_rows(nodes, key_id), bridges),
                i,
            )[k]].id].len() > 0,
    ensures
        climbed_from(shape_of_rows(key_rows(nodes, key_id), bridges), i, shares) == Ok::<
            Seq<u8>,
            Error,
        >(
            values[key_rows(nodes, key_id)[lineage(
                shape_of_rows(key_rows(nodes, key_id), bridges),
                i,
            ).last()].id],
        ),
{
    let rows = key_rows(nodes, key_id);
    let t = shape_of_rows(rows, bridges);
    lemma_rows_ordered(nodes, key_id);
    lemma_shape_wf(rows, bridges);
    assert(lineage(t, i)[0] == i);
    resolved_iff_quorum_met(nodes, bridges, key_id, keys, values, shares, i);
    lemma_climbed(nodes, bridges, key_id, keys, values, shares, i);
}

proof fn lemma_climbed(
    nodes: Seq<NodeRowView>,
    bridges: Set<(i64, Seq<char>)>,
    key_id: i64,
    keys: Seq<HardwareKeyView>,
    values: Map<i64, Seq<u8>>,
    shares: Map<i64, Seq<u8>>,
    i: int,
)
    requires
        presented_truly(nodes, key_id, keys, values, shares),
        shape_of_rows(key_rows(nodes, key_id), bridges).wf(),
        0 <= i < key_rows(nodes, key_id).len(),
        forall|k: int|
            0 <= k < lineage(shape_of_rows(key_rows(nodes, key_id), bridges), i).len()
                ==> quorum_met(
                shape_of_rows(key_rows(nodes, key_id), bridges),
                #[trigger] lineage(shape_of_rows(key_rows(nodes, key_id), bridges), i)[k],
                shares.dom(),
            ) && values[key_rows(nodes, key_id)[lineage(
                shape_of_rows(key_rows(nodes, key_id), bridges),
                i,
            )[k]].id].len() > 0,
    ensures
        climbed(
            shape_of_rows(key_rows(nodes, key_id), bridges),
            i,
            values[key_rows(nodes, key_id)[i].id],
            shares,
        ) == Ok::<Seq<u8>, Error>(
            values[key_rows(nodes, key_id)[lineage(
                shape_of_rows(key_rows(nodes, key_id), bridges),
                i,
            ).last()].id],
        ),
    decreases i,
{
    let rows = key_rows(nodes, key_id);
    let t = shape_of_rows(rows, bridges);
    lemma_rows_ordered(nodes, key_id);
    assert(t.nodes[i] == shape_of_row(rows, bridges, i));
    let line = lineage(t, i);
    assert(line[0] == i);
    match t.nodes[i].parent {
        None => {},
        Some(p) => {
            let above = lineage(t, p);
            assert(line =~= seq![i] + above);
            assert(above.len() > 0 && above[0] == p);
            assert(line[1] == p);
            assert(line.last() == above.last());
            assert forall|k: int| 0 <= k < above.len() implies quorum_met(
                t,
                #[trigger] above[k],
                shares.dom(),
            ) && values[rows[above[k]].id].len() > 0 by {
                assert(line[k + 1] == above[k]);
            }
            assert(t.nodes[p] == shape_of_row(rows, bridges, p));
            let parent_id = rows[i].parent_id->0;
            assert(node_exists(rows, parent_id));
            assert(rows[p].id == parent_id);
            lemma_child_places(rows, parent_id);
            assert(rows[i].parent_id == Some(parent_id));
            assert(child_places(rows, parent_id).contains(i));
            let below = lemma_row_in_store(nodes, key_id, i);
            let home = lemma_row_in_store(nodes, key_id, p);
            assert(nodes[below].parent_id == Some(nodes[home].id));
            let threshold = rows[p].threshold->0;
            let n = t.nodes[p].children.len();
            lemma_gathered_beside(
                nodes,
                bridges,
                key_id,
                keys,
                values,
                shares,
                p,
                i,
                threshold,
                n,
            );
            lemma_others_met(t, p, i, shares.dom(), n);
            let m = choose|m: int| 0 <= m < n && child_places(rows, parent_id)[m] == i;
            assert(t.nodes[p].children[m] == i);
            let at = picked_beside(t, p, i, threshold as int, shares.dom(), n);
            assert(at.len() >= threshold);
            lemma_places_share(nodes, bridges, key_id, keys, values, p, threshold, at);
            lemma_climbed(nodes, bridges, key_id, keys, values, shares, p);
        },
    }
}

/// The tree of a secret is whole: one node is at the top, and what is no leaf is an
/// active split.
pub open spec fn whole(nodes: Seq<NodeRowView>, key_id: i64) -> bool {
    &&& forall|i: int, j: int|
        0 <= i < j < nodes.len() && (#[trigger] nodes[i]).key_id == key_id && (
        #[trigger] nodes[j]).key_id == key_id ==> nodes[i].parent_id is Some || nodes[j].parent_id
            is Some
    &&& forall|i: int|
        0 <= i < nodes.len() && (#[trigger] nodes[i]).key_id == key_id && nodes[i].hardware_key_id
            is None ==> nodes[i].is_active && nodes[i].threshold is Some
}

/// The same of the rows of the secret alone, of which the first is at the top.
spec fn whole_rows(rows: Seq<NodeRowView>) -> bool {
    &&& forall|i: int| 0 < i < rows.len() ==> (#[trigger] rows[i]).parent_id is Some
    &&& forall|i: int|
        0 <= i < rows.len() && (#[trigger] rows[i]).hardware_key_id is None ==> rows[i].is_active
            && rows[i].threshold is Some
}

proof fn lemma_whole_rows(nodes: Seq<NodeRowView>, key_id: i64)
    requires
        nodes_ordered(nodes),
        key_rows(nodes, key_id).len() > 0,
        !parent_missing(key_rows(nodes, key_id)),
        whole(nodes, key_id),
    ensures
        whole_rows(key_rows(nodes, key_id)),
{
    let rows = key_rows(nodes, key_id);
    lemma_rows_ordered(nodes, key_id);
    lemma_shape_wf(rows, Set::empty());
    assert forall|i: int| 0 < i < rows.len() implies (#[trigger] rows[i]).parent_id is Some by {
        let top = lemma_row_in_store(nodes, key_id, 0);
        let home = lemma_row_in_store(nodes, key_id, i);
        assert(rows[0].id < rows[i].id);
        if home < top {
            assert(nodes[home].id < nodes[top].id);
        }
    }
    assert forall|i: int|
        0 <= i < rows.len() && (#[trigger] rows[i]).hardware_key_id is None implies rows[i].is_active
        && rows[i].threshold is Some by {
        let home = lemma_row_in_store(nodes, key_id, i);
    }
}

/// The place of a row's parent, which is a split.
proof fn lemma_parent_place(
    nodes: Seq<NodeRowView>,
    bridges: Set<(i64, Seq<char>)>,
    key_id: i64,
    i: int,
) -> (p: int)
    requires
        nodes_ordered(nodes),
        parents_are_splits(nodes),
        !parent_missing(key_rows(nodes, key_id)),
        0 <= i < key_rows(nodes, key_id).len(),
        key_rows(nodes, key_id)[i].parent_id is Some,
    ensures
        0 <= p < i,
        shape_of_rows(key_rows(nodes, key_id), bridges).nodes[i].parent == Some(p),
        key_rows(nodes, key_id)[i].parent_id == Some(key_rows(nodes, key_id)[p].id),
        key_rows(nodes, key_id)[p].hardware_key_id is None,
{
    let rows = key_rows(nodes, key_id);
    let t = shape_of_rows(rows, bridges);
    lemma_rows_ordered(nodes, key_id);
    lemma_shape_wf(rows, bridges);
    assert(t.nodes[i] == shape_of_row(rows, bridges, i));
    let parent_id = rows[i].parent_id->0;
    assert(node_exists(rows, parent_id));
    let p = t.nodes[i].parent->0;
    assert(rows[p].id == parent_id);
    let below = lemma_row_in_store(nodes, key_id, i);
    let home = lemma_row_in_store(nodes, key_id, p);
    assert(nodes[below].parent_id == Some(nodes[home].id));
    p
}

/// In a whole tree of a secret that is not empty, no active node's value is empty.
proof fn lemma_values_not_empty(
    nodes: Seq<NodeRowView>,
    key_id: i64,
    keys: Seq<HardwareKeyView>,
    values: Map<i64, Seq<u8>>,
    shares: Map<i64, Seq<u8>>,
    i: int,
)
    requires
        presented_truly(nodes, key_id, keys, values, shares),
        whole_rows(key_rows(nodes, key_id)),
        0 <= i < key_rows(nodes, key_id).len(),
        key_rows(nodes, key_id)[i].is_active,
    ensures
        values[key_rows(nodes, key_id)[i].id].len() > 0,
    decreases i,
{
    if i > 0 {
        let rows = key_rows(nodes, key_id);
        let p = lemma_parent_place(nodes, Set::empty(), key_id, i);
        lemma_values_not_empty(nodes, key_id, keys, values, shares, p);
        lemma_child_value_len(nodes, key_id, keys, values, p, rows[p].threshold->0, i);
    }
}

proof fn lemma_climbed_or_nothing(
    nodes: Seq<NodeRowView>,
    bridges: Set<(i64, Seq<char>)>,
    key_id: i64,
    keys: Seq<HardwareKeyView>,
    values: Map<i64, Seq<u8>>,
    shares: Map<i64, Seq<u8>>,
    i: int,
)
    requires
        presented_truly(nodes, key_id, keys, values, shares),
        whole_rows(key_rows(nodes, key_id)),
        0 <= i < key_rows(nodes, key_id).len(),
        key_rows(nodes, key_id)[i].is_active,
    ensures
        climbed(
            shape_of_rows(key_rows(nodes, key_id), bridges),
            i,
            values[key_rows(nodes, key_id)[i].id],
            shares,
        ) matches Ok(value) ==> value == values[key_rows(nodes, key_id)[0].id],
    decreases i,
{
    let rows = key_rows(nodes, key_id);
    let t = shape_of_rows(rows, bridges);
    lemma_rows_ordered(nodes, key_id);
    lemma_shape_wf(rows, bridges);
    assert(t.nodes[i] == shape_of_row(rows, bridges, i));
    if i > 0 {
        let p = lemma_parent_place(nodes, bridges, key_id, i);
        assert(t.nodes[p] == shape_of_row(rows, bridges, p));
        let threshold = rows[p].threshold->0;
        let n = t.nodes[p].children.len();
        lemma_values_not_empty(nodes, key_id, keys, values, shares, p);
        lemma_gathered_beside(
            nodes,
            bridges,
            key_id,
            keys,
            values,
            shares,
            p,
            i,
            threshold,
            n,
        );
        let at = picked_beside(t, p, i, threshold as int, shares.dom(), n);
        if at.len() >= threshold {
            lemma_places_share(nodes, bridges, key_id, keys, values, p, threshold, at);
            lemma_climbed_or_nothing(nodes, bridges, key_id, keys, values, shares, p);
        }
    }
}

/// Whichever genuine shares are presented and wherever the climb starts, going up
/// to the root of a whole tree gives the secret or nothing. From the root it gives
/// what reconstruction does.
pub proof fn climbing_gives_the_secret_or_nothing(
    nodes: Seq<NodeRowView>,
    bridges: Set<(i64, Seq<char>)>,
    key_id: i64,
    keys: Seq<HardwareKeyView>,
    values: Map<i64, Seq<u8>>,
    shares: Map<i64, Seq<u8>>,
    i: int,
)
    requires
        presented_truly(nodes, key_id, keys, values, shares),
        whole(nodes, key_id),
        0 <= i < key_rows(nodes, key_id).len(),
    ensures
        ({
            let t = shape_of_rows(key_rows(nodes, key_id), bridges);
            &&& climbed_from(t, i, shares) matches Ok(value) ==> value == values[key_rows(
                nodes,
                key_id,
            )[0].id]
            &&& climbed_from(t, t.root, shares) == resolved(t, t.root, shares)
        }),
{
    let rows = key_rows(nodes, key_id);
    let t = shape_of_rows(rows, bridges);
    lemma_rows_ordered(nodes, key_id);
    lemma_shape_wf(rows, bridges);
    assert(t.nodes[i] == shape_of_row(rows, bridges, i));
    assert(t.nodes[0] == shape_of_row(rows, bridges, 0));
    lemma_whole_rows(nodes, key_id);
    if rows[i].is_active {
        lemma_values_not_empty(nodes, key_id, keys, values, shares, i);
        resolved_iff_quorum_met(nodes, bridges, key_id, keys, values, shares, i);
        lemma_climbed_or_nothing(nodes, bridges, key_id, keys, values, shares, i);
    }
}

} // verus!
