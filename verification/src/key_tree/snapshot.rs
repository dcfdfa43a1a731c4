//! A tree that was just split is exported as it was asked for.

use vstd::prelude::*;

use crate::key_tree::listing::{active_places, lists_set, snapshot_of, snapshots_of};
use crate::key_tree::spec::NodeSpec;
use crate::key_tree::split::{added, children_count, follows_plan, lemma_planned, node_count,
    plan_rows, planned, planned_bridges, planned_children, unsealed_row, Planned};
use crate::key_tree::store::{next_node_id, node_exists, nodes_ordered, NodeRowView, TreeStoreView};
use crate::key_tree::tree::{child_places, key_rows, lemma_child_places, lemma_rows_ordered, loaded,
    shape_of_row, shape_of_rows, TreeShape};

verus! {

/// A spec with every whitelist in order and each peer in it once: the same labels,
/// thresholds and keys, and the same children in the same order.
pub open spec fn tidied(spec: NodeSpec, tidy: NodeSpec) -> bool
    decreases spec, spec.children_view().len() + 1,
{
    &&& tidy.label_view() == spec.label_view()
    &&& lists_set(tidy.bridges_view(), spec.bridges_view().to_set())
    &&& match (spec, tidy) {
        (
            NodeSpec::Leaf { hardware_key_id, .. },
            NodeSpec::Leaf { hardware_key_id: same, .. },
        ) => hardware_key_id == same,
        (NodeSpec::Split { threshold, .. }, NodeSpec::Split { threshold: same, .. }) => threshold
            == same,
        _ => false,
    }
    &&& tidy.children_view().len() == spec.children_view().len()
    &&& children_tidied(spec, tidy.children_view(), spec.children_view().len())
}

pub open spec fn children_tidied(spec: NodeSpec, tidy: Seq<NodeSpec>, n: nat) -> bool
    decreases spec, n,
    when n <= spec.children_view().len()
{
    n == 0 || (children_tidied(spec, tidy, (n - 1) as nat) && tidied(
        spec.children_view()[n - 1],
        tidy[n - 1],
    ))
}

proof fn lemma_all_tidied(spec: NodeSpec, tidy: Seq<NodeSpec>, n: nat)
    requires
        n <= spec.children_view().len(),
        forall|k: int| 0 <= k < n ==> tidied(#[trigger] spec.children_view()[k], tidy[k]),
    ensures
        children_tidied(spec, tidy, n),
    decreases n,
{
    if n > 0 {
        lemma_all_tidied(spec, tidy, (n - 1) as nat);
        assert(tidied(spec.children_view()[n - 1], tidy[n - 1]));
    }
}

proof fn lemma_snapshot_child(t: TreeShape, at: Seq<int>, spec: NodeSpec, n: nat, k: int)
    requires
        n <= spec.children_view().len(),
        snapshots_of(t, at, spec, n),
        0 <= k < n,
    ensures
        snapshot_of(t, at[k], spec.children_view()[k]),
    decreases n,
{
    if k < n - 1 {
        lemma_snapshot_child(t, at, spec, (n - 1) as nat, k);
    }
}

/// Ascending numbers are determined by which they are.
proof fn lemma_ascending_same(a: Seq<int>, b: Seq<int>)
    requires
        forall|i: int, j: int| 0 <= i < j < a.len() ==> (#[trigger] a[i]) < (#[trigger] a[j]),
        forall|i: int, j: int| 0 <= i < j < b.len() ==> (#[trigger] b[i]) < (#[trigger] b[j]),
        forall|x: int| a.contains(x) <==> b.contains(x),
    ensures
        a == b,
    decreases a.len(),
{
    if a.len() == 0 {
        if b.len() > 0 {
            assert(b.contains(b[0]));
        }
        assert(a =~= b);
    } else {
        assert(a.contains(a[0]));
        assert(b.contains(a[0]));
        let x = a.last();
        let y = b.last();
        assert(a.contains(x));
        assert(b.contains(y));
        let i = choose|i: int| 0 <= i < b.len() && b[i] == x;
        let j = choose|j: int| 0 <= j < a.len() && a[j] == y;
        assert(x <= y) by {
            if i < b.len() - 1 {
                assert(b[i] < b[b.len() - 1]);
            }
        }
        assert(y <= x) by {
            if j < a.len() - 1 {
                assert(a[j] < a[a.len() - 1]);
            }
        }
        let c = a.drop_last();
        let d = b.drop_last();
        assert forall|z: int| c.contains(z) <==> d.contains(z) by {
            if c.contains(z) {
                let m = choose|m: int| 0 <= m < c.len() && c[m] == z;
                assert(a[m] == z);
                assert(a[m] < a[a.len() - 1]);
                assert(b.contains(z));
                let n = choose|n: int| 0 <= n < b.len() && b[n] == z;
                assert(d[n] == z);
            }
            if d.contains(z) {
                let m = choose|m: int| 0 <= m < d.len() && d[m] == z;
                assert(b[m] == z);
                assert(b[m] < b[b.len() - 1]);
                assert(a.contains(z));
                let n = choose|n: int| 0 <= n < a.len() && a[n] == z;
                assert(c[n] == z);
            }
        }
        lemma_ascending_same(c, d);
        assert(a =~= c.push(x));
        assert(b =~= d.push(y));
    }
}

proof fn lemma_counts_ascend(spec: NodeSpec, i: nat, j: nat)
    requires
        i < j <= spec.children_view().len(),
    ensures
        children_count(spec, i) + node_count(spec.children_view()[i as int]) <= children_count(
            spec,
            j,
        ),
    decreases j,
{
    if i < j - 1 {
        lemma_counts_ascend(spec, i, (j - 1) as nat);
    }
}

proof fn lemma_planned_children_len(spec: NodeSpec, key_id: i64, first: int, n: nat)
    requires
        n <= spec.children_view().len(),
        first >= 1,
        first + 1 + children_count(spec, n) <= i64::MAX,
    ensures
        planned_children(spec, key_id, first, n).len() == children_count(spec, n),
    decreases n,
{
    if n > 0 {
        let m = (n - 1) as nat;
        lemma_planned_children_len(spec, key_id, first, m);
        let before = planned_children(spec, key_id, first, m);
        lemma_planned(
            spec.children_view()[m as int],
            key_id,
            Some(first as i64),
            first + 1 + before.len(),
        );
    }
}

/// The rows of one child, among those of all children.
proof fn lemma_child_block(spec: NodeSpec, key_id: i64, first: int, n: nat, k: nat, j: int)
    requires
        k < n <= spec.children_view().len(),
        first >= 1,
        first + 1 + children_count(spec, n) <= i64::MAX,
        0 <= j < node_count(spec.children_view()[k as int]),
    ensures
        children_count(spec, k) + j < planned_children(spec, key_id, first, n).len(),
        planned_children(spec, key_id, first, n)[children_count(spec, k) + j] == planned(
            spec.children_view()[k as int],
            key_id,
            Some(first as i64),
            first + 1 + children_count(spec, k),
        )[j],
    decreases n,
{
    lemma_planned_children_len(spec, key_id, first, n);
    let m = (n - 1) as nat;
    lemma_planned_children_len(spec, key_id, first, m);
    let before = planned_children(spec, key_id, first, m);
    if k < m {
        lemma_child_block(spec, key_id, first, m, k, j);
        lemma_counts_ascend(spec, k, m);
        assert(planned_children(spec, key_id, first, n)[children_count(spec, k) + j]
            == before[children_count(spec, k) + j]);
    } else {
        lemma_planned(
            spec.children_view()[m as int],
            key_id,
            Some(first as i64),
            first + 1 + before.len(),
        );
    }
}

/// The child among whose rows a place stands.
proof fn lemma_block_of(spec: NodeSpec, n: nat, m: int) -> (k: nat)
    requires
        n <= spec.children_view().len(),
        0 <= m < children_count(spec, n),
    ensures
        k < n,
        children_count(spec, k) <= m < children_count(spec, k) + node_count(
            spec.children_view()[k as int],
        ),
    decreases n,
{
    if m < children_count(spec, (n - 1) as nat) {
        lemma_block_of(spec, (n - 1) as nat, m)
    } else {
        (n - 1) as nat
    }
}

/// The rows of a spec stand from a place on, and no other row hangs below them.
spec fn stands_at(
    rows: Seq<NodeRowView>,
    spec: NodeSpec,
    key_id: i64,
    parent: Option<i64>,
    base: int,
    o: int,
) -> bool {
    let count = node_count(spec);
    &&& base >= 1
    &&& 0 <= o
    &&& o + count <= rows.len()
    &&& base + rows.len() <= i64::MAX
    &&& parent matches Some(p) ==> p < base + o
    &&& forall|j: int|
        0 <= j < count ==> unsealed_row(#[trigger] rows[o + j]) == planned(
            spec,
            key_id,
            parent,
            base + o,
        )[j].row
    &&& forall|i: int|
        0 <= i < rows.len() && !(o <= i < o + count) ==> ((#[trigger] rows[i]).parent_id matches Some(
            p,
        ) ==> !(base + o <= p < base + o + count))
}

/// The whitelists of a tree are those that a plan asks for, from a place on.
spec fn lists_agree(t: TreeShape, plan: Seq<Planned>, o: int) -> bool {
    forall|j: int|
        0 <= j < plan.len() ==> (#[trigger] t.nodes[o + j]).allowed == plan[j].peers.to_set()
}

/// Where the children of a spec stand.
spec fn child_starts(spec: NodeSpec, o: int) -> Seq<int> {
    Seq::new(spec.children_view().len(), |k: int| o + 1 + children_count(spec, k as nat))
}

/// A child's rows stand where its siblings leave off.
proof fn lemma_child_stands(
    rows: Seq<NodeRowView>,
    spec: NodeSpec,
    key_id: i64,
    parent: Option<i64>,
    base: int,
    o: int,
    k: nat,
)
    requires
        stands_at(rows, spec, key_id, parent, base, o),
        k < spec.children_view().len(),
    ensures
        stands_at(
            rows,
            spec.children_view()[k as int],
            key_id,
            Some((base + o) as i64),
            base,
            o + 1 + children_count(spec, k),
        ),
{
    let n = spec.children_view().len();
    let child = spec.children_view()[k as int];
    let first = base + o;
    let start = o + 1 + children_count(spec, k);
    let count = node_count(spec);
    let own = node_count(child);
    let plan = planned(spec, key_id, parent, first);
    let below = planned_children(spec, key_id, first, n);
    let child_plan = planned(child, key_id, Some(first as i64), base + start);
    lemma_counts_ascend(spec, k, n);
    lemma_planned_children_len(spec, key_id, first, n);
    lemma_planned(spec, key_id, parent, first);
    assert forall|j: int| 0 <= j < own implies unsealed_row(#[trigger] rows[start + j])
        == child_plan[j].row by {
        lemma_child_block(spec, key_id, first, n, k, j);
        let m = children_count(spec, k) + j;
        assert(plan[1 + m] == below[m]);
        assert(rows[o + (1 + m)] == rows[start + j]);
        assert(unsealed_row(rows[o + (1 + m)]) == plan[1 + m].row);
    }
    assert forall|i: int| 0 <= i < rows.len() && !(start <= i < start + own) implies ((
    #[trigger] rows[i]).parent_id matches Some(p) ==> !(base + start <= p < base + start + own)) by {
        if o <= i < o + count {
            let j = i - o;
            assert(unsealed_row(rows[o + j]) == plan[j].row);
            if j > 0 {
                lemma_row_parent(spec, key_id, parent, first, j);
                let b = lemma_block_of(spec, n, j - 1);
                if b < k {
                    lemma_counts_ascend(spec, b, k);
                } else if b > k {
                    lemma_counts_ascend(spec, k, b);
                } else {
                    assert(start <= i < start + own);
                }
            }
        }
    }
}

/// A row below the top of a plan hangs below the top, if it is the first of its
/// block, and otherwise inside of its block.
proof fn lemma_row_parent(spec: NodeSpec, key_id: i64, parent: Option<i64>, first: int, j: int)
    requires
        first >= 1,
        first + node_count(spec) <= i64::MAX,
        1 <= j < node_count(spec),
    ensures
        planned(spec, key_id, parent, first).len() == node_count(spec),
        forall|k: nat|
            #![trigger children_count(spec, k)]
            k < spec.children_view().len() && children_count(spec, k) <= j - 1 < children_count(
                spec,
                k,
            ) + node_count(spec.children_view()[k as int]) ==> {
                let p = planned(spec, key_id, parent, first)[j].row.parent_id;
                if j - 1 == children_count(spec, k) {
                    p == Some(first as i64)
                } else {
                    p matches Some(q) && first + 1 + children_count(spec, k) <= q < first + j
                }
            },
{
    let n = spec.children_view().len();
    let plan = planned(spec, key_id, parent, first);
    let below = planned_children(spec, key_id, first, n);
    lemma_planned(spec, key_id, parent, first);
    lemma_planned_children_len(spec, key_id, first, n);
    assert(plan[j] == below[j - 1]);
    assert forall|k: nat|
        #![trigger children_count(spec, k)]
        k < n && children_count(spec, k) <= j - 1 < children_count(spec, k) + node_count(
            spec.children_view()[k as int],
        ) implies {
        let p = plan[j].row.parent_id;
        if j - 1 == children_count(spec, k) {
            p == Some(first as i64)
        } else {
            p matches Some(q) && first + 1 + children_count(spec, k) <= q < first + j
        }
    } by {
        let child = spec.children_view()[k as int];
        let start = first + 1 + children_count(spec, k);
        let m = j - 1 - children_count(spec, k);
        lemma_counts_ascend(spec, k, n);
        lemma_child_block(spec, key_id, first, n, k, m);
        let block = planned(child, key_id, Some(first as i64), start);
        lemma_planned(child, key_id, Some(first as i64), start);
        let wanted = plan_rows(block);
        assert(wanted[m] == block[m].row);
        assert(wanted[m].parent_id == plan[j].row.parent_id);
        if m == 0 {
            assert(wanted[0].parent_id == Some(first as i64));
        }
    }
}

/// The rows below a spec's node are its children.
proof fn lemma_children_stand(
    rows: Seq<NodeRowView>,
    spec: NodeSpec,
    key_id: i64,
    parent: Option<i64>,
    base: int,
    o: int,
)
    requires
        nodes_ordered(rows),
        stands_at(rows, spec, key_id, parent, base, o),
    ensures
        child_places(rows, (base + o) as i64) == child_starts(spec, o),
{
    let n = spec.children_view().len();
    let first = base + o;
    let count = node_count(spec);
    let plan = planned(spec, key_id, parent, first);
    let places = child_places(rows, first as i64);
    let starts = child_starts(spec, o);
    lemma_child_places(rows, first as i64);
    lemma_planned(spec, key_id, parent, first);
    assert forall|a: int, b: int| 0 <= a < b < starts.len() implies (#[trigger] starts[a]) < (
    #[trigger] starts[b]) by {
        lemma_counts_ascend(spec, a as nat, b as nat);
    }
    assert forall|x: int| places.contains(x) <==> starts.contains(x) by {
        if places.contains(x) {
            let at = choose|at: int| 0 <= at < places.len() && places[at] == x;
            assert(rows[x].parent_id == Some(first as i64));
            assert(o <= x < o + count);
            let j = x - o;
            assert(unsealed_row(rows[o + j]) == plan[j].row);
            if j == 0 {
                assert(plan[0].row.parent_id == parent);
            } else {
                let k = lemma_block_of(spec, n, j - 1);
                lemma_row_parent(spec, key_id, parent, first, j);
                assert(j - 1 == children_count(spec, k));
                assert(starts[k as int] == x);
            }
        }
        if starts.contains(x) {
            let k = choose|k: int| 0 <= k < starts.len() && starts[k] == x;
            let j = 1 + children_count(spec, k as nat);
            lemma_counts_ascend(spec, k as nat, n);
            lemma_row_parent(spec, key_id, parent, first, j as int);
            assert(unsealed_row(rows[o + j]) == plan[j as int].row);
            assert(rows[x].parent_id == Some(first as i64));
        }
    }
    lemma_ascending_same(places, starts);
}

proof fn lemma_all_active(t: TreeShape, i: int, n: nat)
    requires
        0 <= i < t.nodes.len(),
        n <= t.nodes[i].children.len(),
        forall|k: int|
            0 <= k < t.nodes[i].children.len() ==> t.nodes[#[trigger] t.nodes[i].children[k]].is_active,
    ensures
        active_places(t, i, n) == t.nodes[i].children.take(n as int),
    decreases n,
{
    if n > 0 {
        lemma_all_active(t, i, (n - 1) as nat);
        assert(t.nodes[t.nodes[i].children[n - 1]].is_active);
        assert(t.nodes[i].children.take(n as int) =~= t.nodes[i].children.take(n - 1).push(
            t.nodes[i].children[n - 1],
        ));
    } else {
        assert(active_places(t, i, 0) =~= t.nodes[i].children.take(0));
    }
}

proof fn lemma_snapshot_is_tidied(
    rows: Seq<NodeRowView>,
    bridges: Set<(i64, Seq<char>)>,
    spec: NodeSpec,
    key_id: i64,
    parent: Option<i64>,
    base: int,
    o: int,
    exported: NodeSpec,
)
    requires
        nodes_ordered(rows),
        forall|i: int| 0 <= i < rows.len() ==> (#[trigger] rows[i]).is_active,
        forall|i: int| 0 <= i < rows.len() ==> (#[trigger] rows[i]).id == base + i,
        stands_at(rows, spec, key_id, parent, base, o),
        lists_agree(shape_of_rows(rows, bridges), planned(spec, key_id, parent, base + o), o),
        snapshot_of(shape_of_rows(rows, bridges), o, exported),
    ensures
        tidied(spec, exported),
    decreases spec,
{
    let t = shape_of_rows(rows, bridges);
    let first = base + o;
    let n = spec.children_view().len();
    let plan = planned(spec, key_id, parent, first);
    let below = planned_children(spec, key_id, first, n);
    lemma_planned(spec, key_id, parent, first);
    lemma_planned_children_len(spec, key_id, first, n);
    assert(unsealed_row(rows[o + 0]) == plan[0].row);
    assert(t.nodes[o + 0].allowed == plan[0].peers.to_set());
    assert(t.nodes[o] == shape_of_row(rows, bridges, o));
    assert(rows[o].id == first);
    lemma_children_stand(rows, spec, key_id, parent, base, o);
    let kids = t.nodes[o].children;
    assert(kids == child_starts(spec, o));
    match spec {
        NodeSpec::Leaf { .. } => {
            assert(exported is Leaf);
        },
        NodeSpec::Split { .. } => {
            assert(exported is Split);
            assert forall|k: int| 0 <= k < kids.len() implies t.nodes[
                #[trigger] kids[k]
            ].is_active by {
                lemma_counts_ascend(spec, k as nat, n);
                assert(t.nodes[kids[k]] == shape_of_row(rows, bridges, kids[k]));
            }
            lemma_all_active(t, o, kids.len());
            assert(kids.take(kids.len() as int) =~= kids);
            let tidy = exported.children_view();
            assert forall|k: int| 0 <= k < n implies tidied(
                #[trigger] spec.children_view()[k],
                tidy[k],
            ) by {
                let child = spec.children_view()[k];
                let start = o + 1 + children_count(spec, k as nat);
                assert(decreases_to!(spec => child));
                lemma_snapshot_child(t, kids, exported, n, k);
                lemma_child_stands(rows, spec, key_id, parent, base, o, k as nat);
                lemma_counts_ascend(spec, k as nat, n);
                let child_plan = planned(child, key_id, Some(first as i64), base + start);
                lemma_planned(child, key_id, Some(first as i64), base + start);
                assert forall|j: int| 0 <= j < child_plan.len() implies (
                #[trigger] t.nodes[start + j]).allowed == child_plan[j].peers.to_set() by {
                    lemma_child_block(spec, key_id, first, n, k as nat, j);
                    let m = children_count(spec, k as nat) + j;
                    assert(plan[1 + m] == below[m]);
                    assert(t.nodes[o + (1 + m)].allowed == plan[1 + m].peers.to_set());
                }
                lemma_snapshot_is_tidied(
                    rows,
                    bridges,
                    child,
                    key_id,
                    Some(first as i64),
                    base,
                    start,
                    tidy[k],
                );
            }
            lemma_all_tidied(spec, tidy, n);
        },
    }
}

/// What is exported of a tree that was just split is the spec that it was split
/// along, with every whitelist in order.
pub proof fn exporting_gives_the_spec_back(
    before: TreeStoreView,
    after: TreeStoreView,
    key_id: i64,
    spec: NodeSpec,
    exported: NodeSpec,
)
    requires
        before.wf(),
        after.wf(),
        next_node_id(before.nodes) + node_count(spec) <= i64::MAX,
        key_rows(after.nodes, key_id) == added(after.nodes, before.nodes.len()),
        follows_plan(
            key_rows(after.nodes, key_id),
            planned(spec, key_id, None, next_node_id(before.nodes)),
        ),
        after.bridges == before.bridges.union(
            planned_bridges(planned(spec, key_id, None, next_node_id(before.nodes))),
        ),
        loaded(after, key_id) matches Ok(t) && snapshot_of(t, t.root, exported),
    ensures
        tidied(spec, exported),
{
    let first = next_node_id(before.nodes);
    let plan = planned(spec, key_id, None, first);
    let rows = key_rows(after.nodes, key_id);
    let t = shape_of_rows(rows, after.bridges);
    if before.nodes.len() > 0 {
        assert(before.nodes[before.nodes.len() - 1].id > 0);
    }
    lemma_planned(spec, key_id, None, first);
    lemma_rows_ordered(after.nodes, key_id);
    let wanted = plan_rows(plan);
    assert forall|i: int| 0 <= i < rows.len() implies (#[trigger] rows[i]).id == first + i
        && rows[i].is_active by {
        assert(unsealed_row(rows[i]) == plan[i].row);
        assert(wanted[i] == plan[i].row);
    }
    assert(stands_at(rows, spec, key_id, None, first, 0)) by {
        assert forall|j: int| 0 <= j < node_count(spec) implies unsealed_row(#[trigger] rows[0 + j])
            == plan[j].row by {
            assert(unsealed_row(rows[j]) == plan[j].row);
        }
    }
    assert forall|j: int| 0 <= j < plan.len() implies (#[trigger] t.nodes[0 + j]).allowed
        == plan[j].peers.to_set() by {
        assert(t.nodes[j] == shape_of_row(rows, after.bridges, j));
        let id = rows[j].id;
        assert(id == first + j);
        assert(unsealed_row(rows[j]) == plan[j].row);
        assert forall|peer: Seq<char>|
            after.bridges.contains((id, peer)) <==> plan[j].peers.to_set().contains(peer) by {
            if before.bridges.contains((id, peer)) {
                assert(node_exists(before.nodes, id));
                let i = choose|i: int|
                    0 <= i < before.nodes.len() && (#[trigger] before.nodes[i]).id == id;
                if i < before.nodes.len() - 1 {
                    assert(before.nodes[i].id < before.nodes[before.nodes.len() - 1].id);
                }
            }
            if planned_bridges(plan).contains((id, peer)) {
                let k = choose|k: int|
                    0 <= k < plan.len() && (#[trigger] plan[k]).row.id == id
                        && plan[k].peers.contains(peer);
                assert(wanted[k] == plan[k].row);
                assert(k == j);
            }
            if plan[j].peers.contains(peer) {
                assert(plan[j].row.id == id);
                assert(planned_bridges(plan).contains((id, peer)));
            }
        }
        assert(t.nodes[j].allowed =~= plan[j].peers.to_set());
    }
    lemma_snapshot_is_tidied(rows, after.bridges, spec, key_id, None, first, 0, exported);
}

} // verus!
