//! Splitting a secret along a spec.

use vstd::prelude::*;

use crate::bytes::byte_views;
use crate::error::{fault_of, Error, StoreError};
use crate::keys::{get_active_encryption_key, key_place, registry_wf, HardwareKey, HardwareKeyView,
    KeyRegistry};
use crate::key_tree::holding::{active_children, lemma_children_append, lemma_children_are_rows,
    lemma_no_children, node_holds, share_the_secret, tree_holds, values_at};
use crate::key_tree::laws::whole;
use crate::key_tree::spec::{children_fault, children_labels, labels_distinct, node_fault, spec_fault,
    spec_labels, validate, NodeSpec};
use crate::key_tree::store::{
    key_exists, keys_ordered, next_key_id, next_node_id, node_exists, nodes_ordered, KeyRow,
    KeyRowView, NodeRow, NodeRowView, TreeStore, TreeStoreView,
};
use crate::key_tree::tree::{key_rows, labels_repeat, loaded, parent_missing};
use crate::sealing::{key_array, opens_to, seal, KEY_LEN};
use crate::seqs::lemma_push_to_set;
use crate::shamir::{deal, lemma_dealt_from};
use crate::text::{text_equal, text_views};

verus! {

/// A row that a spec asks for, and the peers that it whitelists.
#[verifier::ext_equal]
pub struct Planned {
    pub row: NodeRowView,
    pub peers: Seq<Seq<char>>,
}

/// The rows that a spec asks for: a node before its children, with ids that
/// count up from `first`. The sealed shares are left out.
pub open spec fn planned(spec: NodeSpec, key_id: i64, parent: Option<i64>, first: int) -> Seq<Planned>
    decreases spec, spec.children_view().len() + 1,
{
    let row = NodeRowView {
        id: first as i64,
        key_id,
        parent_id: parent,
        label: spec.label_view(),
        threshold: match spec {
            NodeSpec::Leaf { .. } => None,
            NodeSpec::Split { threshold, .. } => Some(threshold as i64),
        },
        hardware_key_id: match spec {
            NodeSpec::Leaf { hardware_key_id, .. } => Some(hardware_key_id),
            NodeSpec::Split { .. } => None,
        },
        wrapped_share: None,
        is_active: true,
    };
    seq![Planned { row, peers: spec.bridges_view() }] + planned_children(
        spec,
        key_id,
        first,
        spec.children_view().len(),
    )
}

/// The rows below the first `n` children.
pub open spec fn planned_children(spec: NodeSpec, key_id: i64, first: int, n: nat) -> Seq<Planned>
    decreases spec, n,
    when n <= spec.children_view().len()
{
    if n == 0 {
        Seq::empty()
    } else {
        let before = planned_children(spec, key_id, first, (n - 1) as nat);
        before + planned(
            spec.children_view()[n - 1],
            key_id,
            Some(first as i64),
            first + 1 + before.len(),
        )
    }
}

/// How many nodes a spec has.
pub open spec fn node_count(spec: NodeSpec) -> nat
    decreases spec, spec.children_view().len() + 1,
{
    1 + children_count(spec, spec.children_view().len())
}

pub open spec fn children_count(spec: NodeSpec, n: nat) -> nat
    decreases spec, n,
    when n <= spec.children_view().len()
{
    if n == 0 {
        0
    } else {
        children_count(spec, (n - 1) as nat) + node_count(spec.children_view()[n - 1])
    }
}

/// A row without its sealed share.
pub open spec fn unsealed_row(row: NodeRowView) -> NodeRowView {
    NodeRowView { wrapped_share: None, ..row }
}

/// The rows are those of the plan, with sealed shares filled in at the leaves. A
/// split has none: nothing of its value is kept but the shares below it.
pub open spec fn follows_plan(rows: Seq<NodeRowView>, plan: Seq<Planned>) -> bool {
    &&& rows.len() == plan.len()
    &&& forall|k: int|
        #![trigger rows[k]]
        #![trigger plan[k]]
        0 <= k < rows.len() ==> unsealed_row(rows[k]) == plan[k].row && (rows[k].wrapped_share
            is Some <==> rows[k].hardware_key_id is Some)
}

/// The permissions that a plan asks for.
pub open spec fn planned_bridges(plan: Seq<Planned>) -> Set<(i64, Seq<char>)> {
    Set::new(
        |p: (i64, Seq<char>)|
            exists|k: int|
                0 <= k < plan.len() && (#[trigger] plan[k]).row.id == p.0 && plan[k].peers.contains(
                    p.1,
                ),
    )
}

/// Ids count up from `first`; the first row hangs below `parent`, and every
/// other one below an earlier row.
pub open spec fn grown_from(rows: Seq<NodeRowView>, parent: Option<i64>, first: int) -> bool {
    &&& rows.len() > 0
    &&& rows[0].parent_id == parent
    &&& forall|k: int| 0 <= k < rows.len() ==> (#[trigger] rows[k]).id == first + k
    &&& forall|k: int|
        1 <= k < rows.len() ==> ((#[trigger] rows[k]).parent_id matches Some(p) && first <= p < first
            + k)
    &&& forall|k: int| 0 <= k < rows.len() ==> (#[trigger] rows[k]).is_active
}

pub open spec fn plan_rows(plan: Seq<Planned>) -> Seq<NodeRowView> {
    Seq::new(plan.len(), |k: int| plan[k].row)
}

/// The labels of a plan.
pub open spec fn plan_labels(plan: Seq<Planned>) -> Seq<Seq<char>> {
    Seq::new(plan.len(), |k: int| plan[k].row.label)
}

pub(crate) proof fn lemma_planned(spec: NodeSpec, key_id: i64, parent: Option<i64>, first: int)
    requires
        first >= 1,
        first + node_count(spec) <= i64::MAX,
    ensures
        planned(spec, key_id, parent, first).len() == node_count(spec),
        grown_from(plan_rows(planned(spec, key_id, parent, first)), parent, first),
    decreases spec, spec.children_view().len() + 1,
{
    let n = spec.children_view().len();
    lemma_planned_children(spec, key_id, first, n);
    let plan = planned(spec, key_id, parent, first);
    let below = planned_children(spec, key_id, first, n);
    let rows = plan_rows(plan);
    assert forall|k: int| 0 <= k < rows.len() implies (#[trigger] rows[k]).id == first + k
        && rows[k].is_active by {
        if k > 0 {
            assert(plan[k] == below[k - 1]);
        }
    }
    assert forall|k: int| 1 <= k < rows.len() implies ((#[trigger] rows[k]).parent_id matches Some(
        p,
    ) && first <= p < first + k) by {
        assert(plan[k] == below[k - 1]);
    }
}

proof fn lemma_planned_children(spec: NodeSpec, key_id: i64, first: int, n: nat)
    requires
        n <= spec.children_view().len(),
        first >= 1,
        first + 1 + children_count(spec, n) <= i64::MAX,
    ensures
        planned_children(spec, key_id, first, n).len() == children_count(spec, n),
        forall|k: int|
            0 <= k < planned_children(spec, key_id, first, n).len() ==> (
            #[trigger] planned_children(spec, key_id, first, n)[k]).row.id == first + 1 + k
                && planned_children(spec, key_id, first, n)[k].row.is_active,
        forall|k: int|
            0 <= k < planned_children(spec, key_id, first, n).len() ==> ((
            #[trigger] planned_children(spec, key_id, first, n)[k]).row.parent_id matches Some(p)
                && first <= p < first + 1 + k),
    decreases spec, n,
{
    if n > 0 {
        let m = (n - 1) as nat;
        lemma_planned_children(spec, key_id, first, m);
        let before = planned_children(spec, key_id, first, m);
        let child = spec.children_view()[m as int];
        let start = first + 1 + before.len();
        assert(decreases_to!(spec => child));
        lemma_planned(child, key_id, Some(first as i64), start);
        let plan = planned(child, key_id, Some(first as i64), start);
        let rows = plan_rows(plan);
        let all = planned_children(spec, key_id, first, n);
        assert forall|k: int| 0 <= k < all.len() implies (#[trigger] all[k]).row.id == first + 1 + k
            && all[k].row.is_active && (all[k].row.parent_id matches Some(p) && first <= p < first + 1 + k) by {
            if k < before.len() {
                assert(all[k] == before[k]);
            } else {
                assert(all[k] == plan[k - before.len()]);
                assert(rows[k - before.len()] == all[k].row);
                if k == before.len() {
                    assert(rows[0].parent_id == Some(first as i64));
                }
            }
        }
    }
}

/// Seals a share to a hardware key.
pub(crate) fn seal_share(hardware_key: &HardwareKey, share: &[u8]) -> (r: Result<Vec<u8>, Error>)
    ensures
        r is Ok <==> hardware_key.public_key@.len() == KEY_LEN,
        r matches Ok(sealed) ==> opens_to(sealed@, hardware_key.public_key@, share@),
        r matches Err(e) ==> e == Error::InvalidPublicKey,
{
    match key_array(hardware_key.public_key.as_slice()) {
        Some(public_key) => Ok(seal(&public_key, share)),
        None => Err(Error::InvalidPublicKey),
    }
}

/// Some node of the spec names a peer twice.
pub open spec fn peers_repeat(spec: NodeSpec) -> bool
    decreases spec, spec.children_view().len() + 1,
{
    !spec.bridges_view().no_duplicates() || children_peers_repeat(spec, spec.children_view().len())
}

pub open spec fn children_peers_repeat(spec: NodeSpec, n: nat) -> bool
    decreases spec, n,
    when n <= spec.children_view().len()
{
    n > 0 && (children_peers_repeat(spec, (n - 1) as nat) || peers_repeat(
        spec.children_view()[n - 1],
    ))
}

proof fn lemma_repeats_stay(spec: NodeSpec, n: nat)
    requires
        n <= spec.children_view().len(),
        children_peers_repeat(spec, n),
    ensures
        children_peers_repeat(spec, spec.children_view().len()),
    decreases spec.children_view().len() - n,
{
    if n < spec.children_view().len() {
        lemma_repeats_stay(spec, n + 1);
    }
}

proof fn lemma_faultless_child(keys: Seq<HardwareKeyView>, spec: NodeSpec, n: nat, i: int)
    requires
        n <= spec.children_view().len(),
        children_fault(keys, spec, n) is None,
        0 <= i < n,
    ensures
        node_fault(keys, spec.children_view()[i]) is None,
    decreases n,
{
    if i < n - 1 {
        lemma_faultless_child(keys, spec, (n - 1) as nat, i);
    }
}

proof fn lemma_child_counts(spec: NodeSpec, n: nat)
    requires
        n <= spec.children_view().len(),
    ensures
        children_count(spec, n) <= children_count(spec, spec.children_view().len()),
    decreases spec.children_view().len() - n,
{
    if n < spec.children_view().len() {
        lemma_child_counts(spec, n + 1);
    }
}

/// Whether some node of the spec names a peer twice.
pub(crate) fn names_a_peer_twice(spec: &NodeSpec) -> (r: bool)
    ensures
        r == peers_repeat(*spec),
    decreases spec,
{
    let peers = spec.allowed_bridges();
    let ghost views = text_views(peers@);
    let mut j: usize = 0;
    while j < peers.len()
        invariant
            j <= peers.len(),
            views == text_views(peers@),
            views == spec.bridges_view(),
            forall|a: int, b: int| 0 <= a < b < j ==> (#[trigger] views[a]) != (#[trigger] views[b]),
        decreases peers.len() - j,
    {
        let mut i: usize = 0;
        while i < j
            invariant
                i <= j < peers.len(),
                views == text_views(peers@),
                views == spec.bridges_view(),
                forall|a: int| 0 <= a < i ==> (#[trigger] views[a]) != views[j as int],
            decreases j - i,
        {
            assert(views[i as int] == peers@[i as int]@);
            assert(views[j as int] == peers@[j as int]@);
            if text_equal(peers[i].as_str(), peers[j].as_str()) {
                return true;
            }
            i += 1;
        }
        j += 1;
    }
    assert(views.no_duplicates()) by {
        assert forall|a: int, b: int|
            0 <= a < views.len() && 0 <= b < views.len() && a != b implies views[a]
            != views[b] by {
            if a < b {
            } else {
                assert(views[b] != views[a]);
            }
        }
    }
    match spec {
        NodeSpec::Leaf { .. } => false,
        NodeSpec::Split { children, .. } => {
            let mut c: usize = 0;
            while c < children.len()
                invariant
                    c <= children.len(),
                    children@ == spec.children_view(),
                    !children_peers_repeat(*spec, c as nat),
                decreases children.len() - c,
            {
                assert(decreases_to!(spec => children@[c as int]));
                if names_a_peer_twice(&children[c]) {
                    proof {
                        lemma_repeats_stay(*spec, (c + 1) as nat);
                    }
                    return true;
                }
                c += 1;
            }
            false
        },
    }
}

fn insert_allowed_bridges(store: &mut TreeStore, node_id: i64, peers: &Vec<String>)
    requires
        old(store).wf(),
        node_exists(old(store)@.nodes, node_id),
    ensures
        final(store).wf(),
        final(store)@ == (TreeStoreView {
            bridges: old(store)@.bridges.union(
                Set::new(
                    |p: (i64, Seq<char>)| p.0 == node_id && text_views(peers@).contains(p.1),
                ),
            ),
            ..old(store)@
        }),
{
    let ghost views = text_views(peers@);
    let ghost before = store@;
    let mut i: usize = 0;
    assert(store@ =~= TreeStoreView {
        bridges: before.bridges.union(
            Set::new(|p: (i64, Seq<char>)| p.0 == node_id && views.take(0).contains(p.1)),
        ),
        ..before
    });
    while i < peers.len()
        invariant
            i <= peers.len(),
            store.wf(),
            node_exists(store@.nodes, node_id),
            views == text_views(peers@),
            store@ == (TreeStoreView {
                bridges: before.bridges.union(
                    Set::new(
                        |p: (i64, Seq<char>)| p.0 == node_id && views.take(i as int).contains(p.1),
                    ),
                ),
                ..before
            }),
        decreases peers.len() - i,
    {
        let ghost earlier = store@.bridges;
        store.insert_bridge(node_id, peers[i].as_str());
        proof {
            let now = views.take(i + 1);
            assert(now =~= views.take(i as int).push(views[i as int]));
            lemma_push_to_set(views.take(i as int), views[i as int]);
            assert forall|p: (i64, Seq<char>)|
                store@.bridges.contains(p) <==> before.bridges.union(
                    Set::new(|p: (i64, Seq<char>)| p.0 == node_id && now.contains(p.1)),
                ).contains(p) by {
                assert(now.to_set().contains(p.1) <==> views.take(i as int).to_set().insert(
                    views[i as int],
                ).contains(p.1));
            }
            assert(store@.bridges =~= before.bridges.union(
                Set::new(|p: (i64, Seq<char>)| p.0 == node_id && now.contains(p.1)),
            ));
        }
        i += 1;
    }
    assert(views.take(i as int) =~= views);
}

/// Every row stands for its value among these rows.
pub open spec fn all_hold(
    rows: Seq<NodeRowView>,
    keys: Seq<HardwareKeyView>,
    values: Map<i64, Seq<u8>>,
) -> bool {
    forall|k: int| 0 <= k < rows.len() ==> node_holds(rows, keys, values, #[trigger] rows[k])
}

/// The values of one tree below a start, and of another from there on.
pub open spec fn merged(
    below: Map<i64, Seq<u8>>,
    from: Map<i64, Seq<u8>>,
    start: int,
) -> Map<i64, Seq<u8>> {
    Map::new(
        |id: i64| true,
        |id: i64|
            if id >= start {
                from[id]
            } else {
                below[id]
            },
    )
}

proof fn lemma_graft(
    a: Seq<NodeRowView>,
    b: Seq<NodeRowView>,
    keys: Seq<HardwareKeyView>,
    va: Map<i64, Seq<u8>>,
    vb: Map<i64, Seq<u8>>,
    parent: Option<i64>,
    first: int,
)
    requires
        first >= 1,
        first + a.len() + b.len() <= i64::MAX,
        parent matches Some(p) ==> p < first,
        grown_from(a, parent, first),
        grown_from(b, Some(first as i64), first + a.len()),
        forall|k: int| 1 <= k < a.len() ==> node_holds(a, keys, va, #[trigger] a[k]),
        all_hold(b, keys, vb),
    ensures
        grown_from(a + b, parent, first),
        forall|k: int|
            1 <= k < a.len() + b.len() ==> node_holds(
                a + b,
                keys,
                merged(va, vb, first + a.len()),
                #[trigger] (a + b)[k],
            ),
        active_children(a + b, first as i64) == active_children(a, first as i64).push(
            (first + a.len()) as i64,
        ),
{
    let start = first + a.len();
    let v = merged(va, vb, start);
    let all = a + b;
    assert forall|k: int| 1 <= k < all.len() implies node_holds(
        all,
        keys,
        v,
        #[trigger] all[k],
    ) by {
        let id = all[k].id;
        lemma_children_append(a, b, id);
        if k < a.len() {
            assert(all[k] == a[k]);
            assert(id == first + k);
            assert forall|i: int| 0 <= i < b.len() implies (#[trigger] b[i]).parent_id != Some(
                id,
            ) by {
                if i == 0 {
                    assert(b[0].parent_id == Some(first as i64));
                }
            }
            lemma_no_children(b, id);
            let kids = active_children(a, id);
            assert(active_children(all, id) =~= kids);
            assert forall|m: int| 0 <= m < kids.len() implies #[trigger] kids[m] < start by {
                lemma_children_are_rows(a, id, m);
            }
            assert(values_at(kids, v) =~= values_at(kids, va));
        } else {
            let j = k - a.len();
            assert(all[k] == b[j]);
            assert(id == start + j);
            assert forall|i: int| 0 <= i < a.len() implies (#[trigger] a[i]).parent_id != Some(
                id,
            ) by {
                if i == 0 {
                    assert(a[0].parent_id == parent);
                }
            }
            lemma_no_children(a, id);
            let kids = active_children(b, id);
            assert(active_children(all, id) =~= kids);
            assert forall|m: int| 0 <= m < kids.len() implies #[trigger] kids[m] >= start by {
                lemma_children_are_rows(b, id, m);
            }
            assert(values_at(kids, v) =~= values_at(kids, vb));
            assert(node_holds(b, keys, vb, b[j]));
        }
    }
    let head = first as i64;
    lemma_children_append(a, b, head);
    let rest = b.skip(1);
    assert(b =~= seq![b[0]] + rest);
    lemma_children_append(seq![b[0]], rest, head);
    assert forall|i: int| 0 <= i < rest.len() implies (#[trigger] rest[i]).parent_id != Some(
        head,
    ) by {
        assert(rest[i] == b[i + 1]);
    }
    lemma_no_children(rest, head);
    reveal_with_fuel(active_children, 2);
    assert(seq![b[0]].drop_last() =~= Seq::<NodeRowView>::empty());
    assert(seq![b[0]].last() == b[0]);
    assert(active_children(seq![b[0]], head) =~= seq![start as i64]);
    assert(active_children(all, head) =~= active_children(a, head).push(start as i64));
    assert forall|k: int| 0 <= k < all.len() implies (#[trigger] all[k]).id == first + k
        && all[k].is_active by {
        if k >= a.len() {
            assert(all[k] == b[k - a.len()]);
        } else {
            assert(all[k] == a[k]);
        }
    }
    assert forall|k: int| 1 <= k < all.len() implies ((#[trigger] all[k]).parent_id matches Some(p)
        && first <= p < first + k) by {
        if k >= a.len() {
            assert(all[k] == b[k - a.len()]);
        } else {
            assert(all[k] == a[k]);
        }
    }
    assert(all[0] == a[0]);
}

/// The rows that were added after the first `n`.
pub open spec fn added(nodes: Seq<NodeRowView>, n: nat) -> Seq<NodeRowView> {
    nodes.skip(n as int)
}

/// Rows added along a plan stand for a secret: the first one's value is the
/// secret, and each stands for its value.
pub open spec fn stands_for(
    rows: Seq<NodeRowView>,
    keys: Seq<HardwareKeyView>,
    first: int,
    secret: Seq<u8>,
    values: Map<i64, Seq<u8>>,
) -> bool {
    values[first as i64] == secret && all_hold(rows, keys, values)
}

proof fn lemma_plan_grows(rows: Seq<NodeRowView>, plan: Seq<Planned>, parent: Option<i64>, first: int)
    requires
        follows_plan(rows, plan),
        grown_from(plan_rows(plan), parent, first),
    ensures
        grown_from(rows, parent, first),
{
    let wanted = plan_rows(plan);
    assert forall|k: int| 0 <= k < rows.len() implies unsealed_row(#[trigger] rows[k])
        == wanted[k] by {
        assert(plan[k].row == wanted[k]);
    }
}

proof fn lemma_plan_bridges_append(a: Seq<Planned>, b: Seq<Planned>)
    ensures
        planned_bridges(a + b) == planned_bridges(a).union(planned_bridges(b)),
{
    let all = a + b;
    assert forall|p: (i64, Seq<char>)|
        planned_bridges(all).contains(p) <==> planned_bridges(a).union(planned_bridges(b)).contains(
            p,
        ) by {
        if planned_bridges(all).contains(p) {
            let k = choose|k: int|
                0 <= k < all.len() && (#[trigger] all[k]).row.id == p.0 && all[k].peers.contains(
                    p.1,
                );
            if k < a.len() {
                assert(a[k] == all[k]);
            } else {
                assert(b[k - a.len()] == all[k]);
            }
        }
        if planned_bridges(a).contains(p) {
            let k = choose|k: int|
                0 <= k < a.len() && (#[trigger] a[k]).row.id == p.0 && a[k].peers.contains(p.1);
            assert(all[k] == a[k]);
        }
        if planned_bridges(b).contains(p) {
            let k = choose|k: int|
                0 <= k < b.len() && (#[trigger] b[k]).row.id == p.0 && b[k].peers.contains(p.1);
            assert(all[k + a.len()] == b[k]);
        }
    }
    assert(planned_bridges(all) =~= planned_bridges(a).union(planned_bridges(b)));
}

/// Adds the rows of a spec below a parent: deals shares at each split, seals
/// them at the leaves.
fn split_node(
    store: &mut TreeStore,
    registry: &KeyRegistry,
    key_id: i64,
    parent_id: Option<i64>,
    secret: &[u8],
    spec: &NodeSpec,
)
    requires
        old(store).wf(),
        key_exists(old(store)@.keys, key_id),
        registry_wf(registry@),
        node_fault(registry@, *spec) is None,
        next_node_id(old(store)@.nodes) + node_count(*spec) <= i64::MAX,
        parent_id matches Some(p) ==> p < next_node_id(old(store)@.nodes),
        forall|i: int|
            0 <= i < old(store)@.nodes.len() && parent_id == Some(
                (#[trigger] old(store)@.nodes[i]).id,
            ) ==> old(store)@.nodes[i].hardware_key_id is None && old(store)@.nodes[i].key_id
                == key_id,
    ensures
        final(store).wf(),
        final(store)@.keys == old(store)@.keys,
        final(store)@.links == old(store)@.links,
        final(store)@.nodes.len() == old(store)@.nodes.len() + node_count(*spec),
        final(store)@.nodes.take(old(store)@.nodes.len() as int) == old(store)@.nodes,
        follows_plan(
            added(final(store)@.nodes, old(store)@.nodes.len()),
            planned(*spec, key_id, parent_id, next_node_id(old(store)@.nodes)),
        ),
        final(store)@.bridges == old(store)@.bridges.union(
            planned_bridges(planned(*spec, key_id, parent_id, next_node_id(old(store)@.nodes))),
        ),
        exists|values: Map<i64, Seq<u8>>| #[trigger]
            stands_for(
                added(final(store)@.nodes, old(store)@.nodes.len()),
                registry@,
                next_node_id(old(store)@.nodes),
                secret@,
                values,
            ),
    decreases spec,
{
    let ghost before = store@;
    let ghost n0 = before.nodes.len();
    let ghost first = next_node_id(before.nodes);
    let ghost plan = planned(*spec, key_id, parent_id, first);
    proof {
        lemma_planned(*spec, key_id, parent_id, first);
        if n0 > 0 {
            assert(before.nodes[n0 - 1].id > 0);
        }
        assert(plan[0] == seq![plan[0]][0]);
    }
    let count: usize = store.nodes.len();
    let node_id: i64 = if count == 0 {
        1
    } else {
        assert(before.nodes[n0 - 1] == store.nodes@[n0 - 1]@);
        store.nodes[count - 1].id + 1
    };
    match spec {
        NodeSpec::Leaf { label, hardware_key_id, allowed_bridges } => {
            let sealed = match get_active_encryption_key(registry, *hardware_key_id) {
                Ok(hardware_key) => {
                    proof {
                        let place = key_place(registry@, *hardware_key_id)->0;
                        assert(registry@[place].public_key.len() == KEY_LEN);
                    }
                    match seal_share(hardware_key, secret) {
                        Ok(sealed) => sealed,
                        Err(_) => {
                            assert(false);
                            return ;
                        },
                    }
                },
                Err(_) => {
                    assert(false);
                    return ;
                },
            };
            let row = NodeRow {
                id: node_id,
                key_id,
                parent_id,
                label: label.clone(),
                threshold: None,
                hardware_key_id: Some(*hardware_key_id),
                wrapped_share: Some(sealed),
                is_active: true,
            };
            let ghost new_row = row@;
            store.push_node(row);
            assert(store@.nodes[n0 as int].id == node_id);
            insert_allowed_bridges(store, node_id, allowed_bridges);
            proof {
                let rows = added(store@.nodes, n0);
                assert(rows =~= seq![new_row]);
                assert(planned_children(*spec, key_id, first, 0) =~= Seq::<Planned>::empty());
                assert(plan.len() == 1);
                assert(unsealed_row(new_row) =~= plan[0].row);
                assert(store@.nodes.take(n0 as int) =~= before.nodes);
                lemma_single_plan_bridges(plan[0]);
                assert(plan =~= seq![plan[0]]);
                let values = Map::<i64, Seq<u8>>::empty().insert(node_id, secret@);
                assert(node_holds(rows, registry@, values, rows[0]));
                assert(stands_for(rows, registry@, first, secret@, values));
            }
        },
        NodeSpec::Split { label, threshold, children, allowed_bridges } => {
            let row = NodeRow {
                id: node_id,
                key_id,
                parent_id,
                label: label.clone(),
                threshold: Some(*threshold as i64),
                hardware_key_id: None,
                wrapped_share: None,
                is_active: true,
            };
            let ghost head = row@;
            store.push_node(row);
            assert(store@.nodes[n0 as int].id == node_id);
            insert_allowed_bridges(store, node_id, allowed_bridges);
            let shares = deal(*threshold, secret, children.len());
            let ghost dealt = byte_views(shares@);
            let ghost mut values = Map::<i64, Seq<u8>>::empty().insert(node_id, secret@);
            let ghost head_plan = seq![plan[0]];
            proof {
                assert(added(store@.nodes, n0) =~= seq![head]);
                assert(unsealed_row(head) =~= plan[0].row);
                assert(head_plan + planned_children(*spec, key_id, first, 0) =~= head_plan);
                lemma_single_plan_bridges(plan[0]);
                assert(store@.nodes.take(n0 as int) =~= before.nodes);
                assert(seq![head].drop_last() =~= Seq::<NodeRowView>::empty());
                lemma_no_children(seq![head], node_id);
                assert(values_at(Seq::<i64>::empty(), values) =~= dealt.take(0));
            }
            let mut i: usize = 0;
            while i < children.len()
                invariant
                    i <= children.len(),
                    store.wf(),
                    key_exists(store@.keys, key_id),
                    registry_wf(registry@),
                    children@ == spec.children_view(),
                    children_fault(registry@, *spec, children@.len()) is None,
                    first == node_id,
                    first >= 1,
                    first + node_count(*spec) <= i64::MAX,
                    parent_id matches Some(p) ==> p < first,
                    n0 == before.nodes.len(),
                    first == next_node_id(before.nodes),
                    shares@.len() == children@.len(),
                    dealt == byte_views(shares@),
                    store@.keys == before.keys,
                    store@.links == before.links,
                    store@.nodes.take(n0 as int) == before.nodes,
                    store@.nodes.len() >= n0 + 1,
                    head_plan.len() == 1,
                    follows_plan(
                        added(store@.nodes, n0),
                        head_plan + planned_children(*spec, key_id, first, i as nat),
                    ),
                    grown_from(added(store@.nodes, n0), parent_id, first),
                    added(store@.nodes, n0)[0] == head,
                    head.id == node_id,
                    head.hardware_key_id is None,
                    head.key_id == key_id,
                    store@.bridges == before.bridges.union(
                        planned_bridges(
                            head_plan + planned_children(*spec, key_id, first, i as nat),
                        ),
                    ),
                    values[node_id] == secret@,
                    forall|k: int|
                        1 <= k < added(store@.nodes, n0).len() ==> node_holds(
                            added(store@.nodes, n0),
                            registry@,
                            values,
                            #[trigger] added(store@.nodes, n0)[k],
                        ),
                    values_at(active_children(added(store@.nodes, n0), node_id), values)
                        == dealt.take(i as int),
                decreases children.len() - i,
            {
                let ghost earlier = store@;
                let ghost old_values = values;
                let ghost a = added(earlier.nodes, n0);
                let ghost so_far = head_plan + planned_children(*spec, key_id, first, i as nat);
                let ghost start = first + a.len();
                let ghost child = children@[i as int];
                proof {
                    lemma_faultless_child(registry@, *spec, children@.len(), i as int);
                    lemma_child_counts(*spec, (i + 1) as nat);
                    lemma_child_counts(*spec, i as nat);
                    lemma_planned_children(*spec, key_id, first, i as nat);
                    assert(a.len() == so_far.len());
                    assert(earlier.nodes.last() == a[a.len() - 1]);
                    assert(next_node_id(earlier.nodes) == start);
                    assert(decreases_to!(spec => children@[i as int]));
                    assert(earlier.nodes[n0 as int] == a[0]);
                    assert forall|k: int| 0 <= k < earlier.nodes.len() && node_id == (
                    #[trigger] earlier.nodes[k]).id implies earlier.nodes[k].hardware_key_id is None
                        && earlier.nodes[k].key_id == key_id by {
                        if k < n0 {
                            assert(earlier.nodes[k].id < earlier.nodes[n0 as int].id);
                        } else if k > n0 {
                            assert(earlier.nodes[n0 as int].id < earlier.nodes[k].id);
                        }
                    }
                }
                split_node(
                    store,
                    registry,
                    key_id,
                    Some(node_id),
                    shares[i].as_slice(),
                    &children[i],
                );
                proof {
                    let b = added(store@.nodes, earlier.nodes.len());
                    let child_plan = planned(child, key_id, Some(node_id), start);
                    let child_values = choose|v: Map<i64, Seq<u8>>| #[trigger]
                        stands_for(b, registry@, start, dealt[i as int], v);
                    assert(dealt[i as int] == shares@[i as int]@);
                    assert(stands_for(b, registry@, start, dealt[i as int], child_values));
                    lemma_planned(child, key_id, Some(node_id), start);
                    lemma_plan_grows(b, child_plan, Some(node_id), start);
                    lemma_graft(a, b, registry@, old_values, child_values, parent_id, first);
                    values = merged(old_values, child_values, start);
                    assert(added(store@.nodes, n0) =~= a + b) by {
                        assert(store@.nodes.take(earlier.nodes.len() as int) == earlier.nodes);
                        assert forall|k: int| 0 <= k < a.len() implies added(store@.nodes, n0)[k]
                            == a[k] by {
                            assert(store@.nodes.take(earlier.nodes.len() as int)[n0 + k]
                                == earlier.nodes[n0 + k]);
                        }
                    }
                    assert(store@.nodes.take(n0 as int) =~= before.nodes) by {
                        assert forall|k: int| 0 <= k < n0 implies store@.nodes[k]
                            == before.nodes[k] by {
                            assert(store@.nodes.take(earlier.nodes.len() as int)[k]
                                == earlier.nodes[k]);
                            assert(earlier.nodes.take(n0 as int)[k] == earlier.nodes[k]);
                        }
                    }
                    let longer = head_plan + planned_children(*spec, key_id, first, (i + 1) as nat);
                    assert(planned_children(*spec, key_id, first, i as nat).len() + 1 == a.len());
                    assert(longer =~= so_far + child_plan);
                    assert(follows_plan(a + b, longer)) by {
                        assert forall|k: int|
                            #![trigger (a + b)[k]]
                            #![trigger longer[k]]
                            0 <= k < (a + b).len() implies unsealed_row((a + b)[k])
                            == longer[k].row && ((a + b)[k].wrapped_share is Some <==> (a
                            + b)[k].hardware_key_id is Some) by {
                            if k < a.len() {
                                assert((a + b)[k] == a[k]);
                                assert(longer[k] == so_far[k]);
                            } else {
                                assert((a + b)[k] == b[k - a.len()]);
                                assert(longer[k] == child_plan[k - a.len()]);
                            }
                        }
                    }
                    lemma_plan_bridges_append(so_far, child_plan);
                    assert(store@.bridges =~= before.bridges.union(planned_bridges(longer)));
                    let kids = active_children(a, node_id);
                    assert(values_at(kids.push(start as i64), values) =~= dealt.take(i + 1)) by {
                        assert(values_at(kids, old_values).len() == dealt.take(i as int).len());
                        assert forall|k: int| 0 <= k < i implies values[#[trigger] kids[k]]
                            == dealt[k] by {
                            lemma_children_are_rows(a, node_id, k);
                            assert(values_at(kids, old_values)[k] == dealt.take(i as int)[k]);
                        }
                    }
                }
                i += 1;
            }
            proof {
                let rows = added(store@.nodes, n0);
                assert(dealt.take(i as int) =~= dealt);
                assert(plan =~= head_plan + planned_children(
                    *spec,
                    key_id,
                    first,
                    spec.children_view().len(),
                ));
                assert(share_the_secret(dealt, secret@, *threshold)) by {
                    assert forall|x: int, y: int| 0 <= x < y < dealt.len() implies (
                    #[trigger] dealt[x])[0] != (#[trigger] dealt[y])[0] by {
                        assert(shares@[x]@[0] == x + 1);
                        assert(shares@[y]@[0] == y + 1);
                    }
                    assert forall|k: int| 0 <= k < dealt.len() implies (#[trigger] dealt[k]).len()
                        == secret@.len() + 1 && dealt[k][0] != 0 by {
                        assert(shares@[k]@.len() == secret@.len() + 1);
                    }
                    if *threshold >= 1 {
                        lemma_dealt_from(dealt, secret@, *threshold);
                    }
                }
                assert(node_holds(rows, registry@, values, rows[0]));
                assert forall|k: int| 0 <= k < rows.len() implies node_holds(
                    rows,
                    registry@,
                    values,
                    #[trigger] rows[k],
                ) by {}
                assert(stands_for(rows, registry@, first, secret@, values));
            }
        },
    }
}

/// Why a secret cannot be split along a spec, if it cannot: the spec has a
/// fault, or would have one permission inserted twice.
pub open spec fn split_fault(keys: Seq<HardwareKeyView>, spec: NodeSpec) -> Option<Error> {
    match spec_fault(keys, spec) {
        Some(e) => Some(e),
        None => if peers_repeat(spec) {
            Some(Error::Db(StoreError::NodePeer))
        } else {
            None
        },
    }
}

/// Creates a secret and its whole tree: deals the secret at each split, and
/// seals each leaf's share to its hardware key. If the spec has a fault,
/// nothing changes.
///
/// Shares and sealed boxes are drawn at random. Whatever was drawn, the nodes
/// stand for values of which the root's is the secret.
#[verifier::rlimit(40)]
pub fn split(
    store: &mut TreeStore,
    registry: &KeyRegistry,
    label: &str,
    secret: &[u8],
    spec: &NodeSpec,
) -> (r: Result<i64, Error>)
    requires
        old(store).wf(),
        registry_wf(registry@),
        next_key_id(old(store)@.keys) <= i64::MAX,
        next_node_id(old(store)@.nodes) + node_count(*spec) <= i64::MAX,
    ensures
        final(store).wf(),
        fault_of(r) == split_fault(registry@, *spec),
        r is Err ==> *final(store) == *old(store),
        r matches Ok(key_id) ==> {
            let first = next_node_id(old(store)@.nodes);
            let plan = planned(*spec, key_id, None, first);
            let rows = added(final(store)@.nodes, old(store)@.nodes.len());
            &&& key_id == next_key_id(old(store)@.keys)
            &&& final(store)@.keys == old(store)@.keys.push(
                KeyRowView { id: key_id, label: label@ },
            )
            &&& final(store)@.links == old(store)@.links
            &&& final(store)@.bridges == old(store)@.bridges.union(planned_bridges(plan))
            &&& final(store)@.nodes == old(store)@.nodes + rows
            &&& key_rows(final(store)@.nodes, key_id) == rows
            &&& follows_plan(rows, plan)
            &&& loaded(final(store)@, key_id) is Ok
            &&& whole(final(store)@.nodes, key_id)
            &&& exists|values: Map<i64, Seq<u8>>|
                values[first as i64] == secret@ && #[trigger] tree_holds(
                    final(store)@.nodes,
                    key_id,
                    registry@,
                    values,
                )
        },
{
    match validate(registry, spec) {
        Ok(()) => {},
        Err(e) => { return Err(e); },
    }
    if names_a_peer_twice(spec) {
        return Err(Error::Db(StoreError::NodePeer));
    }
    let ghost before = store@;
    let ghost n0 = before.nodes.len();
    let ghost first = next_node_id(before.nodes);
    let count: usize = store.keys.len();
    let key_id: i64 = if count == 0 {
        1
    } else {
        assert(before.keys[count - 1] == store.keys@[count - 1]@);
        store.keys[count - 1].id + 1
    };
    store.push_key(KeyRow { id: key_id, label: label.to_owned() });
    assert(store@.keys[count as int].id == key_id);
    let ghost middle = store@;
    split_node(store, registry, key_id, None, secret, spec);
    proof {
        let plan = planned(*spec, key_id, None, first);
        let rows = added(store@.nodes, n0);
        let nodes = store@.nodes;
        assert(nodes =~= before.nodes + rows) by {
            assert forall|k: int| 0 <= k < n0 implies nodes[k] == before.nodes[k] by {
                assert(nodes.take(n0 as int)[k] == nodes[k]);
            }
        }
        let values = choose|values: Map<i64, Seq<u8>>| #[trigger]
            stands_for(rows, registry@, first, secret@, values);
        lemma_planned(*spec, key_id, None, first);
        lemma_plan_grows(rows, plan, None, first);
        lemma_planned_splits(*spec, key_id, None, first);
        lemma_planted_tree_holds(before.nodes, rows, before.keys, key_id, registry@, values, first);
        lemma_planted_tree_loads(before.nodes, rows, before.keys, key_id, *spec, first);
        lemma_planted_tree_is_whole(before.nodes, rows, before.keys, key_id, plan, first);
    }
    Ok(key_id)
}

proof fn lemma_planted_tree_holds(
    before: Seq<NodeRowView>,
    rows: Seq<NodeRowView>,
    stored_keys: Seq<KeyRowView>,
    key_id: i64,
    keys: Seq<HardwareKeyView>,
    values: Map<i64, Seq<u8>>,
    first: int,
)
    requires
        keys_ordered(stored_keys),
        nodes_ordered(before),
        forall|i: int| 0 <= i < before.len() ==> key_exists(stored_keys, (#[trigger] before[i]).key_id),
        key_id == next_key_id(stored_keys),
        first == next_node_id(before),
        grown_from(rows, None, first),
        all_hold(rows, keys, values),
    ensures
        tree_holds(before + rows, key_id, keys, values),
{
    let nodes = before + rows;
    assert forall|i: int| 0 <= i < nodes.len() && (#[trigger] nodes[i]).key_id
        == key_id implies node_holds(nodes, keys, values, nodes[i]) by {
        if i < before.len() {
            assert(nodes[i] == before[i]);
            let k = choose|k: int|
                0 <= k < stored_keys.len() && (#[trigger] stored_keys[k]).id == before[i].key_id;
            if k < stored_keys.len() - 1 {
                assert(stored_keys[k].id < stored_keys[stored_keys.len() - 1].id);
            }
            assert(false);
        } else {
            let j = i - before.len();
            let id = rows[j].id;
            assert(nodes[i] == rows[j]);
            assert(id == first + j);
            assert forall|k: int| 0 <= k < before.len() implies (#[trigger] before[k]).parent_id
                != Some(id) by {
                if k < before.len() - 1 {
                    assert(before[k].id < before[before.len() - 1].id);
                }
            }
            lemma_children_append(before, rows, id);
            lemma_no_children(before, id);
            assert(active_children(nodes, id) =~= active_children(rows, id));
            assert(node_holds(rows, keys, values, rows[j]));
        }
    }
}

proof fn lemma_planted_tree_is_whole(
    before: Seq<NodeRowView>,
    rows: Seq<NodeRowView>,
    stored_keys: Seq<KeyRowView>,
    key_id: i64,
    plan: Seq<Planned>,
    first: int,
)
    requires
        keys_ordered(stored_keys),
        forall|i: int| 0 <= i < before.len() ==> key_exists(stored_keys, (#[trigger] before[i]).key_id),
        key_id == next_key_id(stored_keys),
        grown_from(rows, None, first),
        follows_plan(rows, plan),
        forall|k: int|
            0 <= k < plan.len() ==> ((#[trigger] plan[k]).row.hardware_key_id is None
                ==> plan[k].row.threshold is Some),
    ensures
        whole(before + rows, key_id),
{
    let nodes = before + rows;
    assert forall|i: int| 0 <= i < nodes.len() && (#[trigger] nodes[i]).key_id == key_id implies i
        >= before.len() && nodes[i] == rows[i - before.len()] by {
        if i < before.len() {
            assert(nodes[i] == before[i]);
            let k = choose|k: int|
                0 <= k < stored_keys.len() && (#[trigger] stored_keys[k]).id == before[i].key_id;
            if k < stored_keys.len() - 1 {
                assert(stored_keys[k].id < stored_keys[stored_keys.len() - 1].id);
            }
        }
    }
    assert forall|i: int|
        0 <= i < nodes.len() && (#[trigger] nodes[i]).key_id == key_id && nodes[i].hardware_key_id
            is None implies nodes[i].is_active && nodes[i].threshold is Some by {
        let k = i - before.len();
        assert(nodes[i] == rows[k]);
        assert(unsealed_row(rows[k]) == plan[k].row);
    }
}

/// What a plan has no key for is a split.
proof fn lemma_planned_splits(spec: NodeSpec, key_id: i64, parent: Option<i64>, first: int)
    ensures
        forall|k: int|
            0 <= k < planned(spec, key_id, parent, first).len() ==> ((#[trigger] planned(
                spec,
                key_id,
                parent,
                first,
            )[k]).row.hardware_key_id is None ==> planned(
                spec,
                key_id,
                parent,
                first,
            )[k].row.threshold is Some),
    decreases spec, spec.children_view().len() + 1,
{
    let n = spec.children_view().len();
    lemma_planned_children_splits(spec, key_id, first, n);
    let plan = planned(spec, key_id, parent, first);
    let below = planned_children(spec, key_id, first, n);
    assert forall|k: int| 0 <= k < plan.len() && (#[trigger] plan[k]).row.hardware_key_id
        is None implies plan[k].row.threshold is Some by {
        if k > 0 {
            assert(plan[k] == below[k - 1]);
        }
    }
}

proof fn lemma_planned_children_splits(spec: NodeSpec, key_id: i64, first: int, n: nat)
    requires
        n <= spec.children_view().len(),
    ensures
        forall|k: int|
            0 <= k < planned_children(spec, key_id, first, n).len() ==> ((
            #[trigger] planned_children(spec, key_id, first, n)[k]).row.hardware_key_id is None
                ==> planned_children(spec, key_id, first, n)[k].row.threshold is Some),
    decreases spec, n,
{
    if n > 0 {
        let m = (n - 1) as nat;
        lemma_planned_children_splits(spec, key_id, first, m);
        let before = planned_children(spec, key_id, first, m);
        let child = spec.children_view()[m as int];
        assert(decreases_to!(spec => child));
        let start = first + 1 + before.len();
        lemma_planned_splits(child, key_id, Some(first as i64), start);
        let plan = planned(child, key_id, Some(first as i64), start);
        let all = planned_children(spec, key_id, first, n);
        assert forall|k: int| 0 <= k < all.len() && (#[trigger] all[k]).row.hardware_key_id
            is None implies all[k].row.threshold is Some by {
            if k < before.len() {
                assert(all[k] == before[k]);
            } else {
                assert(all[k] == plan[k - before.len()]);
            }
        }
    }
}

proof fn lemma_plan_labels(spec: NodeSpec, key_id: i64, parent: Option<i64>, first: int)
    ensures
        plan_labels(planned(spec, key_id, parent, first)) == spec_labels(spec),
        forall|k: int|
            0 <= k < planned(spec, key_id, parent, first).len() ==> (#[trigger] planned(
                spec,
                key_id,
                parent,
                first,
            )[k]).row.key_id == key_id,
    decreases spec, spec.children_view().len() + 1,
{
    let n = spec.children_view().len();
    lemma_plan_children_labels(spec, key_id, first, n);
    let plan = planned(spec, key_id, parent, first);
    let below = planned_children(spec, key_id, first, n);
    assert(plan_labels(plan) =~= seq![spec.label_view()] + plan_labels(below));
    assert forall|k: int| 0 <= k < plan.len() implies (#[trigger] plan[k]).row.key_id == key_id by {
        if k > 0 {
            assert(plan[k] == below[k - 1]);
        }
    }
}

proof fn lemma_plan_children_labels(spec: NodeSpec, key_id: i64, first: int, n: nat)
    requires
        n <= spec.children_view().len(),
    ensures
        plan_labels(planned_children(spec, key_id, first, n)) == children_labels(spec, n),
        forall|k: int|
            0 <= k < planned_children(spec, key_id, first, n).len() ==> (
            #[trigger] planned_children(spec, key_id, first, n)[k]).row.key_id == key_id,
    decreases spec, n,
{
    if n == 0 {
        assert(plan_labels(planned_children(spec, key_id, first, 0)) =~= children_labels(spec, 0));
    } else {
        let m = (n - 1) as nat;
        lemma_plan_children_labels(spec, key_id, first, m);
        let before = planned_children(spec, key_id, first, m);
        let child = spec.children_view()[m as int];
        assert(decreases_to!(spec => child));
        let start = first + 1 + before.len();
        lemma_plan_labels(child, key_id, Some(first as i64), start);
        let plan = planned(child, key_id, Some(first as i64), start);
        let all = planned_children(spec, key_id, first, n);
        assert(plan_labels(all) =~= plan_labels(before) + plan_labels(plan));
        assert forall|k: int| 0 <= k < all.len() implies (#[trigger] all[k]).row.key_id
            == key_id by {
            if k < before.len() {
                assert(all[k] == before[k]);
            } else {
                assert(all[k] == plan[k - before.len()]);
            }
        }
    }
}

#[verifier::spinoff_prover]
#[verifier::rlimit(30)]
proof fn lemma_planted_tree_loads(
    before: Seq<NodeRowView>,
    rows: Seq<NodeRowView>,
    stored_keys: Seq<KeyRowView>,
    key_id: i64,
    spec: NodeSpec,
    first: int,
)
    requires
        keys_ordered(stored_keys),
        forall|i: int| 0 <= i < before.len() ==> key_exists(stored_keys, (#[trigger] before[i]).key_id),
        key_id == next_key_id(stored_keys),
        grown_from(rows, None, first),
        follows_plan(rows, planned(spec, key_id, None, first)),
        labels_distinct(spec_labels(spec)),
    ensures
        key_rows(before + rows, key_id) == rows,
        !labels_repeat(rows),
        !parent_missing(rows),
{
    let plan = planned(spec, key_id, None, first);
    let own = |row: NodeRowView| row.key_id == key_id;
    lemma_plan_labels(spec, key_id, None, first);
    assert forall|k: int| 0 <= k < rows.len() implies own(#[trigger] rows[k]) && rows[k].label
        == spec_labels(spec)[k] by {
        assert(plan[k].row.key_id == key_id);
        assert(plan_labels(plan)[k] == plan[k].row.label);
        assert(unsealed_row(rows[k]) == plan[k].row);
    }
    assert(key_rows(before + rows, key_id) == rows) by {
        assert forall|i: int| 0 <= i < before.len() implies !own(#[trigger] before[i]) by {
            let k = choose|k: int|
                0 <= k < stored_keys.len() && (#[trigger] stored_keys[k]).id == before[i].key_id;
            if k < stored_keys.len() - 1 {
                assert(stored_keys[k].id < stored_keys[stored_keys.len() - 1].id);
            }
        }
        lemma_filter_none(before, own);
        lemma_filter_all(rows, own);
        Seq::filter_distributes_over_add(before, rows, own);
        assert(key_rows(before + rows, key_id) =~= rows);
    }
    assert forall|i: int, j: int| 0 <= i < j < rows.len() implies (#[trigger] rows[i]).label != (
    #[trigger] rows[j]).label by {
        assert(spec_labels(spec)[i] != spec_labels(spec)[j]);
    }
    assert forall|k: int| 0 <= k < rows.len() implies match (#[trigger] rows[k]).parent_id {
        Some(p) => node_exists(rows, p),
        None => true,
    } by {
        if k > 0 {
            let p = rows[k].parent_id->0;
            assert(rows[p - first].id == p);
        }
    }
}

proof fn lemma_filter_none<T>(s: Seq<T>, pred: spec_fn(T) -> bool)
    requires
        forall|i: int| 0 <= i < s.len() ==> !pred(#[trigger] s[i]),
    ensures
        s.filter(pred) == Seq::<T>::empty(),
    decreases s.len(),
{
    reveal(Seq::filter);
    if s.len() > 0 {
        assert forall|i: int| 0 <= i < s.drop_last().len() implies !pred(
            #[trigger] s.drop_last()[i],
        ) by {
            assert(s.drop_last()[i] == s[i]);
        }
        lemma_filter_none(s.drop_last(), pred);
        assert(!pred(s[s.len() - 1]));
    }
    assert(s.filter(pred) =~= Seq::<T>::empty());
}

proof fn lemma_filter_all<T>(s: Seq<T>, pred: spec_fn(T) -> bool)
    requires
        forall|i: int| 0 <= i < s.len() ==> pred(#[trigger] s[i]),
    ensures
        s.filter(pred) == s,
    decreases s.len(),
{
    reveal(Seq::filter);
    if s.len() > 0 {
        assert forall|i: int| 0 <= i < s.drop_last().len() implies pred(
            #[trigger] s.drop_last()[i],
        ) by {
            assert(s.drop_last()[i] == s[i]);
        }
        lemma_filter_all(s.drop_last(), pred);
        assert(pred(s[s.len() - 1]));
        assert(s =~= s.drop_last().push(s.last()));
    }
    assert(s.filter(pred) =~= s);
}

proof fn lemma_single_plan_bridges(node: Planned)
    ensures
        planned_bridges(seq![node]) == Set::new(
            |p: (i64, Seq<char>)| p.0 == node.row.id && node.peers.contains(p.1),
        ),
{
    let one = seq![node];
    assert forall|p: (i64, Seq<char>)|
        planned_bridges(one).contains(p) <==> (p.0 == node.row.id && node.peers.contains(p.1)) by {
        if p.0 == node.row.id && node.peers.contains(p.1) {
            assert(one[0].row.id == p.0);
        }
    }
    assert(planned_bridges(one) =~= Set::new(
        |p: (i64, Seq<char>)| p.0 == node.row.id && node.peers.contains(p.1),
    ));
}

} // verus!
