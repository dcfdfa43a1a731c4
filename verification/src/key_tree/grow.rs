//! Adding a leaf to a split.

use std::collections::HashMap;

use vstd::prelude::*;

use crate::bytes::{byte_views, copy_bytes};
use crate::error::{fault_of, Error};
use crate::keys::{active_encryption_key, get_active_encryption_key, key_place, key_with_id,
    registry_wf, HardwareKeyView, KeyRegistry};
use crate::key_tree::bridges::{labelled_place, lemma_label_agrees};
use crate::key_tree::holding::share_the_secret;
use crate::key_tree::mutate::{recover_secret, secret_from};
use crate::key_tree::reconstruct::share_views;
use crate::key_tree::split::seal_share;
use crate::key_tree::store::{
    key_exists, next_node_id, nodes_ordered, resealed, NodeRow, NodeRowView, TreeStore,
    TreeStoreView,
};
use crate::key_tree::tree::{child_places, key_rows, lemma_child_places, lemma_rows_ordered, loaded,
    shape_of_row, shape_of_rows, KeyQuorumTree, TreeShape};
use crate::sealing::{opens_to, KEY_LEN};
use crate::shamir::{deal, lemma_dealt_from};

verus! {

broadcast use vstd::std_specs::hash::group_hash_axioms;

/// The places of the active children among the first `n`, without the one at
/// `except`, if all of them are leaves.
pub open spec fn leaves_below(t: TreeShape, p: int, except: int, n: nat) -> Option<Seq<int>>
    decreases n,
{
    if n == 0 {
        Some(Seq::empty())
    } else {
        match leaves_below(t, p, except, (n - 1) as nat) {
            None => None,
            Some(before) => {
                let child = t.nodes[p].children[n - 1];
                if child == except || !t.nodes[child].is_active {
                    Some(before)
                } else if t.nodes[child].hardware_key_id is None {
                    None
                } else {
                    Some(before.push(child))
                }
            },
        }
    }
}

pub open spec fn ids_at(t: TreeShape, at: Seq<int>) -> Seq<i64> {
    Seq::new(at.len(), |k: int| t.nodes[at[k]].db_id)
}

pub open spec fn hardware_at(t: TreeShape, at: Seq<int>) -> Seq<i64> {
    Seq::new(at.len(), |k: int| t.nodes[at[k]].hardware_key_id->0)
}

/// The shares that were presented for the first `n` ids, in order.
pub open spec fn presented_for(ids: Seq<i64>, presented: Map<i64, Seq<u8>>, n: nat) -> Seq<Seq<u8>>
    decreases n,
{
    if n == 0 {
        Seq::empty()
    } else {
        let before = presented_for(ids, presented, (n - 1) as nat);
        if presented.contains_key(ids[n - 1]) {
            before.push(presented[ids[n - 1]])
        } else {
            before
        }
    }
}

/// Why one of the first `n` hardware keys cannot back a leaf, if one cannot.
pub open spec fn hardware_fault(keys: Seq<HardwareKeyView>, hardware: Seq<i64>, n: nat) -> Option<Error>
    decreases n,
{
    if n == 0 {
        None
    } else {
        match hardware_fault(keys, hardware, (n - 1) as nat) {
            Some(e) => Some(e),
            None => fault_of(active_encryption_key(keys, hardware[n - 1])),
        }
    }
}

/// Where a new leaf goes: the split, its leaves, and the value to deal anew.
#[verifier::ext_equal]
pub struct GrowthView {
    pub parent_id: i64,
    pub threshold: u8,
    pub leaf_ids: Seq<i64>,
    pub leaf_hardware: Seq<i64>,
    pub secret: Seq<u8>,
}

/// Where a new leaf goes, or why there can be none.
pub open spec fn growth(
    s: TreeStoreView,
    keys: Seq<HardwareKeyView>,
    key_id: i64,
    parent_label: Seq<char>,
    new_label: Seq<char>,
    new_hardware_id: i64,
    presented: Map<i64, Seq<u8>>,
) -> Result<GrowthView, Error> {
    if new_label.len() == 0 {
        Err(Error::DuplicateNodeLabel)
    } else {
        match loaded(s, key_id) {
            Err(e) => Err(e),
            Ok(t) => if labelled_place(t, new_label) is Some {
                Err(Error::DuplicateNodeLabel)
            } else {
                match labelled_place(t, parent_label) {
                    None => Err(Error::NodeNotFound),
                    Some(p) => match (
                        t.nodes[p].threshold,
                        leaves_below(t, p, -1, t.nodes[p].children.len()),
                    ) {
                        (Some(threshold), Some(at)) => growth_at(
                            t,
                            keys,
                            p,
                            threshold,
                            at,
                            new_hardware_id,
                            presented,
                        ),
                        _ => Err(Error::CannotAddLeaf),
                    },
                }
            },
        }
    }
}

/// The same, once the split and its leaves are known.
pub open spec fn growth_at(
    t: TreeShape,
    keys: Seq<HardwareKeyView>,
    p: int,
    threshold: int,
    at: Seq<int>,
    new_hardware_id: i64,
    presented: Map<i64, Seq<u8>>,
) -> Result<GrowthView, Error> {
    let raws = presented_for(ids_at(t, at), presented, at.len());
    if at.len() + 1 > 255 || threshold > at.len() + 1 {
        Err(Error::CannotAddLeaf)
    } else if raws.len() < threshold {
        Err(Error::QuorumNotMet)
    } else {
        match secret_from(threshold as u8, raws) {
            Err(e) => Err(e),
            Ok(secret) => match active_encryption_key(keys, new_hardware_id) {
                Err(e) => Err(e),
                Ok(_) => match hardware_fault(keys, hardware_at(t, at), at.len()) {
                    Some(e) => Err(e),
                    None => Ok(
                        GrowthView {
                            parent_id: t.nodes[p].db_id,
                            threshold: threshold as u8,
                            leaf_ids: ids_at(t, at),
                            leaf_hardware: hardware_at(t, at),
                            secret,
                        },
                    ),
                },
            },
        }
    }
}

/// The split's value was dealt anew: its leaves hold new sealed shares, and the
/// new leaf holds the last one.
pub open spec fn grown(
    before: TreeStoreView,
    after: TreeStoreView,
    keys: Seq<HardwareKeyView>,
    key_id: i64,
    new_label: Seq<char>,
    new_hardware_id: i64,
    plan: GrowthView,
    shares: Seq<Seq<u8>>,
    sealed: Seq<Seq<u8>>,
) -> bool {
    let n = plan.leaf_ids.len();
    &&& shares.len() == n + 1
    &&& sealed.len() == n + 1
    &&& share_the_secret(shares, plan.secret, plan.threshold)
    &&& forall|k: int|
        0 <= k < n ==> opens_to(
            #[trigger] sealed[k],
            (key_with_id(keys, plan.leaf_hardware[k])->Ok_0).public_key,
            shares[k],
        )
    &&& opens_to(
        sealed[n as int],
        (key_with_id(keys, new_hardware_id)->Ok_0).public_key,
        shares[n as int],
    )
    &&& after.keys == before.keys
    &&& after.bridges == before.bridges
    &&& after.links == before.links
    &&& after.nodes.len() == before.nodes.len() + 1
    &&& resealed(before.nodes, after.nodes.drop_last(), plan.leaf_ids, sealed.take(n as int))
    &&& after.nodes.last() == (NodeRowView {
        id: next_node_id(before.nodes) as i64,
        key_id,
        parent_id: Some(plan.parent_id),
        label: new_label,
        threshold: None,
        hardware_key_id: Some(new_hardware_id),
        wrapped_share: Some(sealed[n as int]),
        is_active: true,
    })
}

/// Where a new leaf goes.
struct Growth {
    parent_id: i64,
    threshold: u8,
    leaf_ids: Vec<i64>,
    leaf_hardware: Vec<i64>,
    secret: Vec<u8>,
}

impl View for Growth {
    type V = GrowthView;

    closed spec fn view(&self) -> GrowthView {
        GrowthView {
            parent_id: self.parent_id,
            threshold: self.threshold,
            leaf_ids: self.leaf_ids@,
            leaf_hardware: self.leaf_hardware@,
            secret: self.secret@,
        }
    }
}

/// Ids and hardware keys of some leaves.
pub(crate) struct LeafList {
    pub ids: Vec<i64>,
    pub hardware: Vec<i64>,
}

impl KeyQuorumTree {
    /// The active children of a node, without one of them, if all are leaves.
    pub(crate) fn active_leaves(&self, p: usize, except: Option<usize>) -> (r: Option<LeafList>)
        requires
            self@.wf(),
            p < self@.nodes.len(),
        ensures
            ({
                let without = match except {
                    Some(e) => e as int,
                    None => -1,
                };
                match (
                    r,
                    leaves_below(self@, p as int, without, self@.nodes[p as int].children.len()),
                ) {
                    (Some(list), Some(at)) => list.ids@ == ids_at(self@, at) && list.hardware@
                        == hardware_at(self@, at),
                    (None, None) => true,
                    _ => false,
                }
            }),
    {
        let ghost t = self@;
        let ghost without: int = match except {
            Some(e) => e as int,
            None => -1,
        };
        assert(t.nodes[p as int] == self.nodes@[p as int]@);
        let mut ids: Vec<i64> = Vec::new();
        let mut hardware: Vec<i64> = Vec::new();
        let mut k: usize = 0;
        proof {
            assert(ids@ =~= ids_at(t, Seq::<int>::empty()));
            assert(hardware@ =~= hardware_at(t, Seq::<int>::empty()));
        }
        while k < self.nodes[p].children_indices.len()
            invariant
                t == self@,
                t.wf(),
                t.nodes.len() == self.nodes@.len(),
                p < t.nodes.len(),
                t.nodes[p as int] == self.nodes@[p as int]@,
                without == (match except {
                    Some(e) => e as int,
                    None => -1,
                }),
                k <= self.nodes@[p as int].children_indices@.len(),
                leaves_below(t, p as int, without, k as nat) is Some,
                ids@ == ids_at(t, leaves_below(t, p as int, without, k as nat)->0),
                hardware@ == hardware_at(t, leaves_below(t, p as int, without, k as nat)->0),
            decreases self.nodes@[p as int].children_indices@.len() - k,
        {
            let child: usize = self.nodes[p].children_indices[k];
            assert(t.nodes[p as int].children[k as int] == child);
            assert(t.nodes[child as int] == self.nodes@[child as int]@);
            let ghost before = leaves_below(t, p as int, without, k as nat)->0;
            let skipped = match except {
                Some(e) => child == e,
                None => false,
            };
            if !skipped && self.nodes[child].is_active {
                match self.nodes[child].hardware_key_id {
                    None => {
                        proof {
                            lemma_no_leaves_stays(t, p as int, without, (k + 1) as nat);
                        }
                        return None;
                    },
                    Some(hardware_key_id) => {
                        ids.push(self.nodes[child].db_id);
                        hardware.push(hardware_key_id);
                        assert(ids@ =~= ids_at(t, before.push(child as int)));
                        assert(hardware@ =~= hardware_at(t, before.push(child as int)));
                    },
                }
            }
            k += 1;
        }
        Some(LeafList { ids, hardware })
    }
}

proof fn lemma_no_leaves_stays(t: TreeShape, p: int, except: int, n: nat)
    requires
        n <= t.nodes[p].children.len(),
        leaves_below(t, p, except, n) is None,
    ensures
        leaves_below(t, p, except, t.nodes[p].children.len()) is None,
    decreases t.nodes[p].children.len() - n,
{
    if n < t.nodes[p].children.len() {
        lemma_no_leaves_stays(t, p, except, n + 1);
    }
}

proof fn lemma_hardware_fault_stays(keys: Seq<HardwareKeyView>, hardware: Seq<i64>, n: nat)
    requires
        n <= hardware.len(),
        hardware_fault(keys, hardware, n) is Some,
    ensures
        hardware_fault(keys, hardware, hardware.len()) == hardware_fault(keys, hardware, n),
    decreases hardware.len() - n,
{
    if n < hardware.len() {
        lemma_hardware_fault_stays(keys, hardware, n + 1);
    }
}

pub(crate) proof fn lemma_hardware_sound(
    keys: Seq<HardwareKeyView>,
    hardware: Seq<i64>,
    n: nat,
    k: int,
)
    requires
        n <= hardware.len(),
        hardware_fault(keys, hardware, n) is None,
        0 <= k < n,
    ensures
        active_encryption_key(keys, hardware[k]) is Ok,
    decreases n,
{
    if k < n - 1 {
        lemma_hardware_sound(keys, hardware, (n - 1) as nat, k);
    }
}

/// Whether all the hardware keys can back a leaf.
pub(crate) fn require_active_hardware(registry: &KeyRegistry, hardware: &Vec<i64>) -> (r: Result<
    (),
    Error,
>)
    requires
        registry_wf(registry@),
    ensures
        fault_of(r) == hardware_fault(registry@, hardware@, hardware@.len()),
{
    let mut i: usize = 0;
    while i < hardware.len()
        invariant
            i <= hardware.len(),
            registry_wf(registry@),
            hardware_fault(registry@, hardware@, i as nat) is None,
        decreases hardware.len() - i,
    {
        match get_active_encryption_key(registry, hardware[i]) {
            Ok(_) => {},
            Err(e) => {
                proof {
                    lemma_hardware_fault_stays(registry@, hardware@, (i + 1) as nat);
                }
                return Err(e);
            },
        }
        i += 1;
    }
    Ok(())
}

fn collect_presented(ids: &Vec<i64>, presented: &HashMap<i64, Vec<u8>>) -> (r: Vec<Vec<u8>>)
    ensures
        byte_views(r@) == presented_for(ids@, share_views(presented@), ids@.len()),
{
    let ghost shares = share_views(presented@);
    let mut raws: Vec<Vec<u8>> = Vec::new();
    let mut i: usize = 0;
    assert(byte_views(raws@) =~= presented_for(ids@, shares, 0));
    while i < ids.len()
        invariant
            i <= ids.len(),
            shares == share_views(presented@),
            byte_views(raws@) == presented_for(ids@, shares, i as nat),
        decreases ids.len() - i,
    {
        match presented.get(&ids[i]) {
            Some(raw) => {
                let ghost before = byte_views(raws@);
                let copy = copy_bytes(raw.as_slice());
                raws.push(copy);
                assert(byte_views(raws@) =~= before.push(shares[ids@[i as int]]));
            },
            None => {},
        }
        i += 1;
    }
    raws
}

fn plan_growth(
    store: &TreeStore,
    registry: &KeyRegistry,
    key_id: i64,
    parent_label: &str,
    new_label: &str,
    new_hardware_id: i64,
    presented: &HashMap<i64, Vec<u8>>,
) -> (r: Result<Growth, Error>)
    requires
        store.wf(),
        registry_wf(registry@),
    ensures
        match (
            r,
            growth(
                store@,
                registry@,
                key_id,
                parent_label@,
                new_label@,
                new_hardware_id,
                share_views(presented@),
            ),
        ) {
            (Ok(plan), Ok(view)) => plan@ == view,
            (Err(e), Err(expected)) => e == expected,
            _ => false,
        },
{
    if new_label.is_empty() {
        return Err(Error::DuplicateNodeLabel);
    }
    let tree = match KeyQuorumTree::load(store, key_id) {
        Ok(tree) => tree,
        Err(e) => { return Err(e); },
    };
    proof {
        lemma_label_agrees(store@, key_id, new_label@);
        lemma_label_agrees(store@, key_id, parent_label@);
    }
    match tree.index_by_label(new_label) {
        Ok(_) => { return Err(Error::DuplicateNodeLabel); },
        Err(_) => {},
    }
    let parent_idx: usize = match tree.index_by_label(parent_label) {
        Ok(i) => i,
        Err(e) => { return Err(e); },
    };
    assert(tree@.nodes[parent_idx as int] == tree.nodes@[parent_idx as int]@);
    let threshold: usize = match tree.nodes[parent_idx].threshold {
        Some(threshold) => threshold,
        None => { return Err(Error::CannotAddLeaf); },
    };
    let leaves = match tree.active_leaves(parent_idx, None) {
        Some(leaves) => leaves,
        None => { return Err(Error::CannotAddLeaf); },
    };
    if leaves.ids.len() >= 255 || threshold > leaves.ids.len() + 1 {
        return Err(Error::CannotAddLeaf);
    }
    let raws = collect_presented(&leaves.ids, presented);
    assert(byte_views(raws@).len() == raws@.len());
    if raws.len() < threshold {
        return Err(Error::QuorumNotMet);
    }
    let secret = match recover_secret(threshold as u8, &raws) {
        Ok(secret) => secret,
        Err(e) => { return Err(e); },
    };
    match get_active_encryption_key(registry, new_hardware_id) {
        Ok(_) => {},
        Err(e) => { return Err(e); },
    }
    match require_active_hardware(registry, &leaves.hardware) {
        Ok(()) => {},
        Err(e) => { return Err(e); },
    }
    let plan = Growth {
        parent_id: tree.nodes[parent_idx].db_id,
        threshold: threshold as u8,
        leaf_ids: leaves.ids,
        leaf_hardware: leaves.hardware,
        secret,
    };
    Ok(plan)
}

/// Gathered leaves stand at ascending places below the split.
pub(crate) proof fn lemma_leaves_below(
    rows: Seq<NodeRowView>,
    bridges: Set<(i64, Seq<char>)>,
    p: int,
    except: int,
    n: nat,
)
    requires
        nodes_ordered(rows),
        0 <= p < rows.len(),
        n <= child_places(rows, rows[p].id).len(),
        leaves_below(shape_of_rows(rows, bridges), p, except, n) is Some,
    ensures
        ({
            let at = leaves_below(shape_of_rows(rows, bridges), p, except, n)->0;
            &&& forall|k: int|
                0 <= k < at.len() ==> {
                    &&& 0 <= #[trigger] at[k] < rows.len()
                    &&& rows[at[k]].parent_id == Some(rows[p].id)
                    &&& rows[at[k]].is_active
                    &&& rows[at[k]].hardware_key_id is Some
                    &&& at[k] != except
                }
            &&& forall|k: int|
                0 <= k < at.len() ==> n > 0 && (#[trigger] at[k]) <= child_places(
                    rows,
                    rows[p].id,
                )[n - 1]
            &&& forall|k: int, m: int|
                0 <= k < m < at.len() ==> (#[trigger] at[k]) < (#[trigger] at[m])
            &&& forall|m: int|
                0 <= m < n && rows[#[trigger] child_places(rows, rows[p].id)[m]].is_active
                    && child_places(rows, rows[p].id)[m] != except ==> at.contains(
                    child_places(rows, rows[p].id)[m],
                )
        }),
    decreases n,
{
    let t = shape_of_rows(rows, bridges);
    let kids = child_places(rows, rows[p].id);
    assert(t.nodes[p] == shape_of_row(rows, bridges, p));
    lemma_child_places(rows, rows[p].id);
    if n > 0 {
        let m = (n - 1) as nat;
        lemma_leaves_below(rows, bridges, p, except, m);
        let before = leaves_below(t, p, except, m)->0;
        let at = leaves_below(t, p, except, n)->0;
        let child = kids[m as int];
        assert(t.nodes[p].children[m as int] == child);
        assert(t.nodes[child] == shape_of_row(rows, bridges, child));
        assert forall|k: int| 0 <= k < before.len() implies #[trigger] before[k] < child by {
            assert(before[k] <= kids[m - 1]);
            assert(kids[m - 1] < kids[m as int]);
        }
        assert forall|q: int| 0 <= q < n && rows[#[trigger] kids[q]].is_active && kids[q]
            != except implies at.contains(kids[q]) by {
            if q < m {
                let k = choose|k: int| 0 <= k < before.len() && before[k] == kids[q];
                assert(at[k] == kids[q]);
            } else {
                assert(at[at.len() - 1] == child);
            }
        }
        assert forall|k: int| 0 <= k < at.len() implies {
            &&& 0 <= #[trigger] at[k] < rows.len()
            &&& rows[at[k]].parent_id == Some(rows[p].id)
            &&& rows[at[k]].is_active
            &&& rows[at[k]].hardware_key_id is Some
            &&& at[k] != except
            &&& at[k] <= child
        } by {
            if k < before.len() {
                assert(at[k] == before[k]);
            }
        }
    }
}

/// Ids at ascending places are different.
pub(crate) proof fn lemma_ids_distinct(t: TreeShape, rows: Seq<NodeRowView>, at: Seq<int>)
    requires
        nodes_ordered(rows),
        t.nodes.len() == rows.len(),
        forall|i: int| 0 <= i < rows.len() ==> (#[trigger] t.nodes[i]).db_id == rows[i].id,
        forall|k: int| 0 <= k < at.len() ==> 0 <= #[trigger] at[k] < rows.len(),
        forall|k: int, m: int| 0 <= k < m < at.len() ==> (#[trigger] at[k]) < (#[trigger] at[m]),
    ensures
        ids_at(t, at).no_duplicates(),
{
    let ids = ids_at(t, at);
    assert forall|k: int, m: int|
        0 <= k < ids.len() && 0 <= m < ids.len() && k != m implies ids[k] != ids[m] by {
        assert(t.nodes[at[k]].db_id == rows[at[k]].id);
        assert(t.nodes[at[m]].db_id == rows[at[m]].id);
        if k < m {
            assert(rows[at[k]].id < rows[at[m]].id);
        } else {
            assert(rows[at[m]].id < rows[at[k]].id);
        }
    }
}

/// One more row sealed anew.
pub(crate) proof fn lemma_reseal_one_more(
    before: Seq<NodeRowView>,
    middle: Seq<NodeRowView>,
    after: Seq<NodeRowView>,
    ids: Seq<i64>,
    sealed: Seq<Seq<u8>>,
    k: int,
)
    requires
        ids.no_duplicates(),
        0 <= k < ids.len(),
        sealed.len() > k,
        resealed(before, middle, ids.take(k), sealed.take(k)),
        resealed(middle, after, seq![ids[k]], seq![sealed[k]]),
    ensures
        resealed(before, after, ids.take(k + 1), sealed.take(k + 1)),
{
    let one = seq![ids[k]];
    let few = ids.take(k);
    let more = ids.take(k + 1);
    assert(one[0] == ids[k]);
    assert forall|i: int, m: int|
        0 <= i < before.len() && 0 <= m < more.len() && (#[trigger] before[i]).id == (
        #[trigger] more[m]) implies after[i] == (NodeRowView {
        wrapped_share: Some(sealed.take(k + 1)[m]),
        ..before[i]
    }) by {
        if m < k {
            assert(few[m] == more[m]);
            assert(middle[i].id == before[i].id);
            assert(!one.contains(middle[i].id)) by {
                assert(ids[m] != ids[k]);
            }
            assert(sealed.take(k)[m] == sealed.take(k + 1)[m]);
        } else {
            assert(!few.contains(before[i].id)) by {
                if few.contains(before[i].id) {
                    let q = choose|q: int| 0 <= q < few.len() && few[q] == before[i].id;
                    assert(ids[q] != ids[k]);
                }
            }
            assert(middle[i].id == one[0]);
        }
    }
    assert forall|i: int| 0 <= i < before.len() && !more.contains(
        (#[trigger] before[i]).id,
    ) implies after[i] == before[i] by {
        assert(!few.contains(before[i].id)) by {
            if few.contains(before[i].id) {
                let q = choose|q: int| 0 <= q < few.len() && few[q] == before[i].id;
                assert(more[q] == before[i].id);
            }
        }
        assert(middle[i] == before[i]);
        assert(more[k] == ids[k]);
        assert(!one.contains(middle[i].id));
    }
}

/// What is sure of a place where a leaf can go.
pub(crate) proof fn lemma_growth(
    s: TreeStoreView,
    keys: Seq<HardwareKeyView>,
    key_id: i64,
    parent_label: Seq<char>,
    new_label: Seq<char>,
    new_hardware_id: i64,
    presented: Map<i64, Seq<u8>>,
)
    requires
        s.wf(),
        growth(
            s,
            keys,
            key_id,
            parent_label,
            new_label,
            new_hardware_id,
            presented,
        ) is Ok,
    ensures
        ({
            let plan = growth(
                s,
                keys,
                key_id,
                parent_label,
                new_label,
                new_hardware_id,
                presented,
            )->Ok_0;
            &&& plan.leaf_ids.no_duplicates()
            &&& plan.leaf_ids.len() == plan.leaf_hardware.len()
            &&& plan.leaf_ids.len() < 255
            &&& hardware_fault(keys, plan.leaf_hardware, plan.leaf_hardware.len()) is None
            &&& active_encryption_key(keys, new_hardware_id) is Ok
            &&& key_exists(s.keys, key_id)
            &&& plan.parent_id < next_node_id(s.nodes)
            &&& forall|i: int|
                0 <= i < s.nodes.len() && plan.parent_id == (#[trigger] s.nodes[i]).id
                    ==> s.nodes[i].hardware_key_id is None && s.nodes[i].key_id == key_id
        }),
{
    let t = loaded(s, key_id)->Ok_0;
    let rows = key_rows(s.nodes, key_id);
    lemma_rows_ordered(s.nodes, key_id);
    lemma_label_agrees(s, key_id, parent_label);
    let p = labelled_place(t, parent_label)->0;
    let at = leaves_below(t, p, -1, t.nodes[p].children.len())->0;
    assert(t.nodes[p] == shape_of_row(rows, s.bridges, p));
    lemma_leaves_below(rows, s.bridges, p, -1, t.nodes[p].children.len());
    lemma_ids_distinct(t, rows, at);
    assert(s.nodes.contains(rows[p]));
    let home = choose|i: int| 0 <= i < s.nodes.len() && s.nodes[i] == rows[p];
    assert(key_exists(s.keys, s.nodes[home].key_id));
    if home < s.nodes.len() - 1 {
        assert(s.nodes[home].id < s.nodes[s.nodes.len() - 1].id);
    }
    assert forall|i: int| 0 <= i < s.nodes.len() && rows[p].id == (
    #[trigger] s.nodes[i]).id implies s.nodes[i].hardware_key_id is None && s.nodes[i].key_id
        == key_id by {
        if i < home {
            assert(s.nodes[i].id < s.nodes[home].id);
        } else if i > home {
            assert(s.nodes[home].id < s.nodes[i].id);
        }
    }
}

/// Recovers the value of a split, deals one share more at the same threshold,
/// seals the leaves that are there anew, and adds the new one. If that cannot
/// be done, nothing changes.
///
/// The ids of the leaves stay, so their pairings do. Shares and sealed boxes are
/// drawn at random; whatever was drawn, the shares belong together.
pub fn add_leaf_and_reshare(
    store: &mut TreeStore,
    registry: &KeyRegistry,
    key_id: i64,
    parent_label: &str,
    new_label: &str,
    new_hardware_id: i64,
    presented: &HashMap<i64, Vec<u8>>,
) -> (r: Result<i64, Error>)
    requires
        old(store).wf(),
        registry_wf(registry@),
        next_node_id(old(store)@.nodes) <= i64::MAX,
    ensures
        final(store).wf(),
        match (
            r,
            growth(
                old(store)@,
                registry@,
                key_id,
                parent_label@,
                new_label@,
                new_hardware_id,
                share_views(presented@),
            ),
        ) {
            (Err(e), Err(expected)) => e == expected && *final(store) == *old(store),
            (Ok(id), Ok(plan)) => id == next_node_id(old(store)@.nodes) && exists|
                shares: Seq<Seq<u8>>,
                sealed: Seq<Seq<u8>>,
            | #[trigger]
                grown(
                    old(store)@,
                    final(store)@,
                    registry@,
                    key_id,
                    new_label@,
                    new_hardware_id,
                    plan,
                    shares,
                    sealed,
                ),
            _ => false,
        },
{
    let plan = match plan_growth(
        store,
        registry,
        key_id,
        parent_label,
        new_label,
        new_hardware_id,
        presented,
    ) {
        Ok(plan) => plan,
        Err(e) => { return Err(e); },
    };
    let ghost before = store@;
    proof {
        lemma_growth(
            before,
            registry@,
            key_id,
            parent_label@,
            new_label@,
            new_hardware_id,
            share_views(presented@),
        );
    }
    let n: usize = plan.leaf_ids.len();
    let dealt = deal(plan.threshold, plan.secret.as_slice(), n + 1);
    let ghost shares = byte_views(dealt@);
    let ghost mut sealed: Seq<Seq<u8>> = Seq::empty();
    let mut k: usize = 0;
    assert(resealed(before.nodes, store@.nodes, plan.leaf_ids@.take(0), sealed.take(0)));
    while k < n
        invariant
            k <= n,
            n == plan.leaf_ids@.len(),
            n == plan.leaf_hardware@.len(),
            store.wf(),
            registry_wf(registry@),
            plan.leaf_ids@.no_duplicates(),
            hardware_fault(registry@, plan.leaf_hardware@, n as nat) is None,
            dealt@.len() == n + 1,
            shares == byte_views(dealt@),
            sealed.len() == k,
            store@ == (TreeStoreView { nodes: store@.nodes, ..before }),
            resealed(
                before.nodes,
                store@.nodes,
                plan.leaf_ids@.take(k as int),
                sealed.take(k as int),
            ),
            forall|m: int|
                0 <= m < k ==> opens_to(
                    #[trigger] sealed[m],
                    (key_with_id(registry@, plan.leaf_hardware@[m])->Ok_0).public_key,
                    shares[m],
                ),
        decreases n - k,
    {
        proof {
            lemma_hardware_sound(registry@, plan.leaf_hardware@, n as nat, k as int);
        }
        let hardware_key = match get_active_encryption_key(registry, plan.leaf_hardware[k]) {
            Ok(key) => key,
            Err(e) => {
                assert(false);
                return Err(e);
            },
        };
        proof {
            let at = key_place(registry@, plan.leaf_hardware@[k as int])->0;
            assert(registry@[at].public_key.len() == KEY_LEN);
        }
        let wrapped = match seal_share(hardware_key, dealt[k].as_slice()) {
            Ok(wrapped) => wrapped,
            Err(e) => {
                assert(false);
                return Err(e);
            },
        };
        let ghost middle = store@.nodes;
        let ghost earlier = sealed;
        let ghost bytes = wrapped@;
        store.reseal(plan.leaf_ids[k], wrapped);
        proof {
            sealed = earlier.push(bytes);
            assert(sealed.take(k as int) =~= earlier.take(k as int));
            assert(sealed[k as int] == bytes);
            lemma_reseal_one_more(
                before.nodes,
                middle,
                store@.nodes,
                plan.leaf_ids@,
                sealed,
                k as int,
            );
            assert(shares[k as int] == dealt@[k as int]@);
            assert forall|m: int| 0 <= m < k + 1 implies opens_to(
                #[trigger] sealed[m],
                (key_with_id(registry@, plan.leaf_hardware@[m])->Ok_0).public_key,
                shares[m],
            ) by {
                if m < k {
                    assert(sealed[m] == earlier[m]);
                }
            }
        }
        k += 1;
    }
    let new_key = match get_active_encryption_key(registry, new_hardware_id) {
        Ok(key) => key,
        Err(e) => {
            assert(false);
            return Err(e);
        },
    };
    proof {
        let at = key_place(registry@, new_hardware_id)->0;
        assert(registry@[at].public_key.len() == KEY_LEN);
    }
    let wrapped = match seal_share(new_key, dealt[n].as_slice()) {
        Ok(wrapped) => wrapped,
        Err(e) => {
            assert(false);
            return Err(e);
        },
    };
    let ghost resealed_nodes = store@.nodes;
    let ghost last = wrapped@;
    let count: usize = store.nodes.len();
    let new_id: i64 = if count == 0 {
        1
    } else {
        assert(resealed_nodes[count - 1] == store.nodes@[count - 1]@);
        assert(resealed_nodes[count - 1].id == before.nodes[count - 1].id);
        store.nodes[count - 1].id + 1
    };
    proof {
        assert forall|i: int| 0 <= i < resealed_nodes.len() && plan.parent_id == (
        #[trigger] resealed_nodes[i]).id implies resealed_nodes[i].hardware_key_id is None
            && resealed_nodes[i].key_id == key_id by {
            assert(resealed_nodes[i].id == before.nodes[i].id);
            assert(resealed_nodes[i].key_id == before.nodes[i].key_id);
            assert(resealed_nodes[i].hardware_key_id == before.nodes[i].hardware_key_id);
        }
        assert(new_id == next_node_id(before.nodes));
    }
    let row = NodeRow {
        id: new_id,
        key_id,
        parent_id: Some(plan.parent_id),
        label: new_label.to_owned(),
        threshold: None,
        hardware_key_id: Some(new_hardware_id),
        wrapped_share: Some(wrapped),
        is_active: true,
    };
    let ghost added = row@;
    store.push_node(row);
    proof {
        let all_sealed = sealed.push(last);
        assert(store@.nodes.drop_last() =~= resealed_nodes);
        assert(store@.nodes.last() == added);
        assert(all_sealed.take(n as int) =~= sealed);
        assert(sealed.take(k as int) =~= sealed);
        assert(plan.leaf_ids@.take(k as int) =~= plan.leaf_ids@);
        assert(shares[n as int] == dealt@[n as int]@);
        assert(share_the_secret(shares, plan.secret@, plan.threshold)) by {
            assert forall|x: int, y: int| 0 <= x < y < shares.len() implies (
            #[trigger] shares[x])[0] != (#[trigger] shares[y])[0] by {
                assert(dealt@[x]@[0] == x + 1);
                assert(dealt@[y]@[0] == y + 1);
            }
            assert forall|m: int| 0 <= m < shares.len() implies (#[trigger] shares[m]).len()
                == plan.secret@.len() + 1 by {
                assert(dealt@[m]@.len() == plan.secret@.len() + 1);
            }
            if plan.threshold >= 1 {
                lemma_dealt_from(shares, plan.secret@, plan.threshold);
            }
        }
        assert forall|m: int| 0 <= m < n implies opens_to(
            #[trigger] all_sealed[m],
            (key_with_id(registry@, plan.leaf_hardware@[m])->Ok_0).public_key,
            shares[m],
        ) by {
            assert(all_sealed[m] == sealed[m]);
        }
        assert(grown(
            before,
            store@,
            registry@,
            key_id,
            new_label@,
            new_hardware_id,
            plan@,
            shares,
            all_sealed,
        ));
    }
    Ok(new_id)
}

} // verus!
