//! When a leaf can be added, evicted or sealed anew, and what stays as it was.

use vstd::prelude::*;

use crate::error::{fault_of, Error};
use crate::key_tree::bridges::labelled_place;
use crate::key_tree::evict::{
    bindings_dropped, deactivated, evicted_from, eviction, shares_of, survivor_fault,
};
use crate::key_tree::grow::{
    growth, growth_at, grown, hardware_at, hardware_fault, ids_at, leaves_below, presented_for,
};
use crate::key_tree::mutate::{coordinates_usable, leaf_share, rebind_share, rebound, secret_from};
use crate::key_tree::store::{node_exists, node_of_key, nodes_ordered, NodeRowView, TreeStoreView};
use crate::key_tree::tree::{
    key_rows, labels_repeat, lemma_place_of, lemma_rows_ordered, loaded, place_of, TreeShape,
};
use crate::keys::{
    active_encryption_key, key_place, key_with_id, registry_wf, HardwareKeyView, KeyType,
};
use crate::pss::distinct_nonzero;
use crate::sealing::{box_public_key, unsealed};
use crate::shamir::{interpolated, x_set};

verus! {

/// A child that counts: an active one, and not the one that is left out.
pub open spec fn counts_below(t: TreeShape, except: int) -> spec_fn(int) -> bool {
    |c: int| t.nodes[c].is_active && c != except
}

/// The active children of a node but for the one that is left out, in order.
pub open spec fn counted_children(t: TreeShape, p: int, except: int) -> Seq<int> {
    t.nodes[p].children.filter(counts_below(t, except))
}

/// The places are those of leaves.
pub open spec fn all_leaves(t: TreeShape, at: Seq<int>) -> bool {
    forall|k: int| 0 <= k < at.len() ==> t.nodes[#[trigger] at[k]].hardware_key_id is Some
}

proof fn lemma_leaves_gathered(t: TreeShape, p: int, except: int, n: nat)
    requires
        n <= t.nodes[p].children.len(),
    ensures
        ({
            let below = t.nodes[p].children.take(n as int).filter(counts_below(t, except));
            leaves_below(t, p, except, n) == (if all_leaves(t, below) {
                Some(below)
            } else {
                None
            })
        }),
    decreases n,
{
    reveal(Seq::filter);
    let kids = t.nodes[p].children;
    let pred = counts_below(t, except);
    if n > 0 {
        let m = (n - 1) as nat;
        lemma_leaves_gathered(t, p, except, m);
        let before = kids.take(m as int).filter(pred);
        let below = kids.take(n as int).filter(pred);
        assert(kids.take(n as int).drop_last() =~= kids.take(m as int));
        assert(kids.take(n as int).last() == kids[m as int]);
        if pred(kids[m as int]) {
            assert(below == before.push(kids[m as int]));
            if all_leaves(t, below) {
                assert forall|k: int|
                    0 <= k < before.len() implies t.nodes[#[trigger] before[k]].hardware_key_id
                    is Some by {
                    assert(below[k] == before[k]);
                }
                assert(below[before.len() as int] == kids[m as int]);
            }
            if all_leaves(t, before) && t.nodes[kids[m as int]].hardware_key_id is Some {
                assert forall|k: int|
                    0 <= k < below.len() implies t.nodes[#[trigger] below[k]].hardware_key_id
                    is Some by {
                    if k < before.len() {
                        assert(below[k] == before[k]);
                    }
                }
            }
        } else {
            assert(below == before);
        }
    } else {
        assert(kids.take(0).filter(pred) =~= Seq::<int>::empty());
    }
}

/// The leaves below a split are its active children but for the one that is left out.
/// There are none to speak of where one of these is a split itself.
pub proof fn leaves_are_the_active_children(t: TreeShape, p: int, except: int)
    ensures
        leaves_below(t, p, except, t.nodes[p].children.len()) == (if all_leaves(
            t,
            counted_children(t, p, except),
        ) {
            Some(counted_children(t, p, except))
        } else {
            None
        }),
{
    let kids = t.nodes[p].children;
    lemma_leaves_gathered(t, p, except, kids.len());
    assert(kids.take(kids.len() as int) =~= kids);
}

/// The ids of those whose shares were presented, in order.
pub open spec fn presenting(ids: Seq<i64>, presented: Map<i64, Seq<u8>>) -> Seq<i64> {
    ids.filter(|id: i64| presented.contains_key(id))
}

proof fn lemma_presented(ids: Seq<i64>, presented: Map<i64, Seq<u8>>, n: nat)
    requires
        n <= ids.len(),
    ensures
        presented_for(ids, presented, n) == presenting(ids.take(n as int), presented).map_values(
            |id: i64| presented[id],
        ),
    decreases n,
{
    reveal(Seq::filter);
    let pick = |id: i64| presented[id];
    if n > 0 {
        let m = (n - 1) as nat;
        lemma_presented(ids, presented, m);
        assert(ids.take(n as int).drop_last() =~= ids.take(m as int));
        assert(ids.take(n as int).last() == ids[m as int]);
        let before = presenting(ids.take(m as int), presented);
        if presented.contains_key(ids[m as int]) {
            assert(before.push(ids[m as int]).map_values(pick) =~= before.map_values(pick).push(
                presented[ids[m as int]],
            ));
        }
    } else {
        assert(ids.take(0).filter(|id: i64| presented.contains_key(id)) =~= Seq::<i64>::empty());
        assert(Seq::<i64>::empty().map_values(pick) =~= Seq::<Seq<u8>>::empty());
    }
}

/// The shares that were presented are those of the ids that have one, in order.
pub proof fn presented_shares_are_those_given(ids: Seq<i64>, presented: Map<i64, Seq<u8>>)
    ensures
        presented_for(ids, presented, ids.len()) == presenting(ids, presented).map_values(
            |id: i64| presented[id],
        ),
{
    lemma_presented(ids, presented, ids.len());
    assert(ids.take(ids.len() as int) =~= ids);
}

/// A registered key backs a leaf exactly if it is for encryption and was not revoked.
pub proof fn key_backs_a_leaf(keys: Seq<HardwareKeyView>, i: int)
    requires
        registry_wf(keys),
        0 <= i < keys.len(),
    ensures
        active_encryption_key(keys, keys[i].id) == (if keys[i].key_type != KeyType::Encryption {
            Err(Error::WrongKeyType)
        } else if keys[i].revoked_at is Some {
            Err(Error::KeyRevoked)
        } else {
            Ok(keys[i])
        }),
{
    let k = key_place(keys, keys[i].id)->0;
    assert(keys[k].id == keys[i].id);
}

proof fn lemma_all_backed(keys: Seq<HardwareKeyView>, hardware: Seq<i64>, n: nat)
    requires
        n <= hardware.len(),
    ensures
        hardware_fault(keys, hardware, n) is None <==> forall|k: int|
            0 <= k < n ==> active_encryption_key(keys, #[trigger] hardware[k]) is Ok,
    decreases n,
{
    if n > 0 {
        lemma_all_backed(keys, hardware, (n - 1) as nat);
    }
}

/// The keys of leaves are good if each of them is. Otherwise the first that is not decides.
pub proof fn first_bad_key_decides(keys: Seq<HardwareKeyView>, hardware: Seq<i64>, i: int)
    requires
        0 <= i < hardware.len(),
        active_encryption_key(keys, hardware[i]) is Err,
        forall|k: int| 0 <= k < i ==> active_encryption_key(keys, #[trigger] hardware[k]) is Ok,
    ensures
        hardware_fault(keys, hardware, hardware.len()) == fault_of(
            active_encryption_key(keys, hardware[i]),
        ),
{
    lemma_all_backed(keys, hardware, i as nat);
    lemma_first_stays(keys, hardware, (i + 1) as nat, hardware.len());
}

proof fn lemma_first_stays(keys: Seq<HardwareKeyView>, hardware: Seq<i64>, m: nat, n: nat)
    requires
        m <= n,
        hardware_fault(keys, hardware, m) is Some,
    ensures
        hardware_fault(keys, hardware, n) == hardware_fault(keys, hardware, m),
    decreases n - m,
{
    if m < n {
        lemma_first_stays(keys, hardware, m, (n - 1) as nat);
    }
}

/// Shares combine exactly if each has a coordinate of its own that is not zero and at least
/// one byte behind it, all are as long as one another, and there are enough of them.
pub proof fn shares_that_combine(threshold: u8, raws: Seq<Seq<u8>>)
    ensures
        secret_from(threshold, raws) is Ok <==> {
            &&& raws.len() > 0
            &&& raws.len() >= threshold
            &&& forall|k: int| 0 <= k < raws.len() ==> (#[trigger] raws[k]).len() >= 2
            &&& forall|k: int| 0 <= k < raws.len() ==> (#[trigger] raws[k])[0] != 0
            &&& forall|a: int, b: int|
                0 <= a < b < raws.len() ==> (#[trigger] raws[a])[0] != (#[trigger] raws[b])[0]
            &&& forall|a: int, b: int|
                0 <= a < raws.len() && 0 <= b < raws.len() ==> (#[trigger] raws[a]).len() == (
                #[trigger] raws[b]).len()
        },
        secret_from(threshold, raws) matches Ok(secret) ==> secret == interpolated(raws),
        secret_from(threshold, raws) matches Err(e) ==> e == Error::ShareShapeMismatch || e
            == Error::QuorumNotMet,
{
    let firsts = raws.map_values(|s: Seq<u8>| s[0]);
    assert(firsts.len() == raws.len());
    assert forall|k: int| 0 <= k < raws.len() implies firsts[k] == (#[trigger] raws[k])[0] by {}
    if distinct_nonzero(firsts) {
        assert forall|k: int| 0 <= k < raws.len() implies (#[trigger] raws[k])[0] != 0 by {
            assert(firsts[k] != 0);
        }
        assert forall|a: int, b: int| 0 <= a < b < raws.len() implies (#[trigger] raws[a])[0] != (
        #[trigger] raws[b])[0] by {
            assert(firsts[a] != firsts[b]);
        }
        firsts.unique_seq_to_set();
        assert(firsts.to_set().len() == raws.len());
        assert(x_set(raws) =~= firsts.to_set()) by {
            assert forall|x: u8| firsts.to_set().contains(x) implies x_set(raws).contains(x) by {
                let k = choose|k: int| 0 <= k < firsts.len() && firsts[k] == x;
                assert(raws[k][0] == x);
            }
            assert forall|x: u8| x_set(raws).contains(x) implies firsts.to_set().contains(x) by {
                let k = choose|k: int| 0 <= k < raws.len() && (#[trigger] raws[k])[0] == x;
                assert(firsts[k] == x);
            }
        }
    }
    if (forall|k: int| 0 <= k < raws.len() ==> (#[trigger] raws[k])[0] != 0) && (forall|
        a: int,
        b: int,
    |
        0 <= a < b < raws.len() ==> (#[trigger] raws[a])[0] != (#[trigger] raws[b])[0]) {
        assert forall|a: int, b: int|
            0 <= a < firsts.len() && 0 <= b < firsts.len() && a != b implies firsts[a]
            != firsts[b] by {
            if a < b {
                assert(raws[a][0] != raws[b][0]);
            } else {
                assert(raws[b][0] != raws[a][0]);
            }
        }
        assert forall|k: int| 0 <= k < firsts.len() implies #[trigger] firsts[k] != 0 by {
            assert(raws[k][0] != 0);
        }
        assert(distinct_nonzero(firsts));
    }
}

/// A leaf can be added below a split exactly if its label is new and not empty, the split is
/// there and has leaves only, its threshold can be kept with one leaf more, of which there
/// are 255 at most, as many leaves as the threshold asks for presented shares that combine,
/// and the new key and those of all leaves back a leaf.
pub proof fn leaf_can_be_added(
    s: TreeStoreView,
    keys: Seq<HardwareKeyView>,
    key_id: i64,
    parent_label: Seq<char>,
    new_label: Seq<char>,
    new_hardware_id: i64,
    presented: Map<i64, Seq<u8>>,
    p: int,
)
    requires
        loaded(s, key_id) is Ok,
        labelled_place(loaded(s, key_id)->Ok_0, parent_label) == Some(p),
    ensures
        ({
            let t = loaded(s, key_id)->Ok_0;
            let below = counted_children(t, p, -1);
            let ids = below.map_values(|c: int| t.nodes[c].db_id);
            let raws = presenting(ids, presented).map_values(|id: i64| presented[id]);
            let plan = growth(
                s,
                keys,
                key_id,
                parent_label,
                new_label,
                new_hardware_id,
                presented,
            );
            &&& plan is Ok <==> {
                &&& new_label.len() > 0
                &&& labelled_place(t, new_label) is None
                &&& t.nodes[p].threshold is Some
                &&& all_leaves(t, below)
                &&& below.len() <= 254
                &&& t.nodes[p].threshold->0 <= below.len() + 1
                &&& raws.len() >= t.nodes[p].threshold->0
                &&& secret_from(t.nodes[p].threshold->0 as u8, raws) is Ok
                &&& active_encryption_key(keys, new_hardware_id) is Ok
                &&& forall|k: int|
                    0 <= k < below.len() ==> active_encryption_key(
                        keys,
                        t.nodes[#[trigger] below[k]].hardware_key_id->0,
                    ) is Ok
            }
            &&& plan matches Ok(plan) ==> {
                &&& plan.parent_id == t.nodes[p].db_id
                &&& plan.threshold == t.nodes[p].threshold->0 as u8
                &&& plan.leaf_ids == ids
                &&& plan.leaf_hardware == below.map_values(
                    |c: int| t.nodes[c].hardware_key_id->0,
                )
                &&& Ok::<Seq<u8>, Error>(plan.secret) == secret_from(
                    t.nodes[p].threshold->0 as u8,
                    raws,
                )
            }
        }),
{
    let t = loaded(s, key_id)->Ok_0;
    let below = counted_children(t, p, -1);
    leaves_are_the_active_children(t, p, -1);
    let ids = below.map_values(|c: int| t.nodes[c].db_id);
    let hardware = hardware_at(t, below);
    assert(ids_at(t, below) =~= ids);
    assert(hardware =~= below.map_values(|c: int| t.nodes[c].hardware_key_id->0));
    presented_shares_are_those_given(ids, presented);
    lemma_all_backed(keys, hardware, hardware.len());
    if forall|k: int| 0 <= k < hardware.len() ==> active_encryption_key(keys, #[trigger] hardware[k])
        is Ok {
        assert forall|k: int| 0 <= k < below.len() implies active_encryption_key(
            keys,
            t.nodes[#[trigger] below[k]].hardware_key_id->0,
        ) is Ok by {
            assert(active_encryption_key(keys, hardware[k]) is Ok);
        }
    }
    if forall|k: int|
        0 <= k < below.len() ==> active_encryption_key(
            keys,
            t.nodes[#[trigger] below[k]].hardware_key_id->0,
        ) is Ok {
        assert forall|k: int| 0 <= k < hardware.len() implies active_encryption_key(
            keys,
            #[trigger] hardware[k],
        ) is Ok by {
            assert(active_encryption_key(keys, t.nodes[below[k]].hardware_key_id->0) is Ok);
        }
    }
}

/// What stops a leaf from being added: no label or a label that is there, no split with the
/// label, a split that is none, has splits below, is full or could not keep its threshold,
/// and too few shares.
pub proof fn leaf_cannot_be_added(
    s: TreeStoreView,
    keys: Seq<HardwareKeyView>,
    key_id: i64,
    parent_label: Seq<char>,
    new_label: Seq<char>,
    new_hardware_id: i64,
    presented: Map<i64, Seq<u8>>,
)
    ensures
        ({
            let plan = growth(
                s,
                keys,
                key_id,
                parent_label,
                new_label,
                new_hardware_id,
                presented,
            );
            &&& new_label.len() == 0 ==> fault_of(plan) == Some(Error::DuplicateNodeLabel)
            &&& new_label.len() > 0 && loaded(s, key_id) is Err ==> fault_of(plan) == fault_of(
                loaded(s, key_id),
            )
            &&& new_label.len() > 0 && (loaded(s, key_id) matches Ok(t) && labelled_place(
                t,
                new_label,
            ) is Some) ==> fault_of(plan) == Some(Error::DuplicateNodeLabel)
            &&& new_label.len() > 0 && (loaded(s, key_id) matches Ok(t) && labelled_place(
                t,
                new_label,
            ) is None && labelled_place(t, parent_label) is None) ==> fault_of(plan) == Some(
                Error::NodeNotFound,
            )
            &&& new_label.len() > 0 && (loaded(s, key_id) matches Ok(t) && labelled_place(
                t,
                new_label,
            ) is None && (labelled_place(t, parent_label) matches Some(p) && {
                let below = counted_children(t, p, -1);
                ||| t.nodes[p].threshold is None
                ||| !all_leaves(t, below)
                ||| below.len() >= 255
                ||| t.nodes[p].threshold->0 > below.len() + 1
            })) ==> fault_of(plan) == Some(Error::CannotAddLeaf)
        }),
{
    if let Ok(t) = loaded(s, key_id) {
        if let Some(p) = labelled_place(t, parent_label) {
            leaves_are_the_active_children(t, p, -1);
        }
    }
}

proof fn lemma_survivors(
    keys: Seq<HardwareKeyView>,
    ids: Seq<i64>,
    hardware: Seq<i64>,
    presented: Map<i64, Seq<u8>>,
    n: nat,
)
    requires
        n <= ids.len(),
        n <= hardware.len(),
    ensures
        survivor_fault(keys, ids, hardware, presented, n) is None <==> forall|k: int|
            0 <= k < n ==> presented.contains_key(#[trigger] ids[k]) && active_encryption_key(
                keys,
                hardware[k],
            ) is Ok,
    decreases n,
{
    if n > 0 {
        lemma_survivors(keys, ids, hardware, presented, (n - 1) as nat);
        if survivor_fault(keys, ids, hardware, presented, n) is None {
            assert(presented.contains_key(ids[n - 1]));
        }
        if forall|k: int|
            0 <= k < n ==> presented.contains_key(#[trigger] ids[k]) && active_encryption_key(
                keys,
                hardware[k],
            ) is Ok {
            assert(presented.contains_key(ids[n - 1]));
        }
    }
}

/// A leaf can be evicted exactly if it is active, its split has a threshold of two or more
/// and otherwise active leaves only, of which enough are left to meet the threshold, and
/// every one of these has presented its share, has a key that backs a leaf, and their shares
/// can be refreshed together.
pub proof fn leaf_can_be_evicted(
    s: TreeStoreView,
    keys: Seq<HardwareKeyView>,
    key_id: i64,
    i: int,
    presented: Map<i64, Seq<u8>>,
)
    requires
        s.wf(),
        loaded(s, key_id) is Ok,
        0 <= i < (loaded(s, key_id)->Ok_0).nodes.len(),
    ensures
        ({
            let t = loaded(s, key_id)->Ok_0;
            let p = t.nodes[i].parent->0;
            let below = counted_children(t, p, i);
            let ids = below.map_values(|c: int| t.nodes[c].db_id);
            let shares = ids.map_values(|id: i64| presented[id]);
            let plan = eviction(s, keys, key_id, t.nodes[i].db_id, presented);
            &&& plan is Ok <==> {
                &&& t.nodes[i].is_active
                &&& t.nodes[i].hardware_key_id is Some
                &&& t.nodes[i].parent is Some
                &&& t.nodes[p].threshold is Some
                &&& t.nodes[p].threshold->0 >= 2
                &&& all_leaves(t, below)
                &&& below.len() >= t.nodes[p].threshold->0
                &&& forall|k: int|
                    0 <= k < ids.len() ==> presented.contains_key(#[trigger] ids[k])
                        && active_encryption_key(keys, t.nodes[below[k]].hardware_key_id->0) is Ok
                &&& crate::pss::refreshable(shares, t.nodes[p].threshold->0 as u8)
            }
            &&& plan matches Ok(plan) ==> {
                &&& plan.threshold == t.nodes[p].threshold->0 as u8
                &&& plan.leaf_ids == ids
                &&& plan.leaf_hardware == below.map_values(
                    |c: int| t.nodes[c].hardware_key_id->0,
                )
                &&& plan.shares == shares
            }
            &&& !(t.nodes[i].is_active && t.nodes[i].hardware_key_id is Some
                && t.nodes[i].parent is Some && t.nodes[p].threshold is Some
                && t.nodes[p].threshold->0 >= 2 && all_leaves(t, below) && below.len()
                >= t.nodes[p].threshold->0) ==> fault_of(plan) == Some(Error::CannotEvict)
        }),
{
    let t = loaded(s, key_id)->Ok_0;
    let rows = key_rows(s.nodes, key_id);
    lemma_rows_ordered(s.nodes, key_id);
    let id = t.nodes[i].db_id;
    assert(id == rows[i].id);
    assert(node_exists(rows, id));
    lemma_place_of(rows, i);
    assert(s.nodes.contains(rows[i]));
    let j = choose|j: int| 0 <= j < s.nodes.len() && s.nodes[j] == rows[i];
    assert(s.nodes[j].id == id && s.nodes[j].key_id == key_id);
    assert(node_of_key(s.nodes, key_id, id));
    let p = t.nodes[i].parent->0;
    let below = counted_children(t, p, i);
    leaves_are_the_active_children(t, p, i);
    let ids = below.map_values(|c: int| t.nodes[c].db_id);
    let hardware = hardware_at(t, below);
    assert(ids_at(t, below) =~= ids);
    assert(hardware =~= below.map_values(|c: int| t.nodes[c].hardware_key_id->0));
    assert(shares_of(ids, presented) =~= ids.map_values(|id: i64| presented[id]));
    lemma_survivors(keys, ids, hardware, presented, ids.len());
    let good = survivor_fault(keys, ids, hardware, presented, ids.len()) is None;
    assert(good <==> forall|k: int|
        0 <= k < ids.len() ==> presented.contains_key(#[trigger] ids[k]) && active_encryption_key(
            keys,
            t.nodes[below[k]].hardware_key_id->0,
        ) is Ok) by {
        assert forall|k: int| 0 <= k < ids.len() implies hardware[k]
            == t.nodes[below[k]].hardware_key_id->0 && #[trigger] ids[k]
            == t.nodes[below[k]].db_id by {}
    }
    assert(below.len() == ids.len());
    assert(0 <= i && place_of(rows, id) == i);
}

/// Who is unknown to the secret cannot be evicted from it.
pub proof fn unknown_leaf_is_not_evicted(
    s: TreeStoreView,
    keys: Seq<HardwareKeyView>,
    key_id: i64,
    id: i64,
    presented: Map<i64, Seq<u8>>,
)
    requires
        loaded(s, key_id) is Ok,
        forall|i: int|
            0 <= i < s.nodes.len() ==> !((#[trigger] s.nodes[i]).id == id && s.nodes[i].key_id
                == key_id),
    ensures
        fault_of(eviction(s, keys, key_id, id, presented)) == Some(Error::NodeNotFound),
{
}

/// Without its bindings a node has no permission and no pairing, nobody of the secret is
/// permitted to pair with its label, and everything else stays.
pub proof fn bindings_of_one_node_go(
    s: TreeStoreView,
    key_id: i64,
    id: i64,
    label: Seq<char>,
    permission: (i64, Seq<char>),
    pairing: (i64, i64),
)
    ensures
        ({
            let after = bindings_dropped(s, key_id, id, label);
            &&& after.bridges.contains(permission) <==> {
                &&& s.bridges.contains(permission)
                &&& permission.0 != id
                &&& permission.1 == label ==> forall|i: int|
                    0 <= i < s.nodes.len() ==> !((#[trigger] s.nodes[i]).id == permission.0
                        && s.nodes[i].key_id == key_id)
            }
            &&& after.links.contains(pairing) <==> s.links.contains(pairing) && pairing.0 != id
                && pairing.1 != id
            &&& after.nodes == s.nodes
            &&& after.keys == s.keys
        }),
{
}

/// After an eviction the evicted leaf is inactive and otherwise as it was, the leaves that
/// stay have new sealed shares and are otherwise as they were, and all other nodes are as
/// they were.
pub proof fn evicting_touches_these_nodes(
    before: TreeStoreView,
    after: TreeStoreView,
    keys: Seq<HardwareKeyView>,
    key_id: i64,
    id: i64,
    plan: crate::key_tree::evict::EvictionView,
    shares: Seq<Seq<u8>>,
    sealed: Seq<Seq<u8>>,
    i: int,
)
    requires
        evicted_from(before, after, keys, key_id, id, plan, shares, sealed),
        !plan.leaf_ids.contains(id),
        0 <= i < before.nodes.len(),
    ensures
        after.nodes.len() == before.nodes.len(),
        after.keys == before.keys,
        after.nodes[i].id == before.nodes[i].id,
        after.nodes[i].key_id == before.nodes[i].key_id,
        after.nodes[i].parent_id == before.nodes[i].parent_id,
        after.nodes[i].label == before.nodes[i].label,
        after.nodes[i].threshold == before.nodes[i].threshold,
        after.nodes[i].hardware_key_id == before.nodes[i].hardware_key_id,
        after.nodes[i].is_active == (before.nodes[i].is_active && before.nodes[i].id != id),
        !plan.leaf_ids.contains(before.nodes[i].id) ==> after.nodes[i].wrapped_share
            == before.nodes[i].wrapped_share,
        forall|k: int|
            0 <= k < plan.leaf_ids.len() && before.nodes[i].id == #[trigger] plan.leaf_ids[k]
                ==> after.nodes[i].wrapped_share == Some(sealed[k]),
        forall|pairing: (i64, i64)| #[trigger]
            after.links.contains(pairing) <==> before.links.contains(pairing) && pairing.0 != id
                && pairing.1 != id,
{
    let middle = deactivated(before.nodes, id);
    assert(middle[i].id == before.nodes[i].id);
    if plan.leaf_ids.contains(before.nodes[i].id) {
        let k = choose|k: int|
            0 <= k < plan.leaf_ids.len() && plan.leaf_ids[k] == before.nodes[i].id;
        assert(middle[i].id == plan.leaf_ids[k]);
    }
    assert forall|k: int|
        0 <= k < plan.leaf_ids.len() && before.nodes[i].id
            == #[trigger] plan.leaf_ids[k] implies after.nodes[i].wrapped_share == Some(
        sealed[k],
    ) by {
        assert(middle[i].id == plan.leaf_ids[k]);
    }
}

/// After a leaf was added the leaves beside it have new sealed shares and are otherwise as
/// they were, all other nodes, permissions and pairings are as they were, and the new leaf
/// is the last node.
pub proof fn adding_touches_these_nodes(
    before: TreeStoreView,
    after: TreeStoreView,
    keys: Seq<HardwareKeyView>,
    key_id: i64,
    new_label: Seq<char>,
    new_hardware_id: i64,
    plan: crate::key_tree::grow::GrowthView,
    shares: Seq<Seq<u8>>,
    sealed: Seq<Seq<u8>>,
    i: int,
)
    requires
        grown(
            before,
            after,
            keys,
            key_id,
            new_label,
            new_hardware_id,
            plan,
            shares,
            sealed,
        ),
        0 <= i < before.nodes.len(),
    ensures
        after.nodes.len() == before.nodes.len() + 1,
        after.keys == before.keys,
        after.bridges == before.bridges,
        after.links == before.links,
        after.nodes[i].id == before.nodes[i].id,
        after.nodes[i].key_id == before.nodes[i].key_id,
        after.nodes[i].parent_id == before.nodes[i].parent_id,
        after.nodes[i].label == before.nodes[i].label,
        after.nodes[i].threshold == before.nodes[i].threshold,
        after.nodes[i].hardware_key_id == before.nodes[i].hardware_key_id,
        after.nodes[i].is_active == before.nodes[i].is_active,
        !plan.leaf_ids.contains(before.nodes[i].id) ==> after.nodes[i] == before.nodes[i],
        forall|k: int|
            0 <= k < plan.leaf_ids.len() && before.nodes[i].id == #[trigger] plan.leaf_ids[k]
                ==> after.nodes[i].wrapped_share == Some(sealed[k]),
        ({
            let new = after.nodes.last();
            &&& new.key_id == key_id
            &&& new.parent_id == Some(plan.parent_id)
            &&& new.label == new_label
            &&& new.threshold is None
            &&& new.hardware_key_id == Some(new_hardware_id)
            &&& new.wrapped_share == Some(sealed.last())
            &&& new.is_active
        }),
{
    let n = plan.leaf_ids.len() as int;
    let front = after.nodes.drop_last();
    let seals = sealed.take(n);
    assert(front[i] == after.nodes[i]);
    if plan.leaf_ids.contains(before.nodes[i].id) {
        let k = choose|k: int|
            0 <= k < plan.leaf_ids.len() && plan.leaf_ids[k] == before.nodes[i].id;
        assert(before.nodes[i].id == plan.leaf_ids[k]);
    }
    assert forall|k: int|
        0 <= k < plan.leaf_ids.len() && before.nodes[i].id
            == #[trigger] plan.leaf_ids[k] implies after.nodes[i].wrapped_share == Some(
        sealed[k],
    ) by {
        assert(seals[k] == sealed[k]);
    }
}

/// Sealing a leaf to another key changes its key and its sealed share and nothing else.
pub proof fn rebinding_touches_one_node(
    before: TreeStoreView,
    after: TreeStoreView,
    id: i64,
    new_hardware_id: i64,
    sealed: Seq<u8>,
    i: int,
)
    requires
        rebound(before, after, id, new_hardware_id, sealed),
        0 <= i < before.nodes.len(),
    ensures
        after.nodes.len() == before.nodes.len(),
        after.keys == before.keys,
        after.bridges == before.bridges,
        after.links == before.links,
        before.nodes[i].id != id ==> after.nodes[i] == before.nodes[i],
        before.nodes[i].id == id ==> {
            &&& after.nodes[i].hardware_key_id == Some(new_hardware_id)
            &&& after.nodes[i].wrapped_share == Some(sealed)
            &&& after.nodes[i].id == id
            &&& after.nodes[i].key_id == before.nodes[i].key_id
            &&& after.nodes[i].parent_id == before.nodes[i].parent_id
            &&& after.nodes[i].label == before.nodes[i].label
            &&& after.nodes[i].threshold == before.nodes[i].threshold
            &&& after.nodes[i].is_active == before.nodes[i].is_active
        },
{
}

/// A leaf's share opens under a secret key of 32 bytes that is the one of the leaf's own
/// hardware key, and to what the sealed share opens to under it.
pub proof fn share_opens_under_its_own_key(
    nodes: Seq<NodeRowView>,
    keys: Seq<HardwareKeyView>,
    i: int,
    secret: Seq<u8>,
)
    requires
        nodes_ordered(nodes),
        0 <= i < nodes.len(),
    ensures
        ({
            let opened = leaf_share(nodes, keys, nodes[i].id, secret);
            &&& opened is Ok <==> {
                &&& secret.len() == 32
                &&& nodes[i].hardware_key_id is Some
                &&& nodes[i].wrapped_share is Some
                &&& key_with_id(keys, nodes[i].hardware_key_id->0) matches Ok(key)
                    && key.public_key == box_public_key(secret)
                &&& unsealed(secret, nodes[i].wrapped_share->0) is Some
            }
            &&& opened matches Ok(share) ==> unsealed(secret, nodes[i].wrapped_share->0) == Some(
                share,
            )
            &&& secret.len() != 32 ==> fault_of(opened) == Some(Error::InvalidPublicKey)
        }),
{
    lemma_place_of(nodes, i);
    assert(node_exists(nodes, nodes[i].id));
}

/// A leaf is sealed to another key exactly if it is an active leaf of the secret, its share
/// opens under the old secret key, and the new key backs a leaf.
pub proof fn leaf_can_be_rebound(
    s: TreeStoreView,
    keys: Seq<HardwareKeyView>,
    key_id: i64,
    label: Seq<char>,
    new_hardware_id: i64,
    old_secret: Seq<u8>,
)
    requires
        loaded(s, key_id) is Ok,
    ensures
        ({
            let t = loaded(s, key_id)->Ok_0;
            let place = labelled_place(t, label);
            let i = place->0;
            let r = rebind_share(s, keys, key_id, label, new_hardware_id, old_secret);
            let opened = leaf_share(s.nodes, keys, t.nodes[i].db_id, old_secret);
            &&& r is Ok <==> {
                &&& place is Some
                &&& t.nodes[i].is_active
                &&& t.nodes[i].hardware_key_id is Some
                &&& opened is Ok
                &&& active_encryption_key(keys, new_hardware_id) is Ok
            }
            &&& r is Ok ==> r == opened
            &&& place is None || !t.nodes[i].is_active || t.nodes[i].hardware_key_id is None
                ==> fault_of(r) == Some(Error::NodeNotFound)
        }),
{
}

/// A tree loads exactly if its secret has a node, no two of its nodes have the same label,
/// and every parent that one names is a node of the same secret.
pub proof fn trees_that_load(s: TreeStoreView, key_id: i64)
    requires
        s.wf(),
    ensures
        loaded(s, key_id) is Ok <==> {
            &&& exists|i: int| 0 <= i < s.nodes.len() && (#[trigger] s.nodes[i]).key_id == key_id
            &&& forall|a: int, b: int|
                0 <= a < b < s.nodes.len() && (#[trigger] s.nodes[a]).key_id == key_id && (
                #[trigger] s.nodes[b]).key_id == key_id ==> s.nodes[a].label != s.nodes[b].label
            &&& forall|a: int|
                0 <= a < s.nodes.len() && (#[trigger] s.nodes[a]).key_id == key_id ==> (
                s.nodes[a].parent_id matches Some(parent) ==> node_of_key(s.nodes, key_id, parent))
        },
        loaded(s, key_id) matches Err(e) ==> e == Error::NodeNotFound || e
            == Error::DuplicateNodeLabel,
{
    let rows = key_rows(s.nodes, key_id);
    lemma_rows_ordered(s.nodes, key_id);
    if rows.len() > 0 {
        assert(s.nodes.contains(rows[0]));
        let i = choose|i: int| 0 <= i < s.nodes.len() && s.nodes[i] == rows[0];
        assert(s.nodes[i].key_id == key_id);
    }
    assert forall|a: int| 0 <= a < s.nodes.len() && (#[trigger] s.nodes[a]).key_id
        == key_id implies rows.contains(s.nodes[a]) by {}
    assert forall|k: int| 0 <= k < rows.len() implies s.nodes.contains(#[trigger] rows[k])
        && rows[k].key_id == key_id by {}
    if loaded(s, key_id) is Ok {
        assert forall|a: int, b: int|
            0 <= a < b < s.nodes.len() && (#[trigger] s.nodes[a]).key_id == key_id && (
            #[trigger] s.nodes[b]).key_id == key_id implies s.nodes[a].label
            != s.nodes[b].label by {
            let x = choose|x: int| 0 <= x < rows.len() && rows[x] == s.nodes[a];
            let y = choose|y: int| 0 <= y < rows.len() && rows[y] == s.nodes[b];
            assert(s.nodes[a].id < s.nodes[b].id);
            if y < x {
                assert(rows[y].id < rows[x].id);
            }
            assert(x < y);
            assert(rows[x].label != rows[y].label);
        }
        assert forall|a: int|
            0 <= a < s.nodes.len() && (#[trigger] s.nodes[a]).key_id == key_id implies (
        s.nodes[a].parent_id matches Some(parent) ==> node_of_key(s.nodes, key_id, parent)) by {
            let x = choose|x: int| 0 <= x < rows.len() && rows[x] == s.nodes[a];
            if let Some(parent) = rows[x].parent_id {
                assert(node_exists(rows, parent));
                let y = choose|y: int| 0 <= y < rows.len() && (#[trigger] rows[y]).id == parent;
                assert(s.nodes.contains(rows[y]));
                let z = choose|z: int| 0 <= z < s.nodes.len() && s.nodes[z] == rows[y];
                assert(s.nodes[z].id == parent && s.nodes[z].key_id == key_id);
            }
        }
    } else if rows.len() > 0 {
        if labels_repeat(rows) {
            let (x, y) = choose|x: int, y: int|
                0 <= x < y < rows.len() && (#[trigger] rows[x]).label == (#[trigger] rows[y]).label;
            assert(s.nodes.contains(rows[x]) && s.nodes.contains(rows[y]));
            let a = choose|a: int| 0 <= a < s.nodes.len() && s.nodes[a] == rows[x];
            let b = choose|b: int| 0 <= b < s.nodes.len() && s.nodes[b] == rows[y];
            assert(rows[x].id < rows[y].id);
            if b < a {
                assert(s.nodes[b].id < s.nodes[a].id);
            }
            assert(a < b);
            assert(s.nodes[a].label == s.nodes[b].label);
        } else {
            let x = choose|x: int|
                0 <= x < rows.len() && ((#[trigger] rows[x]).parent_id matches Some(parent)
                    && !node_exists(rows, parent));
            assert(s.nodes.contains(rows[x]));
            let a = choose|a: int| 0 <= a < s.nodes.len() && s.nodes[a] == rows[x];
            let parent = s.nodes[a].parent_id->0;
            if node_of_key(s.nodes, key_id, parent) {
                let z = choose|z: int|
                    0 <= z < s.nodes.len() && (#[trigger] s.nodes[z]).id == parent
                        && s.nodes[z].key_id == key_id;
                assert(rows.contains(s.nodes[z]));
                let y = choose|y: int| 0 <= y < rows.len() && rows[y] == s.nodes[z];
                assert(rows[y].id == parent);
            }
        }
    } else {
        assert forall|i: int| 0 <= i < s.nodes.len() implies (#[trigger] s.nodes[i]).key_id
            != key_id by {
            if s.nodes[i].key_id == key_id {
                assert(rows.contains(s.nodes[i]));
            }
        }
    }
}

/// Shares can be refreshed together exactly if the threshold is two or more, there are
/// enough of them, all are as long as one another with a byte behind the coordinate, and
/// the coordinates are different and not zero.
pub proof fn shares_that_can_be_refreshed(shares: Seq<Seq<u8>>, threshold: u8)
    ensures
        crate::pss::refreshable(shares, threshold) <==> {
            &&& threshold >= 2
            &&& shares.len() >= threshold
            &&& forall|k: int| 0 <= k < shares.len() ==> (#[trigger] shares[k]).len() >= 2
            &&& forall|a: int, b: int|
                0 <= a < shares.len() && 0 <= b < shares.len() ==> (#[trigger] shares[a]).len() == (
                #[trigger] shares[b]).len()
            &&& forall|k: int| 0 <= k < shares.len() ==> (#[trigger] shares[k])[0] != 0
            &&& forall|a: int, b: int|
                0 <= a < b < shares.len() ==> (#[trigger] shares[a])[0] != (#[trigger] shares[b])[0]
        },
{
    let firsts = shares.map_values(|s: Seq<u8>| s[0]);
    assert forall|k: int| 0 <= k < shares.len() implies firsts[k] == (#[trigger] shares[k])[0] by {}
    if distinct_nonzero(firsts) {
        assert forall|k: int| 0 <= k < shares.len() implies (#[trigger] shares[k])[0] != 0 by {
            assert(firsts[k] != 0);
        }
        assert forall|a: int, b: int| 0 <= a < b < shares.len() implies (#[trigger] shares[a])[0]
            != (#[trigger] shares[b])[0] by {
            assert(firsts[a] != firsts[b]);
        }
    }
    if (forall|k: int| 0 <= k < shares.len() ==> (#[trigger] shares[k])[0] != 0) && (forall|
        a: int,
        b: int,
    |
        0 <= a < b < shares.len() ==> (#[trigger] shares[a])[0] != (#[trigger] shares[b])[0]) {
        assert forall|a: int, b: int|
            0 <= a < firsts.len() && 0 <= b < firsts.len() && a != b implies firsts[a]
            != firsts[b] by {
            if a < b {
                assert(shares[a][0] != shares[b][0]);
            } else {
                assert(shares[b][0] != shares[a][0]);
            }
        }
        assert forall|k: int| 0 <= k < firsts.len() implies #[trigger] firsts[k] != 0 by {
            assert(shares[k][0] != 0);
        }
    }
}

/// The first leaf that could not stay decides why an eviction is refused: its share was not
/// presented, or its key cannot back a leaf.
pub proof fn first_survivor_decides(
    keys: Seq<HardwareKeyView>,
    ids: Seq<i64>,
    hardware: Seq<i64>,
    presented: Map<i64, Seq<u8>>,
    i: int,
)
    requires
        ids.len() == hardware.len(),
        0 <= i < ids.len(),
        forall|k: int|
            0 <= k < i ==> presented.contains_key(#[trigger] ids[k]) && active_encryption_key(
                keys,
                hardware[k],
            ) is Ok,
        !presented.contains_key(ids[i]) || active_encryption_key(keys, hardware[i]) is Err,
    ensures
        survivor_fault(keys, ids, hardware, presented, ids.len()) == (if !presented.contains_key(
            ids[i],
        ) {
            Some(Error::QuorumNotMet)
        } else {
            fault_of(active_encryption_key(keys, hardware[i]))
        }),
{
    lemma_survivors(keys, ids, hardware, presented, i as nat);
    lemma_survivor_stays(keys, ids, hardware, presented, (i + 1) as nat, ids.len());
}

proof fn lemma_survivor_stays(
    keys: Seq<HardwareKeyView>,
    ids: Seq<i64>,
    hardware: Seq<i64>,
    presented: Map<i64, Seq<u8>>,
    m: nat,
    n: nat,
)
    requires
        m <= n,
        survivor_fault(keys, ids, hardware, presented, m) is Some,
    ensures
        survivor_fault(keys, ids, hardware, presented, n) == survivor_fault(
            keys,
            ids,
            hardware,
            presented,
            m,
        ),
    decreases n - m,
{
    if m < n {
        lemma_survivor_stays(keys, ids, hardware, presented, m, (n - 1) as nat);
    }
}

/// Too few presented shares, shares that do not combine, and keys that cannot back a leaf
/// stop a leaf from being added, in that order.
pub proof fn shares_and_keys_stop_an_addition(
    t: TreeShape,
    keys: Seq<HardwareKeyView>,
    p: int,
    threshold: int,
    at: Seq<int>,
    new_hardware_id: i64,
    presented: Map<i64, Seq<u8>>,
)
    requires
        at.len() <= 254,
        threshold <= at.len() + 1,
    ensures
        ({
            let ids = at.map_values(|c: int| t.nodes[c].db_id);
            let raws = presenting(ids, presented).map_values(|id: i64| presented[id]);
            let plan = growth_at(t, keys, p, threshold, at, new_hardware_id, presented);
            let combine = secret_from(threshold as u8, raws);
            let new = active_encryption_key(keys, new_hardware_id);
            &&& raws.len() < threshold ==> fault_of(plan) == Some(Error::QuorumNotMet)
            &&& raws.len() >= threshold && combine is Err ==> fault_of(plan) == fault_of(combine)
            &&& raws.len() >= threshold && combine is Ok && new is Err ==> fault_of(plan)
                == fault_of(new)
        }),
{
    let ids = at.map_values(|c: int| t.nodes[c].db_id);
    assert(ids_at(t, at) =~= ids);
    presented_shares_are_those_given(ids, presented);
}

/// Shares without a coordinate of their own have the wrong shape. Otherwise too few of them,
/// too short ones and ones of different lengths make no quorum.
pub proof fn shares_that_do_not_combine(threshold: u8, raws: Seq<Seq<u8>>)
    ensures
        (exists|k: int| 0 <= k < raws.len() && (#[trigger] raws[k]).len() == 0) ==> fault_of(
            secret_from(threshold, raws),
        ) == Some(Error::ShareShapeMismatch),
        (exists|k: int| 0 <= k < raws.len() && (#[trigger] raws[k])[0] == 0) ==> fault_of(
            secret_from(threshold, raws),
        ) == Some(Error::ShareShapeMismatch),
        coordinates_usable(raws) && raws.len() < threshold ==> fault_of(
            secret_from(threshold, raws),
        ) == Some(Error::QuorumNotMet),
        coordinates_usable(raws) && (exists|k: int|
            0 <= k < raws.len() && (#[trigger] raws[k]).len() == 1) ==> fault_of(
            secret_from(threshold, raws),
        ) == Some(Error::QuorumNotMet),
{
    let firsts = raws.map_values(|s: Seq<u8>| s[0]);
    if exists|k: int| 0 <= k < raws.len() && (#[trigger] raws[k])[0] == 0 {
        let k = choose|k: int| 0 <= k < raws.len() && (#[trigger] raws[k])[0] == 0;
        assert(firsts[k] == 0);
    }
    if coordinates_usable(raws) {
        firsts.unique_seq_to_set();
        assert(x_set(raws).len() == raws.len());
    }
}

} // verus!
