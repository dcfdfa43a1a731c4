//! Removing a leaf and refreshing the shares beside it.

use std::collections::HashMap;

use vstd::prelude::*;

use crate::bytes::{byte_views, copy_bytes};
use crate::error::{fault_of, Error, StoreError};
use crate::keys::{active_encryption_key, get_active_encryption_key, key_place, key_with_id,
    registry_wf, HardwareKeyView, KeyRegistry};
use crate::key_tree::grow::{hardware_at, hardware_fault, ids_at, leaves_below, lemma_hardware_sound,
    lemma_ids_distinct, lemma_leaves_below, lemma_reseal_one_more};
use crate::key_tree::reconstruct::share_views;
use crate::key_tree::split::seal_share;
use crate::key_tree::store::{
    lemma_skeleton_keeps_wf, node_of_key, resealed, same_skeleton, NodeRowView, TreeStore,
    TreeStoreView,
};
use crate::key_tree::tree::{key_rows, lemma_place_of, lemma_rows_ordered, loaded, place_of,
    shape_of_row, KeyQuorumTree, TreeShape};
use crate::pss::{refresh_among, refreshable, refreshed, refreshed_in_rounds};
use crate::sealing::{opens_to, KEY_LEN};

verus! {

broadcast use vstd::std_specs::hash::group_hash_axioms;

/// A node's permissions and pairings are gone, and the permissions for it that
/// other nodes of the secret had.
pub open spec fn bindings_dropped(s: TreeStoreView, key_id: i64, id: i64, label: Seq<char>) -> TreeStoreView {
    TreeStoreView {
        bridges: s.bridges_without(key_id, id, label),
        links: s.links_without(id),
        ..s
    }
}

/// Drops the bindings of a node of the secret.
pub(crate) fn delete_node_bindings(store: &mut TreeStore, key_id: i64, node_id: i64) -> (r: Result<
    (),
    Error,
>)
    requires
        old(store).wf(),
    ensures
        final(store).wf(),
        r is Ok <==> node_of_key(old(store)@.nodes, key_id, node_id),
        r is Ok ==> final(store)@ == bindings_dropped(
            old(store)@,
            key_id,
            node_id,
            old(store)@.nodes[place_of(old(store)@.nodes, node_id)].label,
        ),
        r matches Err(e) ==> e == Error::Db(StoreError::NoRows) && *final(store) == *old(store),
{
    if !store.is_node_of_key(key_id, node_id) {
        return Err(Error::Db(StoreError::NoRows));
    }
    match store.find_node(node_id) {
        None => {
            assert(false);
            Err(Error::Db(StoreError::NoRows))
        },
        Some(place) => {
            let ghost before = store@;
            assert(before.nodes[place as int] == store.nodes@[place as int]@);
            proof {
                lemma_place_of(before.nodes, place as int);
            }
            let label: String = store.nodes[place].label.clone();
            store.drop_links(node_id);
            let ghost middle = store@;
            store.drop_bridges(key_id, node_id, label.as_str());
            assert(middle.bridges_without(key_id, node_id, label@) =~= before.bridges_without(
                key_id,
                node_id,
                label@,
            ));
            Ok(())
        },
    }
}

/// Who stays when a leaf is evicted: the leaves beside it with their hardware
/// keys, and the shares that they presented.
#[verifier::ext_equal]
pub struct EvictionView {
    pub threshold: u8,
    pub leaf_ids: Seq<i64>,
    pub leaf_hardware: Seq<i64>,
    pub shares: Seq<Seq<u8>>,
}

/// The first of the survivors that cannot stay, and why: its share was not
/// presented, or its key cannot back a leaf.
pub open spec fn survivor_fault(
    keys: Seq<HardwareKeyView>,
    ids: Seq<i64>,
    hardware: Seq<i64>,
    presented: Map<i64, Seq<u8>>,
    n: nat,
) -> Option<Error>
    decreases n,
{
    if n == 0 {
        None
    } else {
        match survivor_fault(keys, ids, hardware, presented, (n - 1) as nat) {
            Some(e) => Some(e),
            None => if !presented.contains_key(ids[n - 1]) {
                Some(Error::QuorumNotMet)
            } else {
                fault_of(active_encryption_key(keys, hardware[n - 1]))
            },
        }
    }
}

pub open spec fn shares_of(ids: Seq<i64>, presented: Map<i64, Seq<u8>>) -> Seq<Seq<u8>> {
    Seq::new(ids.len(), |k: int| presented[ids[k]])
}

/// Who stays when the leaf is evicted, or why it cannot be.
pub open spec fn eviction(
    s: TreeStoreView,
    keys: Seq<HardwareKeyView>,
    key_id: i64,
    evicted: i64,
    presented: Map<i64, Seq<u8>>,
) -> Result<EvictionView, Error> {
    match loaded(s, key_id) {
        Err(e) => Err(e),
        Ok(t) => if !node_of_key(s.nodes, key_id, evicted) {
            Err(Error::NodeNotFound)
        } else {
            let i = place_of(key_rows(s.nodes, key_id), evicted);
            if !t.nodes[i].is_active || t.nodes[i].hardware_key_id is None {
                Err(Error::CannotEvict)
            } else {
                match t.nodes[i].parent {
                    None => Err(Error::CannotEvict),
                    Some(p) => match (
                        t.nodes[p].threshold,
                        leaves_below(t, p, i, t.nodes[p].children.len()),
                    ) {
                        (Some(threshold), Some(at)) => eviction_at(
                            t,
                            keys,
                            threshold,
                            at,
                            presented,
                        ),
                        _ => Err(Error::CannotEvict),
                    },
                }
            }
        },
    }
}

/// The same, once the survivors are known.
pub open spec fn eviction_at(
    t: TreeShape,
    keys: Seq<HardwareKeyView>,
    threshold: int,
    at: Seq<int>,
    presented: Map<i64, Seq<u8>>,
) -> Result<EvictionView, Error> {
    let ids = ids_at(t, at);
    let hardware = hardware_at(t, at);
    if threshold < 2 || at.len() < threshold {
        Err(Error::CannotEvict)
    } else {
        match survivor_fault(keys, ids, hardware, presented, at.len()) {
            Some(e) => Err(e),
            None => if !refreshable(shares_of(ids, presented), threshold as u8) {
                Err(Error::ShareShapeMismatch)
            } else {
                Ok(
                    EvictionView {
                        threshold: threshold as u8,
                        leaf_ids: ids,
                        leaf_hardware: hardware,
                        shares: shares_of(ids, presented),
                    },
                )
            },
        }
    }
}

/// The rows with one of them deactivated.
pub open spec fn deactivated(nodes: Seq<NodeRowView>, id: i64) -> Seq<NodeRowView> {
    Seq::new(
        nodes.len(),
        |i: int|
            if nodes[i].id == id {
                NodeRowView { is_active: false, ..nodes[i] }
            } else {
                nodes[i]
            },
    )
}

/// The leaf is inactive and its bindings are gone; the survivors hold refreshed
/// shares, sealed to the keys that they had.
pub open spec fn evicted_from(
    before: TreeStoreView,
    after: TreeStoreView,
    keys: Seq<HardwareKeyView>,
    key_id: i64,
    id: i64,
    plan: EvictionView,
    shares: Seq<Seq<u8>>,
    sealed: Seq<Seq<u8>>,
) -> bool {
    let label = before.nodes[place_of(before.nodes, id)].label;
    let n = plan.leaf_ids.len();
    &&& shares.len() == n
    &&& sealed.len() == n
    &&& refreshed_in_rounds(plan.shares, shares, plan.threshold)
    &&& refreshed(plan.shares, shares, plan.threshold)
    &&& forall|k: int|
        0 <= k < n ==> opens_to(
            #[trigger] sealed[k],
            (key_with_id(keys, plan.leaf_hardware[k])->Ok_0).public_key,
            shares[k],
        )
    &&& after.keys == before.keys
    &&& after.bridges == before.bridges_without(key_id, id, label)
    &&& after.links == before.links_without(id)
    &&& resealed(deactivated(before.nodes, id), after.nodes, plan.leaf_ids, sealed)
}

struct Eviction {
    threshold: u8,
    leaf_ids: Vec<i64>,
    leaf_hardware: Vec<i64>,
    shares: Vec<Vec<u8>>,
}

impl View for Eviction {
    type V = EvictionView;

    closed spec fn view(&self) -> EvictionView {
        EvictionView {
            threshold: self.threshold,
            leaf_ids: self.leaf_ids@,
            leaf_hardware: self.leaf_hardware@,
            shares: byte_views(self.shares@),
        }
    }
}

proof fn lemma_survivor_fault_stays(
    keys: Seq<HardwareKeyView>,
    ids: Seq<i64>,
    hardware: Seq<i64>,
    presented: Map<i64, Seq<u8>>,
    n: nat,
    total: nat,
)
    requires
        n <= total,
        survivor_fault(keys, ids, hardware, presented, n) is Some,
    ensures
        survivor_fault(keys, ids, hardware, presented, total) == survivor_fault(
            keys,
            ids,
            hardware,
            presented,
            n,
        ),
    decreases total - n,
{
    if n < total {
        lemma_survivor_fault_stays(keys, ids, hardware, presented, n + 1, total);
    }
}

proof fn lemma_survivors_sound(
    keys: Seq<HardwareKeyView>,
    ids: Seq<i64>,
    hardware: Seq<i64>,
    presented: Map<i64, Seq<u8>>,
    n: nat,
)
    requires
        survivor_fault(keys, ids, hardware, presented, n) is None,
    ensures
        hardware_fault(keys, hardware, n) is None,
        forall|k: int| 0 <= k < n ==> presented.contains_key(#[trigger] ids[k]),
    decreases n,
{
    if n > 0 {
        lemma_survivors_sound(keys, ids, hardware, presented, (n - 1) as nat);
    }
}

/// The shares that the survivors presented.
fn collect_survivors(
    registry: &KeyRegistry,
    ids: &Vec<i64>,
    hardware: &Vec<i64>,
    presented: &HashMap<i64, Vec<u8>>,
) -> (r: Result<Vec<Vec<u8>>, Error>)
    requires
        registry_wf(registry@),
        ids@.len() == hardware@.len(),
    ensures
        fault_of(r) == survivor_fault(
            registry@,
            ids@,
            hardware@,
            share_views(presented@),
            ids@.len(),
        ),
        r matches Ok(shares) ==> byte_views(shares@) == shares_of(ids@, share_views(presented@)),
{
    let ghost raws = share_views(presented@);
    let mut shares: Vec<Vec<u8>> = Vec::new();
    let mut i: usize = 0;
    while i < ids.len()
        invariant
            i <= ids.len(),
            registry_wf(registry@),
            ids@.len() == hardware@.len(),
            raws == share_views(presented@),
            survivor_fault(registry@, ids@, hardware@, raws, i as nat) is None,
            shares@.len() == i,
            forall|k: int| 0 <= k < i ==> (#[trigger] shares@[k])@ == raws[ids@[k]],
        decreases ids.len() - i,
    {
        match presented.get(&ids[i]) {
            None => {
                proof {
                    lemma_survivor_fault_stays(
                        registry@,
                        ids@,
                        hardware@,
                        raws,
                        (i + 1) as nat,
                        ids@.len(),
                    );
                }
                return Err(Error::QuorumNotMet);
            },
            Some(raw) => {
                match get_active_encryption_key(registry, hardware[i]) {
                    Ok(_) => {},
                    Err(e) => {
                        proof {
                            lemma_survivor_fault_stays(
                                registry@,
                                ids@,
                                hardware@,
                                raws,
                                (i + 1) as nat,
                                ids@.len(),
                            );
                        }
                        return Err(e);
                    },
                }
                shares.push(copy_bytes(raw.as_slice()));
            },
        }
        i += 1;
    }
    assert(byte_views(shares@) =~= shares_of(ids@, raws));
    Ok(shares)
}

/// Decides whether a leaf can be evicted and refreshes the shares beside it.
fn plan_eviction(
    store: &TreeStore,
    registry: &KeyRegistry,
    key_id: i64,
    evicted_node_id: i64,
    presented: &HashMap<i64, Vec<u8>>,
) -> (r: Result<(Eviction, Ghost<EvictionView>), Error>)
    requires
        store.wf(),
        registry_wf(registry@),
    ensures
        match (
            r,
            eviction(store@, registry@, key_id, evicted_node_id, share_views(presented@)),
        ) {
            (Ok(planned), Ok(view)) => planned.1@ == view && planned.0@ == (EvictionView {
                shares: planned.0@.shares,
                ..view
            }) && refreshed_in_rounds(view.shares, planned.0@.shares, view.threshold)
                && refreshed(view.shares, planned.0@.shares, view.threshold),
            (Err(e), Err(expected)) => e == expected,
            _ => false,
        },
{
    let tree = match KeyQuorumTree::load(store, key_id) {
        Ok(tree) => tree,
        Err(e) => { return Err(e); },
    };
    let ghost rows = key_rows(store@.nodes, key_id);
    proof {
        lemma_rows_ordered(store@.nodes, key_id);
    }
    let evicted_idx: usize = match tree.index_by_db_id(evicted_node_id) {
        Ok(i) => {
            proof {
                assert(tree@.nodes[i as int] == shape_of_row(rows, store@.bridges, i as int));
                lemma_place_of(rows, i as int);
                assert(store@.nodes.contains(rows[i as int]));
                let k = choose|k: int|
                    0 <= k < store@.nodes.len() && store@.nodes[k] == rows[i as int];
                assert(store@.nodes[k].id == evicted_node_id);
            }
            i
        },
        Err(e) => {
            proof {
                if node_of_key(store@.nodes, key_id, evicted_node_id) {
                    let k = choose|k: int|
                        0 <= k < store@.nodes.len() && (#[trigger] store@.nodes[k]).id
                            == evicted_node_id && store@.nodes[k].key_id == key_id;
                    assert(rows.contains(store@.nodes[k]));
                    let i = choose|i: int| 0 <= i < rows.len() && rows[i] == store@.nodes[k];
                    assert(tree@.nodes[i] == shape_of_row(rows, store@.bridges, i));
                }
            }
            return Err(e);
        },
    };
    assert(tree@.nodes[evicted_idx as int] == tree.nodes@[evicted_idx as int]@);
    if !tree.nodes[evicted_idx].is_active || tree.nodes[evicted_idx].hardware_key_id.is_none() {
        return Err(Error::CannotEvict);
    }
    let parent_idx: usize = match tree.nodes[evicted_idx].parent_idx {
        Some(p) => p,
        None => { return Err(Error::CannotEvict); },
    };
    assert(tree@.nodes[parent_idx as int] == tree.nodes@[parent_idx as int]@);
    let threshold: usize = match tree.nodes[parent_idx].threshold {
        Some(threshold) => threshold,
        None => { return Err(Error::CannotEvict); },
    };
    // With a threshold of one the blinding polynomial is zero throughout, and the
    // evicted share would still give the split's value by itself.
    if threshold < 2 {
        return Err(Error::CannotEvict);
    }
    let survivors = match tree.active_leaves(parent_idx, Some(evicted_idx)) {
        Some(survivors) => survivors,
        None => { return Err(Error::CannotEvict); },
    };
    if survivors.ids.len() < threshold {
        return Err(Error::CannotEvict);
    }
    let mut shares = match collect_survivors(
        registry,
        &survivors.ids,
        &survivors.hardware,
        presented,
    ) {
        Ok(shares) => shares,
        Err(e) => { return Err(e); },
    };
    let ghost view = EvictionView {
        threshold: threshold as u8,
        leaf_ids: survivors.ids@,
        leaf_hardware: survivors.hardware@,
        shares: byte_views(shares@),
    };
    match refresh_among(&mut shares, threshold as u8) {
        Ok(()) => {},
        Err(e) => { return Err(e); },
    }
    let plan = Eviction {
        threshold: threshold as u8,
        leaf_ids: survivors.ids,
        leaf_hardware: survivors.hardware,
        shares,
    };
    Ok((plan, Ghost(view)))
}

pub(crate) proof fn lemma_eviction(
    s: TreeStoreView,
    keys: Seq<HardwareKeyView>,
    key_id: i64,
    evicted: i64,
    presented: Map<i64, Seq<u8>>,
)
    requires
        s.wf(),
        eviction(s, keys, key_id, evicted, presented) is Ok,
    ensures
        ({
            let plan = eviction(s, keys, key_id, evicted, presented)->Ok_0;
            &&& plan.leaf_ids.no_duplicates()
            &&& plan.leaf_ids.len() == plan.leaf_hardware.len()
            &&& plan.leaf_ids.len() == plan.shares.len()
            &&& hardware_fault(keys, plan.leaf_hardware, plan.leaf_hardware.len()) is None
            &&& node_of_key(s.nodes, key_id, evicted)
            &&& !plan.leaf_ids.contains(evicted)
        }),
{
    let t = loaded(s, key_id)->Ok_0;
    let rows = key_rows(s.nodes, key_id);
    lemma_rows_ordered(s.nodes, key_id);
    let home = choose|k: int|
        0 <= k < s.nodes.len() && (#[trigger] s.nodes[k]).id == evicted && s.nodes[k].key_id
            == key_id;
    assert(rows.contains(s.nodes[home]));
    let i = choose|i: int| 0 <= i < rows.len() && rows[i] == s.nodes[home];
    lemma_place_of(rows, i);
    assert(t.nodes[i] == shape_of_row(rows, s.bridges, i));
    let p = t.nodes[i].parent->0;
    crate::key_tree::tree::lemma_shape_wf(rows, s.bridges);
    assert(0 <= p < rows.len());
    let at = leaves_below(t, p, i, t.nodes[p].children.len())->0;
    assert(t.nodes[p] == shape_of_row(rows, s.bridges, p));
    lemma_leaves_below(rows, s.bridges, p, i, t.nodes[p].children.len());
    lemma_ids_distinct(t, rows, at);
    lemma_survivors_sound(keys, ids_at(t, at), hardware_at(t, at), presented, at.len());
    let ids = ids_at(t, at);
    if ids.contains(evicted) {
        let k = choose|k: int| 0 <= k < ids.len() && ids[k] == evicted;
        assert(t.nodes[at[k]].db_id == rows[at[k]].id);
        lemma_place_of(rows, at[k]);
    }
}

/// Evicts an active leaf and refreshes the shares of every active leaf beside
/// it. The threshold stays. All those siblings have to be leaves and to present
/// their shares. If that cannot be done, nothing changes.
pub fn evict_and_refresh(
    store: &mut TreeStore,
    registry: &KeyRegistry,
    key_id: i64,
    evicted_node_id: i64,
    survivor_raw_shares: &HashMap<i64, Vec<u8>>,
) -> (r: Result<(), Error>)
    requires
        old(store).wf(),
        registry_wf(registry@),
    ensures
        final(store).wf(),
        match (
            r,
            eviction(
                old(store)@,
                registry@,
                key_id,
                evicted_node_id,
                share_views(survivor_raw_shares@),
            ),
        ) {
            (Err(e), Err(expected)) => e == expected && *final(store) == *old(store),
            (Ok(()), Ok(plan)) => exists|shares: Seq<Seq<u8>>, sealed: Seq<Seq<u8>>| #[trigger]
                evicted_from(
                    old(store)@,
                    final(store)@,
                    registry@,
                    key_id,
                    evicted_node_id,
                    plan,
                    shares,
                    sealed,
                ),
            _ => false,
        },
{
    let (plan, Ghost(view)) = match plan_eviction(
        store,
        registry,
        key_id,
        evicted_node_id,
        survivor_raw_shares,
    ) {
        Ok(planned) => planned,
        Err(e) => { return Err(e); },
    };
    let ghost before = store@;
    proof {
        lemma_eviction(
            before,
            registry@,
            key_id,
            evicted_node_id,
            share_views(survivor_raw_shares@),
        );
    }
    match delete_node_bindings(store, key_id, evicted_node_id) {
        Ok(()) => {},
        Err(e) => {
            assert(false);
            return Err(e);
        },
    }
    let ghost unbound = store@;
    match store.find_node(evicted_node_id) {
        None => {
            assert(false);
        },
        Some(place) => {
            assert(unbound.nodes[place as int] == store.nodes@[place as int]@);
            store.nodes[place].is_active = false;
            proof {
                let after = store@;
                assert forall|i: int| 0 <= i < unbound.nodes.len() implies (
                #[trigger] after.nodes[i]) == deactivated(unbound.nodes, evicted_node_id)[i] by {
                    if i < place {
                        assert(unbound.nodes[i].id < unbound.nodes[place as int].id);
                    } else if i > place {
                        assert(unbound.nodes[place as int].id < unbound.nodes[i].id);
                    }
                }
                assert(after.nodes =~= deactivated(unbound.nodes, evicted_node_id));
                assert(same_skeleton(unbound.nodes, after.nodes));
                assert(after.keys =~= unbound.keys);
                assert(after.bridges =~= unbound.bridges);
                assert(after.links =~= unbound.links);
                lemma_skeleton_keeps_wf(unbound, after);
            }
        },
    }
    let ghost start = store@;
    let ghost shares = byte_views(plan.shares@);
    let ghost mut sealed: Seq<Seq<u8>> = Seq::empty();
    let n: usize = plan.leaf_ids.len();
    assert(shares.len() == n);
    let mut k: usize = 0;
    assert(resealed(start.nodes, store@.nodes, plan.leaf_ids@.take(0), sealed.take(0)));
    while k < n
        invariant
            k <= n,
            n == plan.leaf_ids@.len(),
            n == plan.leaf_hardware@.len(),
            n == plan.shares@.len(),
            store.wf(),
            registry_wf(registry@),
            plan.leaf_ids@.no_duplicates(),
            hardware_fault(registry@, plan.leaf_hardware@, n as nat) is None,
            shares == byte_views(plan.shares@),
            sealed.len() == k,
            store@ == (TreeStoreView { nodes: store@.nodes, ..start }),
            resealed(
                start.nodes,
                store@.nodes,
                plan.leaf_ids@.take(k as int),
                sealed.take(k as int),
            ),
            forall|m: int|
                0 <= m < k ==> opens_to(
                    #[trigger] sealed[m],
                    (key_with_id(registry@, plan.leaf_hardware@[m])->Ok_0).public_key,
                    shares[m],
                ),
        decreases n - k,
    {
        proof {
            lemma_hardware_sound(registry@, plan.leaf_hardware@, n as nat, k as int);
        }
        let hardware_key = match get_active_encryption_key(registry, plan.leaf_hardware[k]) {
            Ok(key) => key,
            Err(e) => {
                assert(false);
                return Err(e);
            },
        };
        proof {
            let at = key_place(registry@, plan.leaf_hardware@[k as int])->0;
            assert(registry@[at].public_key.len() == KEY_LEN);
        }
        let wrapped = match seal_share(hardware_key, plan.shares[k].as_slice()) {
            Ok(wrapped) => wrapped,
            Err(e) => {
                assert(false);
                return Err(e);
            },
        };
        let ghost middle = store@.nodes;
        let ghost earlier = sealed;
        let ghost bytes = wrapped@;
        store.reseal(plan.leaf_ids[k], wrapped);
        proof {
            sealed = earlier.push(bytes);
            assert(sealed.take(k as int) =~= earlier.take(k as int));
            assert(sealed[k as int] == bytes);
            lemma_reseal_one_more(
                start.nodes,
                middle,
                store@.nodes,
                plan.leaf_ids@,
                sealed,
                k as int,
            );
            assert(shares[k as int] == plan.shares@[k as int]@);
            assert forall|m: int| 0 <= m < k + 1 implies opens_to(
                #[trigger] sealed[m],
                (key_with_id(registry@, plan.leaf_hardware@[m])->Ok_0).public_key,
                shares[m],
            ) by {
                if m < k {
                    assert(sealed[m] == earlier[m]);
                }
            }
        }
        k += 1;
    }
    proof {
        assert(sealed.take(k as int) =~= sealed);
        assert(plan.leaf_ids@.take(k as int) =~= plan.leaf_ids@);
        assert(evicted_from(
            before,
            store@,
            registry@,
            key_id,
            evicted_node_id,
            view,
            shares,
            sealed,
        ));
    }
    Ok(())
}

} // verus!
