//! Sealing shares anew: for another hardware key, or for one leaf more.

use std::collections::HashMap;

use vstd::prelude::*;

use crate::bytes::{byte_views, bytes_equal};
use crate::error::{fault_of, Error, StoreError};
use crate::keys::{active_encryption_key, get_active_encryption_key, get_key, key_place, key_with_id,
    registry_wf, HardwareKeyView, KeyRegistry};
use crate::key_tree::bridges::{labelled_place, lemma_label_agrees};
use crate::key_tree::reconstruct::bytes_result;
use crate::key_tree::split::seal_share;
use crate::key_tree::store::{
    lemma_skeleton_keeps_wf, node_exists, same_skeleton, NodeRowView, TreeStore, TreeStoreView,
};
use crate::key_tree::tree::{
    key_rows, lemma_place_of, lemma_rows_ordered, loaded, place_of, KeyQuorumTree,
};
use crate::pss::{distinct_nonzero, require_distinct_nonzero_xs};
use crate::sealing::{box_public_key, derive_box_public_key, key_array, opens_to, unseal, unsealed,
    KEY_LEN};
use crate::shamir::{interpolated, recover, recoverable};

verus! {

broadcast use vstd::std_specs::hash::group_hash_axioms;

/// The row with the given id.
pub open spec fn node_with_id(nodes: Seq<NodeRowView>, id: i64) -> Result<NodeRowView, Error> {
    if node_exists(nodes, id) {
        Ok(nodes[place_of(nodes, id)])
    } else {
        Err(Error::Db(StoreError::NoRows))
    }
}

/// What a leaf's sealed share opens to under a secret key, which has to be that
/// of the leaf's hardware key.
pub open spec fn leaf_share(
    nodes: Seq<NodeRowView>,
    keys: Seq<HardwareKeyView>,
    node_id: i64,
    secret: Seq<u8>,
) -> Result<Seq<u8>, Error> {
    if secret.len() != KEY_LEN {
        Err(Error::InvalidPublicKey)
    } else {
        match node_with_id(nodes, node_id) {
            Err(e) => Err(e),
            Ok(row) => match (row.hardware_key_id, row.wrapped_share) {
                (Some(hardware_key_id), Some(wrapped)) => match key_with_id(keys, hardware_key_id) {
                    Err(e) => Err(e),
                    Ok(key) => if key.public_key != box_public_key(secret) {
                        Err(Error::IntegrityCheckFailed)
                    } else {
                        match unsealed(secret, wrapped) {
                            Some(share) => Ok(share),
                            None => Err(Error::IntegrityCheckFailed),
                        }
                    },
                },
                _ => Err(Error::NodeNotFound),
            },
        }
    }
}

/// Opens one leaf's sealed share with the secret key of its hardware key.
pub fn unwrap_leaf_share(
    store: &TreeStore,
    registry: &KeyRegistry,
    node_id: i64,
    secret_key_bytes: &[u8],
) -> (r: Result<Vec<u8>, Error>)
    requires
        store.wf(),
        registry_wf(registry@),
    ensures
        bytes_result(r) == leaf_share(store@.nodes, registry@, node_id, secret_key_bytes@),
{
    let secret = match key_array(secret_key_bytes) {
        Some(secret) => secret,
        None => { return Err(Error::InvalidPublicKey); },
    };
    let expected_public = derive_box_public_key(&secret);
    let place: usize = match store.find_node(node_id) {
        Some(place) => place,
        None => { return Err(Error::Db(StoreError::NoRows)); },
    };
    proof {
        lemma_place_of(store@.nodes, place as int);
        assert(store@.nodes[place as int] == store.nodes@[place as int]@);
    }
    let row = &store.nodes[place];
    let hardware_key_id: i64 = match row.hardware_key_id {
        Some(id) => id,
        None => { return Err(Error::NodeNotFound); },
    };
    let wrapped = match &row.wrapped_share {
        Some(wrapped) => wrapped,
        None => { return Err(Error::NodeNotFound); },
    };
    let hardware_key = match get_key(registry, hardware_key_id) {
        Ok(key) => key,
        Err(e) => { return Err(e); },
    };
    if !bytes_equal(hardware_key.public_key.as_slice(), &expected_public) {
        return Err(Error::IntegrityCheckFailed);
    }
    match unseal(&secret, wrapped.as_slice()) {
        Some(share) => Ok(share),
        None => Err(Error::IntegrityCheckFailed),
    }
}

/// The share that a leaf is to have sealed anew, or why that cannot be.
pub open spec fn rebind_share(
    s: TreeStoreView,
    keys: Seq<HardwareKeyView>,
    key_id: i64,
    label: Seq<char>,
    new_hardware_id: i64,
    old_secret: Seq<u8>,
) -> Result<Seq<u8>, Error> {
    match loaded(s, key_id) {
        Err(e) => Err(e),
        Ok(t) => match labelled_place(t, label) {
            None => Err(Error::NodeNotFound),
            Some(i) => if !t.nodes[i].is_active || t.nodes[i].hardware_key_id is None {
                Err(Error::NodeNotFound)
            } else {
                match leaf_share(s.nodes, keys, t.nodes[i].db_id, old_secret) {
                    Err(e) => Err(e),
                    Ok(share) => match active_encryption_key(keys, new_hardware_id) {
                        Err(e) => Err(e),
                        Ok(_) => Ok(share),
                    },
                }
            },
        },
    }
}

/// One leaf is sealed to another hardware key; the share itself, and
/// everything else, is as it was.
pub open spec fn rebound(
    before: TreeStoreView,
    after: TreeStoreView,
    id: i64,
    new_hardware_id: i64,
    sealed: Seq<u8>,
) -> bool {
    after == (TreeStoreView {
        nodes: rebound_nodes(before.nodes, id, new_hardware_id, sealed),
        ..before
    })
}

pub open spec fn rebound_nodes(
    nodes: Seq<NodeRowView>,
    id: i64,
    new_hardware_id: i64,
    sealed: Seq<u8>,
) -> Seq<NodeRowView> {
    Seq::new(
        nodes.len(),
        |i: int|
            if nodes[i].id == id {
                NodeRowView {
                    hardware_key_id: Some(new_hardware_id),
                    wrapped_share: Some(sealed),
                    ..nodes[i]
                }
            } else {
                nodes[i]
            },
    )
}

/// Seals an active leaf to a new hardware key. The share and the node's id stay,
/// so pairings survive. If that cannot be done, nothing changes.
pub fn rebind_leaf(
    store: &mut TreeStore,
    registry: &KeyRegistry,
    key_id: i64,
    node_label: &str,
    new_hardware_id: i64,
    old_secret: &[u8],
) -> (r: Result<(), Error>)
    requires
        old(store).wf(),
        registry_wf(registry@),
    ensures
        final(store).wf(),
        fault_of(r) == fault_of(
            rebind_share(
                old(store)@,
                registry@,
                key_id,
                node_label@,
                new_hardware_id,
                old_secret@,
            ),
        ),
        r is Err ==> *final(store) == *old(store),
        r is Ok ==> {
            let t = loaded(old(store)@, key_id)->Ok_0;
            let id = t.nodes[labelled_place(t, node_label@)->0].db_id;
            let share = leaf_share(old(store)@.nodes, registry@, id, old_secret@)->Ok_0;
            let new_key = key_with_id(registry@, new_hardware_id)->Ok_0;
            exists|sealed: Seq<u8>| #[trigger]
                rebound(old(store)@, final(store)@, id, new_hardware_id, sealed) && opens_to(
                    sealed,
                    new_key.public_key,
                    share,
                )
        },
{
    let tree = match KeyQuorumTree::load(store, key_id) {
        Ok(tree) => tree,
        Err(e) => { return Err(e); },
    };
    proof {
        lemma_label_agrees(store@, key_id, node_label@);
        lemma_rows_ordered(store@.nodes, key_id);
    }
    let idx: usize = match tree.index_by_label(node_label) {
        Ok(i) => i,
        Err(e) => { return Err(e); },
    };
    assert(tree@.nodes[idx as int] == tree.nodes@[idx as int]@);
    let node = &tree.nodes[idx];
    if !node.is_active || node.hardware_key_id.is_none() {
        return Err(Error::NodeNotFound);
    }
    let share = match unwrap_leaf_share(store, registry, node.db_id, old_secret) {
        Ok(share) => share,
        Err(e) => { return Err(e); },
    };
    let new_hw = match get_active_encryption_key(registry, new_hardware_id) {
        Ok(key) => key,
        Err(e) => { return Err(e); },
    };
    proof {
        let at = key_place(registry@, new_hardware_id)->0;
        assert(registry@[at].public_key.len() == KEY_LEN);
    }
    let wrapped = match seal_share(new_hw, share.as_slice()) {
        Ok(wrapped) => wrapped,
        Err(e) => { return Err(e); },
    };
    match store.find_node(node.db_id) {
        None => {
            assert(false);
            Err(Error::NodeNotFound)
        },
        Some(place) => {
            let ghost before = store@;
            let ghost sealed = wrapped@;
            assert(before.nodes[place as int] == store.nodes@[place as int]@);
            let id: i64 = node.db_id;
            assert(before.nodes[place as int].hardware_key_id is Some) by {
                let rows = key_rows(before.nodes, key_id);
                assert(rows[idx as int].id == id);
                assert(before.nodes.contains(rows[idx as int]));
                let k = choose|k: int|
                    0 <= k < before.nodes.len() && before.nodes[k] == rows[idx as int];
                if k < place {
                    assert(before.nodes[k].id < before.nodes[place as int].id);
                } else if k > place {
                    assert(before.nodes[place as int].id < before.nodes[k].id);
                }
            }
            store.nodes[place].hardware_key_id = Some(new_hardware_id);
            store.nodes[place].wrapped_share = Some(wrapped);
            proof {
                let after = store@;
                assert forall|i: int| 0 <= i < before.nodes.len() implies (
                #[trigger] after.nodes[i]) == (if before.nodes[i].id == id {
                    NodeRowView {
                        hardware_key_id: Some(new_hardware_id),
                        wrapped_share: Some(sealed),
                        ..before.nodes[i]
                    }
                } else {
                    before.nodes[i]
                }) by {
                    if i < place {
                        assert(before.nodes[i].id < before.nodes[place as int].id);
                    } else if i > place {
                        assert(before.nodes[place as int].id < before.nodes[i].id);
                    }
                }
                assert(same_skeleton(before.nodes, after.nodes));
                assert(after.keys =~= before.keys);
                assert(after.bridges =~= before.bridges);
                assert(after.links =~= before.links);
                lemma_skeleton_keeps_wf(before, after);
                assert(after.nodes =~= rebound_nodes(before.nodes, id, new_hardware_id, sealed));
                assert(rebound(before, after, id, new_hardware_id, sealed));
            }
            Ok(())
        },
    }
}

/// The presented shares have usable and distinct coordinates.
pub open spec fn coordinates_usable(raws: Seq<Seq<u8>>) -> bool {
    &&& forall|k: int| 0 <= k < raws.len() ==> (#[trigger] raws[k]).len() > 0
    &&& distinct_nonzero(raws.map_values(|s: Seq<u8>| s[0]))
}

/// What the presented shares of a split combine to.
pub open spec fn secret_from(threshold: u8, raws: Seq<Seq<u8>>) -> Result<Seq<u8>, Error> {
    if !coordinates_usable(raws) {
        Err(Error::ShareShapeMismatch)
    } else if (exists|k: int| 0 <= k < raws.len() && (#[trigger] raws[k]).len() < 2)
        || !recoverable(threshold, raws) {
        Err(Error::QuorumNotMet)
    } else {
        Ok(interpolated(raws))
    }
}

fn require_recoverable_share_coordinates(raw_shares: &Vec<Vec<u8>>) -> (r: Result<(), Error>)
    ensures
        r is Ok <==> coordinates_usable(byte_views(raw_shares@)),
        r matches Err(e) ==> e == Error::ShareShapeMismatch,
{
    let ghost raws = byte_views(raw_shares@);
    let mut xs: Vec<u8> = Vec::new();
    let mut i: usize = 0;
    while i < raw_shares.len()
        invariant
            i <= raw_shares.len(),
            raws == byte_views(raw_shares@),
            xs@.len() == i,
            forall|k: int| 0 <= k < i ==> (#[trigger] raws[k]).len() > 0 && xs@[k] == raws[k][0],
        decreases raw_shares.len() - i,
    {
        assert(raws[i as int] == raw_shares@[i as int]@);
        if raw_shares[i].len() == 0 {
            return Err(Error::ShareShapeMismatch);
        }
        xs.push(raw_shares[i][0]);
        i += 1;
    }
    assert(xs@ =~= raws.map_values(|s: Seq<u8>| s[0]));
    require_distinct_nonzero_xs(xs.as_slice())
}

pub(crate) fn recover_secret(threshold: u8, raw_shares: &Vec<Vec<u8>>) -> (r: Result<Vec<u8>, Error>)
    ensures
        bytes_result(r) == secret_from(threshold, byte_views(raw_shares@)),
{
    match require_recoverable_share_coordinates(raw_shares) {
        Ok(()) => {},
        Err(e) => { return Err(e); },
    }
    let ghost raws = byte_views(raw_shares@);
    let mut i: usize = 0;
    while i < raw_shares.len()
        invariant
            i <= raw_shares.len(),
            raws == byte_views(raw_shares@),
            coordinates_usable(raws),
            forall|k: int| 0 <= k < i ==> (#[trigger] raws[k]).len() >= 2,
        decreases raw_shares.len() - i,
    {
        assert(raws[i as int] == raw_shares@[i as int]@);
        if raw_shares[i].len() < 2 {
            return Err(Error::QuorumNotMet);
        }
        i += 1;
    }
    assert forall|k: int| 0 <= k < raw_shares@.len() implies (
    #[trigger] raw_shares@[k])@.len() >= 2 by {
        assert(raws[k].len() >= 2);
    }
    match recover(threshold, raw_shares) {
        Some(secret) => Ok(secret),
        None => Err(Error::QuorumNotMet),
    }
}

} // verus!
