//! Which values the nodes of a tree stand for.

use vstd::prelude::*;

use crate::keys::{key_with_id, HardwareKeyView};
use crate::key_tree::store::NodeRowView;
use crate::sealing::opens_to;
use crate::shamir::{distinct_xs, interpolated, of_degree_below, quorum_of};

verus! {

/// The ids of the active children of a node, in order.
pub open spec fn active_children(nodes: Seq<NodeRowView>, id: i64) -> Seq<i64>
    decreases nodes.len(),
{
    if nodes.len() == 0 {
        Seq::empty()
    } else {
        let before = active_children(nodes.drop_last(), id);
        if nodes.last().parent_id == Some(id) && nodes.last().is_active {
            before.push(nodes.last().id)
        } else {
            before
        }
    }
}

pub open spec fn values_at(ids: Seq<i64>, values: Map<i64, Seq<u8>>) -> Seq<Seq<u8>> {
    Seq::new(ids.len(), |k: int| values[ids[k]])
}

/// The shares belong together: each stands at a place of its own other than
/// zero, every quorum of them gives the secret, and they are values of polynomials
/// with one coefficient less than the threshold beside the secret.
pub open spec fn share_the_secret(shares: Seq<Seq<u8>>, secret: Seq<u8>, threshold: u8) -> bool {
    &&& distinct_xs(shares)
    &&& forall|k: int|
        0 <= k < shares.len() ==> (#[trigger] shares[k]).len() == secret.len() + 1 && shares[k][0]
            != 0
    &&& secret.len() > 0 ==> forall|picked: Seq<Seq<u8>>| #[trigger]
        quorum_of(picked, shares, threshold) ==> interpolated(picked) == secret
    &&& threshold >= 1 ==> of_degree_below(shares, secret, threshold)
}

/// A leaf's sealed share opens to the leaf's value; the values of a split's
/// active children share the split's value.
pub open spec fn node_holds(
    nodes: Seq<NodeRowView>,
    keys: Seq<HardwareKeyView>,
    values: Map<i64, Seq<u8>>,
    row: NodeRowView,
) -> bool {
    match row.hardware_key_id {
        Some(hardware_key_id) => match (row.wrapped_share, key_with_id(keys, hardware_key_id)) {
            (Some(wrapped), Ok(key)) => opens_to(wrapped, key.public_key, values[row.id]),
            _ => false,
        },
        None => match row.threshold {
            Some(threshold) => share_the_secret(
                values_at(active_children(nodes, row.id), values),
                values[row.id],
                threshold as u8,
            ),
            None => true,
        },
    }
}

/// Every node of the secret stands for its value.
pub open spec fn tree_holds(
    nodes: Seq<NodeRowView>,
    key_id: i64,
    keys: Seq<HardwareKeyView>,
    values: Map<i64, Seq<u8>>,
) -> bool {
    forall|i: int|
        0 <= i < nodes.len() && (#[trigger] nodes[i]).key_id == key_id ==> node_holds(
            nodes,
            keys,
            values,
            nodes[i],
        )
}

pub proof fn lemma_children_append(a: Seq<NodeRowView>, b: Seq<NodeRowView>, id: i64)
    ensures
        active_children(a + b, id) == active_children(a, id) + active_children(b, id),
    decreases b.len(),
{
    if b.len() == 0 {
        assert(a + b =~= a);
        assert(active_children(a, id) + active_children(b, id) =~= active_children(a, id));
    } else {
        assert((a + b).drop_last() =~= a + b.drop_last());
        assert((a + b).last() == b.last());
        lemma_children_append(a, b.drop_last(), id);
        if b.last().parent_id == Some(id) && b.last().is_active {
            assert(active_children(a, id) + active_children(b, id) =~= (active_children(a, id)
                + active_children(b.drop_last(), id)).push(b.last().id));
        }
    }
}

pub proof fn lemma_no_children(nodes: Seq<NodeRowView>, id: i64)
    requires
        forall|i: int| 0 <= i < nodes.len() ==> (#[trigger] nodes[i]).parent_id != Some(id),
    ensures
        active_children(nodes, id) == Seq::<i64>::empty(),
    decreases nodes.len(),
{
    if nodes.len() > 0 {
        assert forall|i: int| 0 <= i < nodes.drop_last().len() implies (
        #[trigger] nodes.drop_last()[i]).parent_id != Some(id) by {
            assert(nodes.drop_last()[i] == nodes[i]);
        }
        lemma_no_children(nodes.drop_last(), id);
        assert(nodes[nodes.len() - 1].parent_id != Some(id));
    }
}

/// Active children are rows of their own whose parent the node is.
pub proof fn lemma_children_are_rows(nodes: Seq<NodeRowView>, id: i64, k: int)
    requires
        0 <= k < active_children(nodes, id).len(),
    ensures
        exists|i: int|
            0 <= i < nodes.len() && (#[trigger] nodes[i]).id == active_children(nodes, id)[k]
                && nodes[i].parent_id == Some(id) && nodes[i].is_active,
    decreases nodes.len(),
{
    let front = nodes.drop_last();
    let before = active_children(front, id);
    if k < before.len() {
        lemma_children_are_rows(front, id, k);
        let i = choose|i: int|
            0 <= i < front.len() && (#[trigger] front[i]).id == before[k] && front[i].parent_id
                == Some(id) && front[i].is_active;
        assert(nodes[i] == front[i]);
    } else {
        assert(nodes[nodes.len() - 1].id == active_children(nodes, id)[k]);
    }
}

} // verus!
