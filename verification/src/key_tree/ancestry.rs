//! Where nodes meet, and how a loaded tree mirrors its rows.

use vstd::prelude::*;

use crate::error::Error;
use crate::key_tree::reconstruct::{
    climbed, combined, common_ancestor, gathered_beside, lemma_lineage, lineage, meet,
    meet_is_unique, met, met_by_all, resolved,
};
use crate::key_tree::store::{node_exists, NodeRowView, TreeStoreView};
use crate::key_tree::tree::{
    child_places, key_rows, lemma_child_places, lemma_rows_ordered, lemma_shape_wf, loaded,
    parent_missing, place_of, shape_of_row, TreeShape,
};
use crate::shamir::interpolated;

verus! {

/// A lineage starts at its node, goes on from each node to the one above it, and
/// ends at one with nothing above.
pub proof fn lineage_climbs_from_parent_to_parent(t: TreeShape, i: int)
    requires
        t.wf(),
        0 <= i < t.nodes.len(),
    ensures
        lineage(t, i).len() > 0,
        lineage(t, i)[0] == i,
        forall|k: int|
            0 <= k < lineage(t, i).len() ==> 0 <= #[trigger] lineage(t, i)[k] < t.nodes.len(),
        forall|k: int|
            0 <= k < lineage(t, i).len() - 1 ==> t.nodes[#[trigger] lineage(t, i)[k]].parent
                == Some(lineage(t, i)[k + 1]),
        t.nodes[lineage(t, i).last()].parent is None,
    decreases i,
{
    let line = lineage(t, i);
    if let Some(p) = t.nodes[i].parent {
        lineage_climbs_from_parent_to_parent(t, p);
        let above = lineage(t, p);
        assert(line =~= seq![i] + above);
        assert forall|k: int| 0 <= k < line.len() implies 0 <= #[trigger] line[k]
            < t.nodes.len() by {
            if k > 0 {
                assert(line[k] == above[k - 1]);
            }
        }
        assert forall|k: int| 0 <= k < line.len() - 1 implies t.nodes[#[trigger] line[k]].parent
            == Some(line[k + 1]) by {
            assert(line[k + 1] == above[k]);
            if k > 0 {
                assert(line[k] == above[k - 1]);
            }
        }
        assert(line.last() == above.last());
    }
}

proof fn lemma_above_parent(t: TreeShape, i: int, x: int)
    requires
        t.wf(),
        0 <= i < t.nodes.len(),
        lineage(t, i).contains(x),
        x != i,
    ensures
        t.nodes[i].parent is Some,
        lineage(t, t.nodes[i].parent->0).contains(x),
{
    let line = lineage(t, i);
    let k = choose|k: int| 0 <= k < line.len() && line[k] == x;
    match t.nodes[i].parent {
        None => {
            assert(line =~= seq![i]);
        },
        Some(p) => {
            assert(line =~= seq![i] + lineage(t, p));
            assert(lineage(t, p)[k - 1] == x);
        },
    }
}

proof fn lemma_parent_above(t: TreeShape, i: int, x: int)
    requires
        t.wf(),
        0 <= i < t.nodes.len(),
        t.nodes[i].parent is Some,
        lineage(t, t.nodes[i].parent->0).contains(x),
    ensures
        lineage(t, i).contains(x),
{
    let above = lineage(t, t.nodes[i].parent->0);
    let k = choose|k: int| 0 <= k < above.len() && above[k] == x;
    assert(lineage(t, i) =~= seq![i] + above);
    assert(lineage(t, i)[k + 1] == x);
}

/// What stands above a node that stands above another stands above that one too.
pub proof fn lineage_is_transitive(t: TreeShape, i: int, r: int, x: int)
    requires
        t.wf(),
        0 <= i < t.nodes.len(),
        lineage(t, i).contains(r),
        lineage(t, r).contains(x),
    ensures
        lineage(t, i).contains(x),
    decreases i,
{
    if r != i {
        lemma_above_parent(t, i, r);
        lineage_is_transitive(t, t.nodes[i].parent->0, r, x);
        lemma_parent_above(t, i, x);
    }
}

/// Of two nodes above a third, one stands above the other.
proof fn lemma_lineage_nests(t: TreeShape, i: int, x: int, y: int)
    requires
        t.wf(),
        0 <= i < t.nodes.len(),
        lineage(t, i).contains(x),
        lineage(t, i).contains(y),
        x <= y,
    ensures
        lineage(t, y).contains(x),
    decreases i,
{
    if y != i {
        lemma_lineage(t, i);
        lemma_above_parent(t, i, y);
        lemma_above_parent(t, i, x);
        lemma_lineage_nests(t, t.nodes[i].parent->0, x, y);
    }
}

proof fn lemma_lowest_up_to(t: TreeShape, a: int, b: int, bound: int) -> (r: int)
    requires
        t.wf(),
        0 <= a < t.nodes.len(),
        0 <= b < t.nodes.len(),
        exists|x: int| x <= bound && #[trigger] common_ancestor(t, a, b, x),
    ensures
        common_ancestor(t, a, b, r),
        forall|x: int| x <= bound && #[trigger] common_ancestor(t, a, b, x) ==> x <= r,
    decreases bound,
{
    let x = choose|x: int| x <= bound && #[trigger] common_ancestor(t, a, b, x);
    lemma_lineage(t, a);
    if common_ancestor(t, a, b, bound) {
        bound
    } else {
        lemma_lowest_up_to(t, a, b, bound - 1)
    }
}

/// Two nodes of a tree meet somewhere.
pub proof fn two_nodes_meet(t: TreeShape, a: int, b: int) -> (r: int)
    requires
        t.wf(),
        0 <= a < t.nodes.len(),
        0 <= b < t.nodes.len(),
    ensures
        meet(t, a, b, r),
        met(t, a, b) == Ok::<int, Error>(r),
{
    if exists|x: int| common_ancestor(t, a, b, x) {
        lemma_lineage(t, a);
        let x = choose|x: int| common_ancestor(t, a, b, x);
        assert(x <= a && common_ancestor(t, a, b, x));
        let r = lemma_lowest_up_to(t, a, b, a);
        assert forall|x: int| #[trigger] common_ancestor(t, a, b, x) implies lineage(
            t,
            r,
        ).contains(x) by {
            lemma_lineage_nests(t, a, x, r);
        }
        assert(meet(t, a, b, r));
        meet_is_unique(t, a, b, r, choose|s: int| meet(t, a, b, s));
        r
    } else {
        assert(meet(t, a, b, t.root));
        meet_is_unique(t, a, b, t.root, choose|s: int| meet(t, a, b, s));
        t.root
    }
}

/// A node stands above every one of the named nodes, or is one of them.
pub open spec fn above_all(t: TreeShape, at: Seq<int>, x: int) -> bool {
    forall|k: int| 0 <= k < at.len() ==> lineage(t, #[trigger] at[k]).contains(x)
}

/// Named nodes meet at the lowest node above all of them: it stands above each, and
/// everything that stands above each stands above it. Where nothing does, they meet
/// at the root.
pub proof fn named_nodes_meet_at_the_lowest_above_all(t: TreeShape, at: Seq<int>)
    requires
        t.wf(),
        t.nodes[t.root].parent is None,
        at.len() > 0,
        forall|k: int| 0 <= k < at.len() ==> 0 <= #[trigger] at[k] < t.nodes.len(),
    ensures
        met_by_all(t, at) is Ok,
        ({
            let r = met_by_all(t, at)->Ok_0;
            if exists|x: int| above_all(t, at, x) {
                &&& forall|k: int| 0 <= k < at.len() ==> lineage(t, #[trigger] at[k]).contains(r)
                &&& forall|x: int| #[trigger] above_all(t, at, x) ==> lineage(t, r).contains(x)
            } else {
                r == t.root
            }
        }),
        0 <= met_by_all(t, at)->Ok_0 < t.nodes.len(),
    decreases at.len(),
{
    if at.len() == 1 {
        lemma_lineage(t, at[0]);
        assert(above_all(t, at, at[0]));
        assert forall|x: int| #[trigger] above_all(t, at, x) implies lineage(t, at[0]).contains(
            x,
        ) by {}
    } else {
        let front = at.drop_last();
        let last = at.last();
        assert forall|k: int| 0 <= k < front.len() implies 0 <= #[trigger] front[k]
            < t.nodes.len() by {
            assert(front[k] == at[k]);
        }
        assert(0 <= at[at.len() - 1] < t.nodes.len());
        named_nodes_meet_at_the_lowest_above_all(t, front);
        let m = met_by_all(t, front)->Ok_0;
        let r = two_nodes_meet(t, m, last);
        assert(met_by_all(t, at) == Ok::<int, Error>(r));
        assert forall|x: int| #[trigger] above_all(t, at, x) implies above_all(t, front, x)
            && lineage(t, last).contains(x) by {
            assert forall|k: int| 0 <= k < front.len() implies lineage(
                t,
                #[trigger] front[k],
            ).contains(x) by {
                assert(at[k] == front[k]);
            }
            assert(lineage(t, at[at.len() - 1]).contains(x));
        }
        lemma_lineage(t, m);
        lemma_lineage(t, last);
        if exists|x: int| above_all(t, front, x) {
            let seen = choose|x: int| above_all(t, front, x);
            assert forall|x: int| #[trigger] common_ancestor(t, m, last, x) implies above_all(
                t,
                at,
                x,
            ) by {
                assert forall|k: int| 0 <= k < at.len() implies lineage(
                    t,
                    #[trigger] at[k],
                ).contains(x) by {
                    if k < front.len() {
                        assert(front[k] == at[k]);
                        lineage_is_transitive(t, at[k], m, x);
                    }
                }
            }
            assert forall|x: int| #[trigger] above_all(t, at, x) implies common_ancestor(
                t,
                m,
                last,
                x,
            ) by {
                assert(above_all(t, front, x));
            }
            if exists|x: int| above_all(t, at, x) {
                let x = choose|x: int| above_all(t, at, x);
                assert(common_ancestor(t, m, last, x));
                assert(above_all(t, at, r));
            } else {
                assert forall|x: int| !#[trigger] common_ancestor(t, m, last, x) by {}
            }
        } else {
            assert(m == t.root);
            assert forall|x: int| #[trigger] common_ancestor(t, m, last, x) implies x == t.root by {
                if x != m {
                    lemma_above_parent(t, m, x);
                }
            }
            assert(r == t.root);
            assert forall|x: int| !#[trigger] above_all(t, at, x) by {
                if above_all(t, at, x) {
                    assert(above_all(t, front, x));
                }
            }
        }
    }
}

/// Where nodes meet does not depend on the order in which they are named, nor on
/// how often.
pub proof fn naming_order_does_not_matter(t: TreeShape, at: Seq<int>, other: Seq<int>)
    requires
        t.wf(),
        t.nodes[t.root].parent is None,
        at.len() > 0,
        other.len() > 0,
        forall|k: int| 0 <= k < at.len() ==> 0 <= #[trigger] at[k] < t.nodes.len(),
        forall|x: int| at.contains(x) <==> other.contains(x),
    ensures
        met_by_all(t, at) == met_by_all(t, other),
{
    assert forall|k: int| 0 <= k < other.len() implies 0 <= #[trigger] other[k]
        < t.nodes.len() by {
        assert(other.contains(other[k]));
        assert(at.contains(other[k]));
        let m = choose|m: int| 0 <= m < at.len() && at[m] == other[k];
        assert(0 <= at[m] < t.nodes.len());
    }
    named_nodes_meet_at_the_lowest_above_all(t, at);
    named_nodes_meet_at_the_lowest_above_all(t, other);
    assert forall|x: int| #[trigger] above_all(t, at, x) <==> above_all(t, other, x) by {
        if above_all(t, at, x) {
            assert forall|k: int| 0 <= k < other.len() implies lineage(
                t,
                #[trigger] other[k],
            ).contains(x) by {
                assert(other.contains(other[k]));
                assert(at.contains(other[k]));
                let m = choose|m: int| 0 <= m < at.len() && at[m] == other[k];
                assert(lineage(t, at[m]).contains(x));
            }
        }
        if above_all(t, other, x) {
            assert forall|k: int| 0 <= k < at.len() implies lineage(t, #[trigger] at[k]).contains(
                x,
            ) by {
                assert(at.contains(at[k]));
                assert(other.contains(at[k]));
                let m = choose|m: int| 0 <= m < other.len() && other[m] == at[k];
                assert(lineage(t, other[m]).contains(x));
            }
        }
    }
    let r = met_by_all(t, at)->Ok_0;
    let s = met_by_all(t, other)->Ok_0;
    if exists|x: int| above_all(t, at, x) {
        let x = choose|x: int| above_all(t, at, x);
        assert(above_all(t, other, x));
        assert(above_all(t, at, r));
        assert(above_all(t, other, s));
        assert(above_all(t, other, r) && above_all(t, at, s));
        lemma_lineage(t, r);
        lemma_lineage(t, s);
    } else if exists|x: int| above_all(t, other, x) {
        let x = choose|x: int| above_all(t, other, x);
        assert(above_all(t, at, x));
    }
}

/// Naming no node, or one of several that is not in the tree, is refused.
pub proof fn unknown_nodes_do_not_meet(t: TreeShape, at: Seq<int>)
    requires
        t.wf(),
        t.nodes[t.root].parent is None,
    ensures
        at.len() == 0 ==> met_by_all(t, at) == Err::<int, Error>(Error::NodeNotFound),
        at.len() == 1 ==> met_by_all(t, at) == Ok::<int, Error>(at[0]),
        at.len() >= 2 && (exists|k: int|
            0 <= k < at.len() && !(0 <= #[trigger] at[k] < t.nodes.len())) ==> met_by_all(t, at)
            == Err::<int, Error>(Error::NodeNotFound),
        met_by_all(t, at) matches Err(e) ==> e == Error::NodeNotFound,
    decreases at.len(),
{
    if at.len() >= 2 {
        let front = at.drop_last();
        unknown_nodes_do_not_meet(t, front);
        if exists|k: int| 0 <= k < at.len() && !(0 <= #[trigger] at[k] < t.nodes.len()) {
            let k = choose|k: int| 0 <= k < at.len() && !(0 <= #[trigger] at[k] < t.nodes.len());
            if k < front.len() {
                assert(front[k] == at[k]);
            }
        }
    }
}

/// The row at a place of the store is that of a node of a loaded tree: they say the
/// same, and the node's parent is the one with the id of the row's parent.
pub open spec fn node_mirrors_row(t: TreeShape, k: int, row: NodeRowView) -> bool {
    &&& row.id == t.nodes[k].db_id
    &&& t.nodes[k].label == row.label
    &&& t.nodes[k].is_active == row.is_active
    &&& t.nodes[k].hardware_key_id == row.hardware_key_id
    &&& t.nodes[k].threshold == (match row.threshold {
        Some(m) => Some(m as int),
        None => None::<int>,
    })
    &&& match row.parent_id {
        None => t.nodes[k].parent is None,
        Some(id) => t.nodes[k].parent matches Some(p) && 0 <= p < k && t.nodes[p].db_id == id,
    }
}

/// A node of a loaded tree is that of some row of the secret.
pub open spec fn has_its_row(s: TreeStoreView, key_id: i64, t: TreeShape, k: int) -> bool {
    exists|i: int|
        0 <= i < s.nodes.len() && s.nodes[i].key_id == key_id && #[trigger] node_mirrors_row(
            t,
            k,
            s.nodes[i],
        )
}

/// A row of the secret is that of some node of a loaded tree.
pub open spec fn has_its_node(t: TreeShape, row: NodeRowView) -> bool {
    exists|k: int| 0 <= k < t.nodes.len() && #[trigger] node_mirrors_row(t, k, row)
}

/// A loaded tree mirrors the rows of its secret: each row is one node, and each node
/// says what its row does. Nodes stand in the order of their ids, the first of them is
/// the root, and no two have the same label.
pub proof fn loaded_nodes_are_the_rows(s: TreeStoreView, key_id: i64)
    requires
        s.wf(),
        loaded(s, key_id) is Ok,
    ensures
        ({
            let t = loaded(s, key_id)->Ok_0;
            &&& t.wf()
            &&& t.root == 0
            &&& t.nodes.len() > 0
            &&& t.nodes[0].parent is None
            &&& forall|i: int|
                0 <= i < s.nodes.len() && (#[trigger] s.nodes[i]).key_id == key_id ==> has_its_node(
                    t,
                    s.nodes[i],
                )
            &&& forall|k: int|
                0 <= k < t.nodes.len() ==> #[trigger] has_its_row(s, key_id, t, k)
            &&& forall|j: int, k: int|
                0 <= j < k < t.nodes.len() ==> (#[trigger] t.nodes[j]).db_id < (
                #[trigger] t.nodes[k]).db_id
            &&& forall|i: int, j: int|
                0 <= i < j < t.nodes.len() ==> (#[trigger] t.nodes[i]).label != (
                #[trigger] t.nodes[j]).label
        }),
{
    let t = loaded(s, key_id)->Ok_0;
    let rows = key_rows(s.nodes, key_id);
    lemma_rows_ordered(s.nodes, key_id);
    lemma_shape_wf(rows, s.bridges);
    assert forall|k: int| 0 <= k < rows.len() implies node_mirrors_row(
        t,
        k,
        #[trigger] rows[k],
    ) by {
        assert(t.nodes[k] == shape_of_row(rows, s.bridges, k));
        if let Some(id) = rows[k].parent_id {
            assert(!parent_missing(rows));
            assert(node_exists(rows, id));
            let p = place_of(rows, id);
            assert(rows[p].id == id);
            assert(t.nodes[p] == shape_of_row(rows, s.bridges, p));
        }
    }
    assert forall|i: int|
        0 <= i < s.nodes.len() && (#[trigger] s.nodes[i]).key_id == key_id implies has_its_node(
        t,
        s.nodes[i],
    ) by {
        assert(rows.contains(s.nodes[i]));
        let k = choose|k: int| 0 <= k < rows.len() && rows[k] == s.nodes[i];
        assert(node_mirrors_row(t, k, rows[k]));
    }
    assert forall|k: int| 0 <= k < t.nodes.len() implies #[trigger] has_its_row(
        s,
        key_id,
        t,
        k,
    ) by {
        assert(s.nodes.contains(rows[k]));
        let i = choose|i: int| 0 <= i < s.nodes.len() && s.nodes[i] == rows[k];
        assert(node_mirrors_row(t, k, rows[k]));
        assert(node_mirrors_row(t, k, s.nodes[i]));
    }
    assert forall|i: int, j: int| 0 <= i < j < t.nodes.len() implies (#[trigger] t.nodes[i]).label
        != (#[trigger] t.nodes[j]).label && t.nodes[i].db_id < t.nodes[j].db_id by {
        assert(rows[i].label != rows[j].label);
        assert(rows[i].id < rows[j].id);
    }
}

/// The children of a loaded node are exactly the nodes whose parent it is, in order,
/// and its whitelist is the one that is stored for its row.
pub proof fn loaded_children_are_those_below(s: TreeStoreView, key_id: i64, k: int)
    requires
        s.wf(),
        loaded(s, key_id) is Ok,
        0 <= k < (loaded(s, key_id)->Ok_0).nodes.len(),
    ensures
        ({
            let t = loaded(s, key_id)->Ok_0;
            &&& forall|c: int|
                0 <= c < t.nodes.len() ==> (#[trigger] t.nodes[k].children.contains(c)
                    <==> t.nodes[c].parent == Some(k))
            &&& forall|c: int| #[trigger]
                t.nodes[k].children.contains(c) ==> 0 <= c < t.nodes.len()
            &&& forall|a: int, b: int|
                0 <= a < b < t.nodes[k].children.len() ==> (#[trigger] t.nodes[k].children[a]) < (
                #[trigger] t.nodes[k].children[b])
            &&& forall|peer: Seq<char>| #[trigger]
                t.nodes[k].allowed.contains(peer) <==> s.bridges.contains((t.nodes[k].db_id, peer))
        }),
{
    let t = loaded(s, key_id)->Ok_0;
    let rows = key_rows(s.nodes, key_id);
    lemma_rows_ordered(s.nodes, key_id);
    lemma_child_places(rows, rows[k].id);
    assert(t.nodes[k] == shape_of_row(rows, s.bridges, k));
    let kids = child_places(rows, rows[k].id);
    assert forall|c: int| 0 <= c < t.nodes.len() implies (#[trigger] kids.contains(c)
        <==> t.nodes[c].parent == Some(k)) by {
        assert(t.nodes[c] == shape_of_row(rows, s.bridges, c));
        if let Some(id) = rows[c].parent_id {
            assert(!parent_missing(rows));
            assert(node_exists(rows, id));
            let p = place_of(rows, id);
            assert(rows[p].id == id);
            if p < k {
                assert(rows[p].id < rows[k].id);
            } else if k < p {
                assert(rows[k].id < rows[p].id);
            }
        }
        if kids.contains(c) {
            let m = choose|m: int| 0 <= m < kids.len() && kids[m] == c;
            assert(rows[kids[m]].parent_id == Some(rows[k].id));
        }
    }
}

/// Where climbing to the root stops, it is for want of a quorum.
pub proof fn climbing_stops_for_want_of_a_quorum(
    t: TreeShape,
    i: int,
    value: Seq<u8>,
    shares: Map<i64, Seq<u8>>,
)
    requires
        t.wf(),
        0 <= i < t.nodes.len(),
    ensures
        climbed(t, i, value, shares) matches Err(e) ==> e == Error::QuorumNotMet,
        t.nodes[i].parent is None ==> climbed(t, i, value, shares) == Ok::<Seq<u8>, Error>(value),
    decreases i,
{
    if let Some(p) = t.nodes[i].parent {
        if let Some(threshold) = t.nodes[p].threshold {
            if let Ok(above) = combined(
                threshold,
                gathered_beside(t, p, i, value, threshold, shares, t.nodes[p].children.len()),
            ) {
                climbing_stops_for_want_of_a_quorum(t, p, above, shares);
            }
        }
    }
}

/// Shares combine exactly if there are as many as the threshold asks for, all of one length
/// and enough of them at places of their own.
pub proof fn values_that_combine(threshold: int, shares: Seq<Seq<u8>>)
    requires
        0 <= threshold <= 255,
    ensures
        combined(threshold, shares) is Ok <==> {
            &&& shares.len() > 0
            &&& shares.len() >= threshold
            &&& forall|a: int, b: int|
                0 <= a < shares.len() && 0 <= b < shares.len() ==> (#[trigger] shares[a]).len() == (
                #[trigger] shares[b]).len()
            &&& shares.map_values(|s: Seq<u8>| s[0]).to_set().len() >= threshold
        },
        combined(threshold, shares) matches Err(e) ==> e == Error::QuorumNotMet,
        combined(threshold, shares) matches Ok(value) ==> value == interpolated(shares),
{
}

/// A node that is inactive or that is none gives nothing. An active leaf gives the share
/// that was presented for it, and nothing where none was.
pub proof fn leaves_give_their_shares(t: TreeShape, i: int, shares: Map<i64, Seq<u8>>)
    requires
        t.wf(),
    ensures
        !(0 <= i < t.nodes.len()) ==> resolved(t, i, shares) == Err::<Seq<u8>, Error>(
            Error::NodeNotFound,
        ),
        0 <= i < t.nodes.len() && !t.nodes[i].is_active ==> resolved(t, i, shares) == Err::<
            Seq<u8>,
            Error,
        >(Error::QuorumNotMet),
        0 <= i < t.nodes.len() && t.nodes[i].is_active && t.nodes[i].hardware_key_id is Some
            && shares.contains_key(t.nodes[i].db_id) ==> resolved(t, i, shares) == Ok::<
            Seq<u8>,
            Error,
        >(shares[t.nodes[i].db_id]),
        0 <= i < t.nodes.len() && t.nodes[i].is_active && t.nodes[i].hardware_key_id is Some
            && !shares.contains_key(t.nodes[i].db_id) ==> resolved(t, i, shares) == Err::<
            Seq<u8>,
            Error,
        >(Error::QuorumNotMet),
        0 <= i < t.nodes.len() && t.nodes[i].is_active && t.nodes[i].hardware_key_id is None
            && t.nodes[i].threshold is None ==> resolved(t, i, shares) == Err::<Seq<u8>, Error>(
            Error::QuorumNotMet,
        ),
{
}

} // verus!
