//! Ancestry, and putting a secret together again from shares.

use std::collections::HashMap;

use vstd::prelude::*;

use crate::bytes::{byte_views, copy_bytes};
use crate::error::Error;
use crate::key_tree::store::{TreeStore, TreeStoreView};
use crate::key_tree::tree::{loaded, places, KeyQuorumTree, TreeShape};
use crate::shamir::{interpolated, recover, recoverable};

verus! {

broadcast use vstd::std_specs::hash::group_hash_axioms;

/// A node and those above it, from below.
pub open spec fn lineage(t: TreeShape, i: int) -> Seq<int>
    decreases i,
    when t.wf() && 0 <= i < t.nodes.len()
{
    match t.nodes[i].parent {
        None => seq![i],
        Some(p) => seq![i] + lineage(t, p),
    }
}

/// `x` stands above both nodes, or is one of them.
pub open spec fn common_ancestor(t: TreeShape, a: int, b: int, x: int) -> bool {
    lineage(t, a).contains(x) && lineage(t, b).contains(x)
}

/// `r` is the lowest node that stands above both: every other one stands
/// above it too. Nodes that have nothing above them in common meet at the root.
pub open spec fn meet(t: TreeShape, a: int, b: int, r: int) -> bool {
    if exists|x: int| common_ancestor(t, a, b, x) {
        &&& common_ancestor(t, a, b, r)
        &&& forall|x: int| #[trigger] common_ancestor(t, a, b, x) ==> lineage(t, r).contains(x)
    } else {
        r == t.root
    }
}

/// Where two nodes of the tree meet.
pub open spec fn met(t: TreeShape, a: int, b: int) -> Result<int, Error> {
    if 0 <= a < t.nodes.len() && 0 <= b < t.nodes.len() {
        Ok(choose|r: int| meet(t, a, b, r))
    } else {
        Err(Error::NodeNotFound)
    }
}

/// Where all the nodes meet, folded from the left.
pub open spec fn met_by_all(t: TreeShape, at: Seq<int>) -> Result<int, Error>
    decreases at.len(),
{
    if at.len() == 0 {
        Err(Error::NodeNotFound)
    } else if at.len() == 1 {
        Ok(at[0])
    } else {
        match met_by_all(t, at.drop_last()) {
            Err(e) => Err(e),
            Ok(x) => met(t, x, at.last()),
        }
    }
}

/// A place as an integer.
pub open spec fn place_result(r: Result<usize, Error>) -> Result<int, Error> {
    match r {
        Ok(x) => Ok(x as int),
        Err(e) => Err(e),
    }
}

/// A lineage starts at the node, descends in place and stays in the tree.
pub proof fn lemma_lineage(t: TreeShape, i: int)
    requires
        t.wf(),
        0 <= i < t.nodes.len(),
    ensures
        lineage(t, i).contains(i),
        forall|x: int| #[trigger] lineage(t, i).contains(x) ==> 0 <= x <= i,
    decreases i,
{
    let line = lineage(t, i);
    assert(line[0] == i);
    match t.nodes[i].parent {
        None => {},
        Some(p) => {
            lemma_lineage(t, p);
            assert forall|x: int| #[trigger] line.contains(x) implies 0 <= x <= i by {
                let k = choose|k: int| 0 <= k < line.len() && line[k] == x;
                if k > 0 {
                    assert(lineage(t, p)[k - 1] == x);
                    assert(lineage(t, p).contains(x));
                }
            }
        },
    }
}

/// What stands above a node with a parent is the node and what stands above
/// the parent.
proof fn lemma_lineage_step(t: TreeShape, i: int, p: int, x: int)
    requires
        t.wf(),
        0 <= i < t.nodes.len(),
        t.nodes[i].parent == Some(p),
    ensures
        lineage(t, i).contains(x) <==> x == i || lineage(t, p).contains(x),
{
    let line = lineage(t, i);
    let above = lineage(t, p);
    assert(line =~= seq![i] + above);
    if line.contains(x) {
        let k = choose|k: int| 0 <= k < line.len() && line[k] == x;
        if k > 0 {
            assert(above[k - 1] == x);
        }
    }
    if x == i {
        assert(line[0] == i);
    }
    if above.contains(x) {
        let k = choose|k: int| 0 <= k < above.len() && above[k] == x;
        assert(line[k + 1] == x);
    }
}

/// Two nodes have one meeting point.
pub proof fn meet_is_unique(t: TreeShape, a: int, b: int, r: int, s: int)
    requires
        t.wf(),
        0 <= a < t.nodes.len(),
        0 <= b < t.nodes.len(),
        meet(t, a, b, r),
        meet(t, a, b, s),
    ensures
        r == s,
{
    if exists|x: int| common_ancestor(t, a, b, x) {
        lemma_lineage(t, a);
        lemma_lineage(t, r);
        lemma_lineage(t, s);
        assert(common_ancestor(t, a, b, s));
        assert(common_ancestor(t, a, b, r));
    }
}

/// The order in which two nodes are named does not matter to where they meet.
pub proof fn meet_is_symmetric(t: TreeShape, a: int, b: int, r: int)
    requires
        meet(t, a, b, r),
    ensures
        meet(t, b, a, r),
{
    if exists|x: int| common_ancestor(t, a, b, x) {
        let x = choose|x: int| common_ancestor(t, a, b, x);
        assert(common_ancestor(t, b, a, x));
        assert forall|y: int| #[trigger] common_ancestor(t, b, a, y) implies lineage(
            t,
            r,
        ).contains(y) by {
            assert(common_ancestor(t, a, b, y));
        }
    } else {
        assert forall|x: int| !#[trigger] common_ancestor(t, b, a, x) by {
            assert(!common_ancestor(t, a, b, x));
        }
    }
}

/// A node meets one of its ancestors at that ancestor.
pub proof fn meet_with_ancestor(t: TreeShape, i: int, a: int)
    requires
        t.wf(),
        0 <= i < t.nodes.len(),
        lineage(t, i).contains(a),
    ensures
        meet(t, i, a, a),
{
    lemma_lineage(t, i);
    lemma_lineage(t, a);
    assert(common_ancestor(t, i, a, a));
}

proof fn lemma_fault_stays(t: TreeShape, at: Seq<int>, n: int, e: Error)
    requires
        2 <= n <= at.len(),
        met_by_all(t, at.take(n)) == Err::<int, Error>(e),
    ensures
        met_by_all(t, at.take(at.len() as int)) == Err::<int, Error>(e),
    decreases at.len() - n,
{
    if n < at.len() {
        assert(at.take(n + 1).drop_last() =~= at.take(n));
        lemma_fault_stays(t, at, n + 1, e);
    }
}

/// The shares as byte sequences.
pub open spec fn share_views(shares: Map<i64, Vec<u8>>) -> Map<i64, Seq<u8>> {
    shares.map_values(|share: Vec<u8>| share@)
}

/// The value that enough shares combine to.
pub open spec fn combined(threshold: int, shares: Seq<Seq<u8>>) -> Result<Seq<u8>, Error> {
    if shares.len() < threshold || !recoverable(threshold as u8, shares) {
        Err(Error::QuorumNotMet)
    } else {
        Ok(interpolated(shares))
    }
}

/// The value of a node: a leaf's is the share that was presented for it, a
/// split's is combined from the values of as many children as it needs.
pub open spec fn resolved(t: TreeShape, i: int, shares: Map<i64, Seq<u8>>) -> Result<Seq<u8>, Error>
    decreases t.nodes.len() - i, t.nodes[i].children.len() + 1,
    when t.wf()
{
    if i < 0 || i >= t.nodes.len() {
        Err(Error::NodeNotFound)
    } else if !t.nodes[i].is_active {
        Err(Error::QuorumNotMet)
    } else if t.nodes[i].hardware_key_id is Some {
        if shares.contains_key(t.nodes[i].db_id) {
            Ok(shares[t.nodes[i].db_id])
        } else {
            Err(Error::QuorumNotMet)
        }
    } else {
        match t.nodes[i].threshold {
            None => Err(Error::QuorumNotMet),
            Some(threshold) => combined(
                threshold,
                gathered(t, i, threshold, shares, t.nodes[i].children.len()),
            ),
        }
    }
}

/// A value as it is gathered: malformed shares count as missing ones.
pub open spec fn usable(value: Result<Seq<u8>, Error>) -> bool {
    value matches Ok(share) && share.len() >= 2
}

/// The values of the first active children that resolve to a share, `limit` of
/// them at most, from among the first `n` children.
pub open spec fn gathered(
    t: TreeShape,
    i: int,
    limit: int,
    shares: Map<i64, Seq<u8>>,
    n: nat,
) -> Seq<Seq<u8>>
    decreases t.nodes.len() - i, n,
    when t.wf() && 0 <= i < t.nodes.len() && n <= t.nodes[i].children.len()
{
    if n == 0 {
        Seq::empty()
    } else {
        let before = gathered(t, i, limit, shares, (n - 1) as nat);
        let child = t.nodes[i].children[n - 1];
        let value = resolved(t, child, shares);
        if before.len() < limit && t.nodes[child].is_active && usable(value) {
            before.push(value->Ok_0)
        } else {
            before
        }
    }
}

/// The shares for the parent `p` when the child `from` brings `value`: its own
/// first, then those of its siblings, `limit` of them at most.
pub open spec fn gathered_beside(
    t: TreeShape,
    p: int,
    from: int,
    value: Seq<u8>,
    limit: int,
    shares: Map<i64, Seq<u8>>,
    n: nat,
) -> Seq<Seq<u8>>
    decreases n,
{
    if n == 0 {
        if value.len() >= 2 {
            seq![value]
        } else {
            Seq::empty()
        }
    } else {
        let before = gathered_beside(t, p, from, value, limit, shares, (n - 1) as nat);
        let child = t.nodes[p].children[n - 1];
        let sibling = resolved(t, child, shares);
        if before.len() < limit && child != from && t.nodes[child].is_active && usable(sibling) {
            before.push(sibling->Ok_0)
        } else {
            before
        }
    }
}

/// What the root gets from the value of one node, going up parent by parent.
pub open spec fn climbed(t: TreeShape, i: int, value: Seq<u8>, shares: Map<i64, Seq<u8>>) -> Result<
    Seq<u8>,
    Error,
>
    decreases i,
    when t.wf() && 0 <= i < t.nodes.len()
{
    match t.nodes[i].parent {
        None => Ok(value),
        Some(p) => match t.nodes[p].threshold {
            None => Err(Error::QuorumNotMet),
            Some(threshold) => match combined(
                threshold,
                gathered_beside(
                    t,
                    p,
                    i,
                    value,
                    threshold,
                    shares,
                    t.nodes[p].children.len(),
                ),
            ) {
                Err(e) => Err(e),
                Ok(above) => climbed(t, p, above, shares),
            },
        },
    }
}

/// The root's value by way of one node's.
pub open spec fn climbed_from(t: TreeShape, i: int, shares: Map<i64, Seq<u8>>) -> Result<
    Seq<u8>,
    Error,
> {
    match resolved(t, i, shares) {
        Err(e) => Err(e),
        Ok(value) => climbed(t, i, value, shares),
    }
}

/// A result's bytes.
pub open spec fn bytes_result(r: Result<Vec<u8>, Error>) -> Result<Seq<u8>, Error> {
    match r {
        Ok(v) => Ok(v@),
        Err(e) => Err(e),
    }
}

fn combine(threshold: usize, shares: &Vec<Vec<u8>>) -> (r: Result<Vec<u8>, Error>)
    requires
        threshold <= 255,
        forall|k: int| 0 <= k < shares@.len() ==> (#[trigger] shares@[k])@.len() >= 2,
    ensures
        bytes_result(r) == combined(threshold as int, byte_views(shares@)),
{
    if shares.len() < threshold {
        return Err(Error::QuorumNotMet);
    }
    match recover(threshold as u8, shares) {
        Some(secret) => Ok(secret),
        None => Err(Error::QuorumNotMet),
    }
}

impl KeyQuorumTree {
    /// The lowest node that stands above both.
    pub fn find_lowest_common_ancestor(&self, index_a: usize, index_b: usize) -> (r: Result<
        usize,
        Error,
    >)
        requires
            self@.wf(),
        ensures
            match r {
                Ok(x) => index_a < self@.nodes.len() && index_b < self@.nodes.len() && meet(
                    self@,
                    index_a as int,
                    index_b as int,
                    x as int,
                ),
                Err(e) => e == Error::NodeNotFound && (index_a >= self@.nodes.len() || index_b
                    >= self@.nodes.len()),
            },
    {
        if index_a >= self.nodes.len() || index_b >= self.nodes.len() {
            return Err(Error::NodeNotFound);
        }
        let ghost t = self@;
        let mut a: usize = index_a;
        let mut b: usize = index_b;
        while a != b
            invariant
                t == self@,
                t.wf(),
                t.nodes.len() == self.nodes@.len(),
                a < t.nodes.len(),
                b < t.nodes.len(),
                index_a < t.nodes.len(),
                index_b < t.nodes.len(),
                forall|x: int|
                    common_ancestor(t, a as int, b as int, x) <==> #[trigger] common_ancestor(
                        t,
                        index_a as int,
                        index_b as int,
                        x,
                    ),
            decreases a + b,
        {
            let low: usize = if a > b {
                a
            } else {
                b
            };
            let high: usize = if a > b {
                b
            } else {
                a
            };
            assert(t.nodes[low as int] == self.nodes@[low as int]@);
            proof {
                lemma_lineage(t, low as int);
                lemma_lineage(t, high as int);
            }
            match self.nodes[low].parent_idx {
                None => {
                    assert forall|x: int| !#[trigger] common_ancestor(
                        t,
                        index_a as int,
                        index_b as int,
                        x,
                    ) by {
                        assert(lineage(t, low as int) =~= seq![low as int]);
                        if common_ancestor(t, a as int, b as int, x) {
                            assert(lineage(t, low as int).contains(x));
                            assert(x == low);
                        }
                    }
                    return Ok(self.root_index);
                },
                Some(p) => {
                    proof {
                        assert forall|x: int|
                            (lineage(t, p as int).contains(x) && lineage(t, high as int).contains(
                                x,
                            )) <==> #[trigger] common_ancestor(
                                t,
                                index_a as int,
                                index_b as int,
                                x,
                            ) by {
                            lemma_lineage_step(t, low as int, p as int, x);
                            if lineage(t, high as int).contains(x) {
                                assert(x <= high);
                            }
                            assert(common_ancestor(t, a as int, b as int, x)
                                <==> common_ancestor(t, index_a as int, index_b as int, x));
                        }
                    }
                    if a > b {
                        a = p;
                    } else {
                        b = p;
                    }
                },
            }
        }
        proof {
            lemma_lineage(t, a as int);
            assert(common_ancestor(t, a as int, b as int, a as int));
            assert(common_ancestor(t, index_a as int, index_b as int, a as int));
            assert forall|x: int| #[trigger] common_ancestor(
                t,
                index_a as int,
                index_b as int,
                x,
            ) implies lineage(t, a as int).contains(x) by {
                assert(common_ancestor(t, a as int, b as int, x));
            }
        }
        Ok(a)
    }

    /// The lowest node that stands above all of them, folded from the left.
    pub fn find_lowest_common_ancestor_of(&self, indices: &[usize]) -> (r: Result<usize, Error>)
        requires
            self@.wf(),
        ensures
            place_result(r) == met_by_all(self@, places(indices@)),
    {
        let ghost at = places(indices@);
        if indices.len() == 0 {
            return Err(Error::NodeNotFound);
        }
        let mut acc: usize = indices[0];
        let mut i: usize = 1;
        assert(at.take(1).len() == 1 && at.take(1)[0] == at[0]);
        while i < indices.len()
            invariant
                1 <= i <= indices.len(),
                self@.wf(),
                at == places(indices@),
                met_by_all(self@, at.take(i as int)) == Ok::<int, Error>(acc as int),
            decreases indices.len() - i,
        {
            proof {
                assert(at.take(i + 1).drop_last() =~= at.take(i as int));
                assert(at.take(i + 1).last() == indices@[i as int]);
            }
            match self.find_lowest_common_ancestor(acc, indices[i]) {
                Ok(x) => {
                    proof {
                        let chosen = choose|r: int| meet(self@, acc as int, at[i as int], r);
                        meet_is_unique(self@, acc as int, at[i as int], x as int, chosen);
                    }
                    acc = x;
                },
                Err(e) => {
                    proof {
                        lemma_fault_stays(self@, at, i + 1, e);
                        assert(at.take(at.len() as int) =~= at);
                    }
                    return Err(e);
                },
            }
            i += 1;
        }
        assert(at.take(i as int) =~= at);
        Ok(acc)
    }

    /// The secret, from the shares presented for leaves.
    pub fn reconstruct(&self, raw_shares: &HashMap<i64, Vec<u8>>) -> (r: Result<Vec<u8>, Error>)
        requires
            self@.wf(),
        ensures
            bytes_result(r) == resolved(self@, self@.root, share_views(raw_shares@)),
    {
        self.reconstruct_node(self.root_index, raw_shares)
    }

    /// The value of one node.
    pub fn reconstruct_from(&self, idx: usize, raw_shares: &HashMap<i64, Vec<u8>>) -> (r: Result<
        Vec<u8>,
        Error,
    >)
        requires
            self@.wf(),
        ensures
            bytes_result(r) == resolved(self@, idx as int, share_views(raw_shares@)),
    {
        self.reconstruct_node(idx, raw_shares)
    }

    /// The value of one node, and from it, going up, the secret.
    pub fn reconstruct_up_to_root(
        &self,
        from_idx: usize,
        raw_shares: &HashMap<i64, Vec<u8>>,
    ) -> (r: Result<Vec<u8>, Error>)
        requires
            self@.wf(),
        ensures
            bytes_result(r) == climbed_from(self@, from_idx as int, share_views(raw_shares@)),
    {
        let ghost t = self@;
        let ghost shares = share_views(raw_shares@);
        let mut value: Vec<u8> = match self.reconstruct_node(from_idx, raw_shares) {
            Ok(value) => value,
            Err(e) => { return Err(e); },
        };
        let mut idx: usize = from_idx;
        loop
            invariant
                t == self@,
                t.wf(),
                t.nodes.len() == self.nodes@.len(),
                shares == share_views(raw_shares@),
                idx < t.nodes.len(),
                climbed_from(t, from_idx as int, shares) == climbed(t, idx as int, value@, shares),
            decreases idx,
        {
            assert(t.nodes[idx as int] == self.nodes@[idx as int]@);
            let parent_idx: usize = match self.nodes[idx].parent_idx {
                None => { return Ok(value); },
                Some(p) => p,
            };
            assert(t.nodes[parent_idx as int] == self.nodes@[parent_idx as int]@);
            let threshold: usize = match self.nodes[parent_idx].threshold {
                None => { return Err(Error::QuorumNotMet); },
                Some(threshold) => threshold,
            };
            let mut found: Vec<Vec<u8>> = Vec::new();
            if value.len() >= 2 {
                found.push(copy_bytes(value.as_slice()));
            }
            let ghost brought = value@;
            assert(byte_views(found@) =~= gathered_beside(
                t,
                parent_idx as int,
                idx as int,
                brought,
                threshold as int,
                shares,
                0,
            ));
            let mut k: usize = 0;
            while k < self.nodes[parent_idx].children_indices.len()
                invariant
                    t == self@,
                    t.wf(),
                    t.nodes.len() == self.nodes@.len(),
                    shares == share_views(raw_shares@),
                    parent_idx < t.nodes.len(),
                    t.nodes[parent_idx as int] == self.nodes@[parent_idx as int]@,
                    k <= self.nodes@[parent_idx as int].children_indices@.len(),
                    forall|m: int| 0 <= m < found@.len() ==> (#[trigger] found@[m])@.len() >= 2,
                    byte_views(found@) == gathered_beside(
                        t,
                        parent_idx as int,
                        idx as int,
                        brought,
                        threshold as int,
                        shares,
                        k as nat,
                    ),
                decreases self.nodes@[parent_idx as int].children_indices@.len() - k,
            {
                let sib: usize = self.nodes[parent_idx].children_indices[k];
                assert(t.nodes[parent_idx as int].children[k as int] == sib);
                assert(t.nodes[sib as int] == self.nodes@[sib as int]@);
                if found.len() < threshold && sib != idx && self.nodes[sib].is_active {
                    match self.reconstruct_node(sib, raw_shares) {
                        Ok(sibling_value) => {
                            if sibling_value.len() >= 2 {
                                let ghost before = byte_views(found@);
                                let ghost added = sibling_value@;
                                found.push(sibling_value);
                                assert(byte_views(found@) =~= before.push(added));
                            }
                        },
                        Err(_) => {},
                    }
                }
                k += 1;
            }
            match combine(threshold, &found) {
                Err(e) => { return Err(e); },
                Ok(above) => {
                    value = above;
                },
            }
            idx = parent_idx;
        }
    }

    fn reconstruct_node(&self, idx: usize, raw_shares: &HashMap<i64, Vec<u8>>) -> (r: Result<
        Vec<u8>,
        Error,
    >)
        requires
            self@.wf(),
        ensures
            bytes_result(r) == resolved(self@, idx as int, share_views(raw_shares@)),
        decreases self@.nodes.len() - idx,
    {
        let ghost t = self@;
        let ghost shares = share_views(raw_shares@);
        if idx >= self.nodes.len() {
            return Err(Error::NodeNotFound);
        }
        assert(t.nodes[idx as int] == self.nodes@[idx as int]@);
        let node = &self.nodes[idx];
        if !node.is_active {
            return Err(Error::QuorumNotMet);
        }
        if node.hardware_key_id.is_some() {
            return match raw_shares.get(&node.db_id) {
                Some(share) => Ok(copy_bytes(share.as_slice())),
                None => Err(Error::QuorumNotMet),
            };
        }
        let threshold: usize = match node.threshold {
            None => { return Err(Error::QuorumNotMet); },
            Some(threshold) => threshold,
        };
        let mut found: Vec<Vec<u8>> = Vec::new();
        assert(byte_views(found@) =~= gathered(t, idx as int, threshold as int, shares, 0));
        let mut k: usize = 0;
        while k < node.children_indices.len()
            invariant
                t == self@,
                t.wf(),
                t.nodes.len() == self.nodes@.len(),
                shares == share_views(raw_shares@),
                idx < t.nodes.len(),
                t.nodes[idx as int] == node@,
                k <= node.children_indices@.len(),
                forall|m: int| 0 <= m < found@.len() ==> (#[trigger] found@[m])@.len() >= 2,
                byte_views(found@) == gathered(t, idx as int, threshold as int, shares, k as nat),
            decreases node.children_indices@.len() - k,
        {
            let child_idx: usize = node.children_indices[k];
            assert(t.nodes[idx as int].children[k as int] == child_idx);
            assert(t.nodes[child_idx as int] == self.nodes@[child_idx as int]@);
            if found.len() < threshold && self.nodes[child_idx].is_active {
                match self.reconstruct_node(child_idx, raw_shares) {
                    Ok(value) => {
                        if value.len() >= 2 {
                            let ghost before = byte_views(found@);
                            let ghost added = value@;
                            found.push(value);
                            assert(byte_views(found@) =~= before.push(added));
                        }
                    },
                    Err(_) => {},
                }
            }
            k += 1;
        }
        combine(threshold, &found)
    }
}

/// The secret from the stored tree, or why there is none.
pub open spec fn reconstructed(
    store: TreeStoreView,
    key_id: i64,
    shares: Map<i64, Seq<u8>>,
) -> Result<Seq<u8>, Error> {
    match loaded(store, key_id) {
        Err(e) => Err(e),
        Ok(t) => resolved(t, t.root, shares),
    }
}

/// Loads a tree and reconstructs its secret. The shares stand under the ids of
/// their leaves.
pub fn reconstruct(store: &TreeStore, key_id: i64, raw_shares: &HashMap<i64, Vec<u8>>) -> (r:
    Result<Vec<u8>, Error>)
    requires
        store.wf(),
    ensures
        bytes_result(r) == reconstructed(store@, key_id, share_views(raw_shares@)),
{
    match KeyQuorumTree::load(store, key_id) {
        Err(e) => Err(e),
        Ok(tree) => tree.reconstruct(raw_shares),
    }
}

/// Loads a tree, reconstructs the node at `lca_idx`, and from it the secret.
pub fn reconstruct_from_lca(
    store: &TreeStore,
    key_id: i64,
    lca_idx: usize,
    raw_shares: &HashMap<i64, Vec<u8>>,
) -> (r: Result<Vec<u8>, Error>)
    requires
        store.wf(),
    ensures
        bytes_result(r) == (match loaded(store@, key_id) {
            Err(e) => Err(e),
            Ok(t) => climbed_from(t, lca_idx as int, share_views(raw_shares@)),
        }),
{
    match KeyQuorumTree::load(store, key_id) {
        Err(e) => Err(e),
        Ok(tree) => tree.reconstruct_up_to_root(lca_idx, raw_shares),
    }
}

} // verus!
