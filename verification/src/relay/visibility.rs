//! What the holder of a leaf may see of a public tree: its own lineage and
//! siblings, and each paired peer with the peer's lineage.

use vstd::prelude::*;

use crate::relay::public_tree::{
    copy_edge, copy_node, edge_views, find_label, has_label, label_place, labels_differ, labels_stand_once,
    lemma_label_place, lemma_place_of_node, parent_chain, public_node_views, tree_fault, PublicEdge,
    PublicEdgeView, PublicNode, PublicNodeView, PublicTree, PublicTreeView,
};
use crate::seqs::{lemma_distinct_bounded, lemma_push_no_duplicates, place_among};
use crate::text::{contains_text, same_optional_text, text_equal, text_views};

verus! {

/// The label stands on a node's way up, `k` steps above it.
pub open spec fn above(
    nodes: Seq<PublicNodeView>,
    from: Seq<char>,
    label: Seq<char>,
    k: nat,
) -> bool
    decreases k,
{
    match label_place(nodes, from) {
        None => false,
        Some(i) => if k == 0 {
            from == label
        } else {
            match nodes[i].parent_label {
                None => false,
                Some(parent) => above(nodes, parent, label, (k - 1) as nat),
            }
        },
    }
}

/// The label is that of a node or of one above it.
pub open spec fn on_lineage(
    nodes: Seq<PublicNodeView>,
    from: Seq<char>,
    label: Seq<char>,
) -> bool {
    exists|k: nat| above(nodes, from, label, k)
}

/// The label is that of a node with the same parent.
pub open spec fn beside(nodes: Seq<PublicNodeView>, node: Seq<char>, label: Seq<char>) -> bool {
    label_place(nodes, node) matches Some(i) && exists|j: int|
        0 <= j < nodes.len() && (#[trigger] nodes[j]).label == label && nodes[j].parent_label
            == nodes[i].parent_label
}

/// The peer that an edge pairs a node with, if it does.
pub open spec fn peer_of(edge: PublicEdgeView, node: Seq<char>) -> Option<Seq<char>> {
    if edge.from == node {
        Some(edge.to)
    } else if edge.to == node {
        Some(edge.from)
    } else {
        None
    }
}

/// The label is on the lineage of a peer.
pub open spec fn across(t: PublicTreeView, node: Seq<char>, label: Seq<char>) -> bool {
    exists|e: int|
        0 <= e < t.links.len() && (peer_of(#[trigger] t.links[e], node) matches Some(peer)
            && on_lineage(t.nodes, peer, label))
}

/// The holder of one leaf sees the label.
pub open spec fn sees(t: PublicTreeView, node: Seq<char>, label: Seq<char>) -> bool {
    on_lineage(t.nodes, node, label) || beside(t.nodes, node, label) || across(t, node, label)
}

/// The holder of some leaves sees the label.
pub open spec fn visible_to(t: PublicTreeView, seeds: Seq<Seq<char>>, label: Seq<char>) -> bool {
    exists|s: int| 0 <= s < seeds.len() && sees(t, #[trigger] seeds[s], label)
}

/// Some node with the label is marked.
spec fn marked(nodes: Seq<PublicNodeView>, marks: Seq<bool>, label: Seq<char>) -> bool {
    exists|i: int| 0 <= i < nodes.len() && #[trigger] marks[i] && nodes[i].label == label
}

proof fn lemma_above_is_a_label(
    nodes: Seq<PublicNodeView>,
    from: Seq<char>,
    label: Seq<char>,
    k: nat,
)
    requires
        above(nodes, from, label, k),
    ensures
        has_label(nodes, label),
    decreases k,
{
    lemma_label_place(nodes, from);
    let i = label_place(nodes, from)->0;
    if k > 0 {
        lemma_above_is_a_label(nodes, nodes[i].parent_label->0, label, (k - 1) as nat);
    }
}

/// What is visible is the label of a node.
pub proof fn visible_is_a_label(t: PublicTreeView, seeds: Seq<Seq<char>>, label: Seq<char>)
    requires
        visible_to(t, seeds, label),
    ensures
        has_label(t.nodes, label),
{
    let s = choose|s: int| 0 <= s < seeds.len() && sees(t, #[trigger] seeds[s], label);
    if on_lineage(t.nodes, seeds[s], label) {
        let k = choose|k: nat| above(t.nodes, seeds[s], label, k);
        lemma_above_is_a_label(t.nodes, seeds[s], label, k);
    } else if across(t, seeds[s], label) {
        let e = choose|e: int|
            0 <= e < t.links.len() && (peer_of(#[trigger] t.links[e], seeds[s]) matches Some(peer)
                && on_lineage(t.nodes, peer, label));
        let peer = peer_of(t.links[e], seeds[s])->0;
        let k = choose|k: nat| above(t.nodes, peer, label, k);
        lemma_above_is_a_label(t.nodes, peer, label, k);
    }
}

/// The places of all nodes with a label above a place, up to `n` steps.
spec fn within(nodes: Seq<PublicNodeView>, from: Seq<char>, label: Seq<char>, n: nat) -> bool {
    exists|k: nat| k < n && above(nodes, from, label, k)
}

/// The labels on the way up, one after the other.
spec fn ascent(nodes: Seq<PublicNodeView>, from: Seq<char>, path: Seq<Seq<char>>) -> bool {
    &&& path.len() > 0
    &&& path[0] == from
    &&& forall|k: int|
        0 <= k < path.len() - 1 ==> (label_place(nodes, #[trigger] path[k]) matches Some(i)
            && nodes[i].parent_label == Some(path[k + 1]))
}

proof fn lemma_ascent_step(
    nodes: Seq<PublicNodeView>,
    from: Seq<char>,
    path: Seq<Seq<char>>,
    m: int,
    label: Seq<char>,
    h: nat,
)
    requires
        ascent(nodes, from, path),
        0 <= m < path.len(),
    ensures
        above(nodes, from, label, (m + h) as nat) == above(nodes, path[m], label, h),
    decreases m,
{
    if m > 0 {
        lemma_ascent_step(nodes, from, path, m - 1, label, (h + 1) as nat);
        let i = label_place(nodes, path[m - 1])->0;
        assert(nodes[i].parent_label == Some(path[m]));
        assert(above(nodes, path[m - 1], label, (h + 1) as nat) == above(nodes, path[m], label, h));
    }
}

/// Where a label comes again on the way up, nothing new follows.
proof fn lemma_cycle_adds_nothing(
    nodes: Seq<PublicNodeView>,
    from: Seq<char>,
    path: Seq<Seq<char>>,
    j: int,
    label: Seq<char>,
    h: nat,
)
    requires
        ascent(nodes, from, path),
        0 <= j < path.len() - 1,
        path[path.len() - 1] == path[j],
        above(nodes, from, label, h),
    ensures
        within(nodes, from, label, (path.len() - 1) as nat),
    decreases h,
{
    let last = path.len() - 1;
    if h >= last {
        lemma_ascent_step(nodes, from, path, last, label, (h - last) as nat);
        lemma_ascent_step(nodes, from, path, j, label, (h - last) as nat);
        lemma_cycle_adds_nothing(nodes, from, path, j, label, (j + (h - last)) as nat);
    }
}

/// Marks the nodes on the lineage of a label, each at the first place of its label.
fn mark_places(nodes: &Vec<PublicNode>, from: &str, marks: &mut Vec<bool>)
    requires
        old(marks)@.len() == nodes@.len(),
    ensures
        final(marks)@.len() == nodes@.len(),
        forall|i: int|
            0 <= i < nodes@.len() ==> (#[trigger] final(marks)@[i] <==> old(marks)@[i] || (
            on_lineage(public_node_views(nodes@), from@, nodes@[i].label@) && label_place(
                public_node_views(nodes@),
                nodes@[i].label@,
            ) == Some(i))),
{
    let ghost all = public_node_views(nodes@);
    let ghost before = marks@;
    let mut visited: Vec<usize> = Vec::new();
    let ghost mut path: Seq<Seq<char>> = seq![from@];
    let ghost mut places: Seq<int> = Seq::empty();
    let mut at: String = from.to_owned();
    loop
        invariant
            all == public_node_views(nodes@),
            before == old(marks)@,
            before.len() == nodes@.len(),
            marks@.len() == nodes@.len(),
            ascent(all, from@, path),
            path.last() == at@,
            path.len() == places.len() + 1,
            visited@.len() == places.len(),
            places.no_duplicates(),
            forall|k: int| 0 <= k < places.len() ==> visited@[k] as int == #[trigger] places[k],
            forall|k: int|
                0 <= k < places.len() ==> 0 <= #[trigger] places[k] < all.len() && label_place(
                    all,
                    path[k],
                ) == Some(places[k]),
            forall|i: int|
                0 <= i < nodes@.len() ==> (#[trigger] marks@[i] <==> before[i] || places.contains(
                    i,
                )),
        decreases nodes@.len() - places.len(),
    {
        let found = find_label(nodes, at.as_str());
        let p = match found {
            None => {
                proof {
                    lemma_marks_complete(all, from@, path, places, None);
                }
                return;
            },
            Some(p) => p,
        };
        if let Some(k) = place_among(&visited, p) {
            proof {
                lemma_label_place(all, path[k as int]);
                lemma_label_place(all, at@);
                assert(places[k as int] == p);
                lemma_marks_complete(all, from@, path, places, Some(k as int));
            }
            return;
        }
        let ghost earlier = marks@;
        let ghost visited_before = visited@;
        marks.set(p, true);
        visited.push(p);
        proof {
            let longer = places.push(p as int);
            assert(!places.contains(p as int)) by {
                if places.contains(p as int) {
                    let m = choose|m: int| 0 <= m < places.len() && places[m] == p;
                    assert(visited_before[m] as int == places[m]);
                    assert(visited_before.contains(p));
                }
            }
            lemma_push_no_duplicates(places, p as int);
            lemma_distinct_bounded(longer, all.len() as int);
            assert forall|i: int| 0 <= i < nodes@.len() implies (#[trigger] marks@[i] <==> before[i]
                || longer.contains(i)) by {
                if i == p {
                    assert(longer[places.len() as int] == i);
                } else {
                    assert(marks@[i] == earlier[i]);
                    if longer.contains(i) {
                        let m = choose|m: int| 0 <= m < longer.len() && longer[m] == i;
                        assert(places[m] == i);
                    }
                    if places.contains(i) {
                        let m = choose|m: int| 0 <= m < places.len() && places[m] == i;
                        assert(longer[m] == i);
                    }
                }
            }
            places = longer;
            lemma_label_place(all, at@);
        }
        assert(all[p as int] == nodes@[p as int]@);
        match &nodes[p].parent_label {
            None => {
                proof {
                    assert(all[p as int].parent_label is None);
                    lemma_marks_at_root(all, from@, path, places);
                }
                return;
            },
            Some(parent) => {
                proof {
                    let longer = path.push(parent@);
                    assert forall|m: int| 0 <= m < longer.len() - 1 implies (label_place(
                        all,
                        #[trigger] longer[m],
                    ) matches Some(i) && all[i].parent_label == Some(longer[m + 1])) by {
                        if m < path.len() - 1 {
                            assert(longer[m] == path[m] && longer[m + 1] == path[m + 1]);
                        } else {
                            assert(longer[m] == path[m]);
                        }
                    }
                    assert forall|m: int| 0 <= m < places.len() implies 0 <= #[trigger] places[m]
                        < all.len() && label_place(all, longer[m]) == Some(places[m]) by {
                        assert(longer[m] == path[m]);
                    }
                    path = longer;
                }
                at = parent.as_str().to_owned();
            },
        }
    }
}

/// The way up ended at a label that no node has, or that came before: the nodes
/// passed are the lineage.
proof fn lemma_marks_complete(
    nodes: Seq<PublicNodeView>,
    from: Seq<char>,
    path: Seq<Seq<char>>,
    places: Seq<int>,
    again: Option<int>,
)
    requires
        ascent(nodes, from, path),
        path.len() == places.len() + 1,
        forall|k: int|
            0 <= k < places.len() ==> 0 <= #[trigger] places[k] < nodes.len() && label_place(
                nodes,
                path[k],
            ) == Some(places[k]),
        match again {
            None => label_place(nodes, path.last()) is None,
            Some(j) => 0 <= j < places.len() && path[j] == path.last(),
        },
    ensures
        forall|i: int|
            0 <= i < nodes.len() ==> (#[trigger] places.contains(i) <==> on_lineage(
                nodes,
                from,
                nodes[i].label,
            ) && label_place(nodes, nodes[i].label) == Some(i)),
{
    assert forall|i: int| 0 <= i < nodes.len() implies (#[trigger] places.contains(i)
        <==> on_lineage(nodes, from, nodes[i].label) && label_place(nodes, nodes[i].label) == Some(
        i,
    )) by {
        if places.contains(i) {
            let k = choose|k: int| 0 <= k < places.len() && places[k] == i;
            lemma_label_place(nodes, path[k]);
            lemma_ascent_step(nodes, from, path, k, path[k], 0);
            assert(above(nodes, path[k], path[k], 0));
            assert(above(nodes, from, nodes[i].label, (k + 0) as nat));
        }
        if on_lineage(nodes, from, nodes[i].label) && label_place(nodes, nodes[i].label) == Some(
            i,
        ) {
            let h = choose|h: nat| above(nodes, from, nodes[i].label, h);
            let last = path.len() - 1;
            match again {
                None => {
                    if h >= last {
                        lemma_ascent_step(nodes, from, path, last, nodes[i].label, (h - last) as nat);
                    }
                    assert(h < last);
                    lemma_ascent_step(nodes, from, path, h as int, nodes[i].label, 0);
                    assert(path[h as int] == nodes[i].label);
                    assert(places[h as int] == i);
                },
                Some(j) => {
                    lemma_cycle_adds_nothing(nodes, from, path, j, nodes[i].label, h);
                    let m = choose|m: nat| m < last && above(nodes, from, nodes[i].label, m);
                    lemma_ascent_step(nodes, from, path, m as int, nodes[i].label, 0);
                    assert(path[m as int] == nodes[i].label);
                    assert(places[m as int] == i);
                },
            }
        }
    }
}

/// The way up ended at a node without a parent: the nodes passed are the lineage.
proof fn lemma_marks_at_root(
    nodes: Seq<PublicNodeView>,
    from: Seq<char>,
    path: Seq<Seq<char>>,
    places: Seq<int>,
)
    requires
        ascent(nodes, from, path),
        path.len() == places.len(),
        forall|k: int|
            0 <= k < places.len() ==> 0 <= #[trigger] places[k] < nodes.len() && label_place(
                nodes,
                path[k],
            ) == Some(places[k]),
        nodes[places.last()].parent_label is None,
    ensures
        forall|i: int|
            0 <= i < nodes.len() ==> (#[trigger] places.contains(i) <==> on_lineage(
                nodes,
                from,
                nodes[i].label,
            ) && label_place(nodes, nodes[i].label) == Some(i)),
{
    assert forall|i: int| 0 <= i < nodes.len() implies (#[trigger] places.contains(i)
        <==> on_lineage(nodes, from, nodes[i].label) && label_place(nodes, nodes[i].label) == Some(
        i,
    )) by {
        let last = path.len() - 1;
        if places.contains(i) {
            let k = choose|k: int| 0 <= k < places.len() && places[k] == i;
            lemma_label_place(nodes, path[k]);
            lemma_ascent_step(nodes, from, path, k, path[k], 0);
            assert(above(nodes, path[k], path[k], 0));
            assert(above(nodes, from, nodes[i].label, (k + 0) as nat));
        }
        if on_lineage(nodes, from, nodes[i].label) && label_place(nodes, nodes[i].label) == Some(
            i,
        ) {
            let h = choose|h: nat| above(nodes, from, nodes[i].label, h);
            if h > last {
                lemma_ascent_step(nodes, from, path, last, nodes[i].label, (h - last) as nat);
                assert(places[last] == places.last());
            }
            assert(h <= last);
            lemma_ascent_step(nodes, from, path, h as int, nodes[i].label, 0);
            assert(path[h as int] == nodes[i].label);
            assert(places[h as int] == i);
        }
    }
}

/// Marks the nodes on the lineage of a label.
fn mark_lineage(nodes: &Vec<PublicNode>, from: &str, marks: &mut Vec<bool>)
    requires
        old(marks)@.len() == nodes@.len(),
    ensures
        final(marks)@.len() == nodes@.len(),
        forall|label: Seq<char>|
            #![trigger marked(public_node_views(nodes@), final(marks)@, label)]
            marked(public_node_views(nodes@), final(marks)@, label) <==> marked(
                public_node_views(nodes@),
                old(marks)@,
                label,
            ) || on_lineage(public_node_views(nodes@), from@, label),
{
    let ghost all = public_node_views(nodes@);
    let ghost before = marks@;
    mark_places(nodes, from, marks);
    proof {
        let after = marks@;
        assert forall|label: Seq<char>| #[trigger]
            marked(all, after, label) <==> marked(all, before, label) || on_lineage(
                all,
                from@,
                label,
            ) by {
            if marked(all, after, label) {
                let i = choose|i: int|
                    0 <= i < all.len() && #[trigger] after[i] && all[i].label == label;
                assert(nodes@[i].label@ == label);
                if before[i] {
                    assert(marked(all, before, label));
                }
            }
            if marked(all, before, label) {
                let i = choose|i: int|
                    0 <= i < all.len() && #[trigger] before[i] && all[i].label == label;
                assert(after[i]);
            }
            if on_lineage(all, from@, label) {
                let k = choose|k: nat| above(all, from@, label, k);
                lemma_above_is_a_label(all, from@, label, k);
                lemma_label_place(all, label);
                let i = label_place(all, label)->0;
                assert(nodes@[i].label@ == label);
                assert(after[i]);
            }
        }
    }
}

/// Marks the nodes with the same parent as a node.
fn mark_siblings(nodes: &Vec<PublicNode>, node: &str, marks: &mut Vec<bool>)
    requires
        old(marks)@.len() == nodes@.len(),
    ensures
        final(marks)@.len() == nodes@.len(),
        forall|label: Seq<char>|
            #![trigger marked(public_node_views(nodes@), final(marks)@, label)]
            marked(public_node_views(nodes@), final(marks)@, label) <==> marked(
                public_node_views(nodes@),
                old(marks)@,
                label,
            ) || beside(public_node_views(nodes@), node@, label),
{
    let ghost all = public_node_views(nodes@);
    let ghost before = marks@;
    let i = match find_label(nodes, node) {
        Some(i) => i,
        None => return,
    };
    let mut j: usize = 0;
    while j < nodes.len()
        invariant
            j <= nodes.len(),
            i < nodes.len(),
            all == public_node_views(nodes@),
            before.len() == nodes@.len(),
            marks@.len() == nodes@.len(),
            forall|k: int|
                0 <= k < nodes@.len() ==> (#[trigger] marks@[k] <==> before[k] || (k < j
                    && all[k].parent_label == all[i as int].parent_label)),
        decreases nodes.len() - j,
    {
        assert(all[i as int] == nodes@[i as int]@);
        assert(all[j as int] == nodes@[j as int]@);
        if same_optional_text(&nodes[j].parent_label, &nodes[i].parent_label) {
            marks.set(j, true);
        }
        j += 1;
    }
    proof {
        let after = marks@;
        assert forall|label: Seq<char>| #[trigger]
            marked(all, after, label) <==> marked(all, before, label) || beside(
                all,
                node@,
                label,
            ) by {
            if marked(all, after, label) {
                let k = choose|k: int|
                    0 <= k < all.len() && #[trigger] after[k] && all[k].label == label;
                if before[k] {
                    assert(marked(all, before, label));
                }
            }
            if marked(all, before, label) {
                let k = choose|k: int|
                    0 <= k < all.len() && #[trigger] before[k] && all[k].label == label;
                assert(after[k]);
            }
            if beside(all, node@, label) {
                let k = choose|k: int|
                    0 <= k < all.len() && (#[trigger] all[k]).label == label && all[k].parent_label
                        == all[i as int].parent_label;
                assert(after[k]);
            }
        }
    }
}

/// Marks the peers that a node is paired with, each with its lineage.
fn mark_peers(tree: &PublicTree, node: &str, marks: &mut Vec<bool>)
    requires
        old(marks)@.len() == tree.nodes@.len(),
    ensures
        final(marks)@.len() == tree.nodes@.len(),
        forall|label: Seq<char>|
            #![trigger marked(tree@.nodes, final(marks)@, label)]
            marked(tree@.nodes, final(marks)@, label) <==> marked(tree@.nodes, old(marks)@, label)
                || across(tree@, node@, label),
{
    let ghost t = tree@;
    let ghost before = marks@;
    let mut e: usize = 0;
    while e < tree.links.len()
        invariant
            e <= tree.links.len(),
            t == tree@,
            before.len() == tree.nodes@.len(),
            marks@.len() == tree.nodes@.len(),
            forall|label: Seq<char>|
                #![trigger marked(t.nodes, marks@, label)]
                marked(t.nodes, marks@, label) <==> marked(t.nodes, before, label) || exists|k: int|
                    0 <= k < e && (peer_of(#[trigger] t.links[k], node@) matches Some(peer)
                        && on_lineage(t.nodes, peer, label)),
        decreases tree.links.len() - e,
    {
        let edge = &tree.links[e];
        assert(t.links[e as int] == edge@);
        let ghost earlier = marks@;
        if text_equal(edge.from.as_str(), node) {
            mark_lineage(&tree.nodes, edge.to.as_str(), marks);
        } else if text_equal(edge.to.as_str(), node) {
            mark_lineage(&tree.nodes, edge.from.as_str(), marks);
        }
        proof {
            assert forall|label: Seq<char>| #[trigger]
                marked(t.nodes, marks@, label) <==> marked(t.nodes, before, label) || exists|k: int|
                    0 <= k < e + 1 && (peer_of(#[trigger] t.links[k], node@) matches Some(peer)
                        && on_lineage(t.nodes, peer, label)) by {
                let earlier_mark = marked(t.nodes, earlier, label);
                if exists|k: int|
                    0 <= k < e + 1 && (peer_of(#[trigger] t.links[k], node@) matches Some(peer)
                        && on_lineage(t.nodes, peer, label)) {
                    let k = choose|k: int|
                        0 <= k < e + 1 && (peer_of(#[trigger] t.links[k], node@) matches Some(peer)
                            && on_lineage(t.nodes, peer, label));
                    if k < e {
                        assert(earlier_mark);
                    }
                }
                if marked(t.nodes, marks@, label) && !earlier_mark {
                    assert(peer_of(t.links[e as int], node@) is Some);
                }
            }
        }
        e += 1;
    }
}

/// The labels that the holder of some leaves sees.
pub fn visible_labels_in_public_tree(tree: &PublicTree, seeds: &Vec<String>) -> (r: Vec<String>)
    ensures
        forall|label: Seq<char>|
            #![trigger text_views(r@).contains(label)]
            text_views(r@).contains(label) <==> visible_to(tree@, text_views(seeds@), label),
{
    let ghost t = tree@;
    let ghost given = text_views(seeds@);
    let mut marks: Vec<bool> = Vec::new();
    let mut i: usize = 0;
    while i < tree.nodes.len()
        invariant
            i <= tree.nodes.len(),
            marks@.len() == i,
            forall|k: int| 0 <= k < i ==> !#[trigger] marks@[k],
        decreases tree.nodes.len() - i,
    {
        marks.push(false);
        i += 1;
    }
    let mut s: usize = 0;
    while s < seeds.len()
        invariant
            s <= seeds.len(),
            t == tree@,
            given == text_views(seeds@),
            marks@.len() == tree.nodes@.len(),
            forall|label: Seq<char>|
                #![trigger marked(t.nodes, marks@, label)]
                marked(t.nodes, marks@, label) <==> exists|k: int|
                    0 <= k < s && sees(t, #[trigger] given[k], label),
        decreases seeds.len() - s,
    {
        let seed = seeds[s].as_str();
        assert(given[s as int] == seed@);
        let ghost before = marks@;
        mark_lineage(&tree.nodes, seed, &mut marks);
        let ghost lined = marks@;
        mark_siblings(&tree.nodes, seed, &mut marks);
        let ghost sided = marks@;
        mark_peers(tree, seed, &mut marks);
        proof {
            assert forall|label: Seq<char>| #[trigger]
                marked(t.nodes, marks@, label) <==> exists|k: int|
                    0 <= k < s + 1 && sees(t, #[trigger] given[k], label) by {
                let a = marked(t.nodes, before, label);
                let b = marked(t.nodes, lined, label);
                let c = marked(t.nodes, sided, label);
                if marked(t.nodes, marks@, label) {
                    if a {
                        let k = choose|k: int| 0 <= k < s && sees(t, #[trigger] given[k], label);
                        assert(sees(t, given[k], label));
                    } else {
                        assert(sees(t, given[s as int], label));
                    }
                }
                if exists|k: int| 0 <= k < s + 1 && sees(t, #[trigger] given[k], label) {
                    let k = choose|k: int| 0 <= k < s + 1 && sees(t, #[trigger] given[k], label);
                    if k < s {
                        assert(a);
                    }
                }
            }
        }
        s += 1;
    }
    let mut out: Vec<String> = Vec::new();
    let mut j: usize = 0;
    while j < tree.nodes.len()
        invariant
            j <= tree.nodes.len(),
            t == tree@,
            marks@.len() == tree.nodes@.len(),
            forall|label: Seq<char>|
                #![trigger text_views(out@).contains(label)]
                text_views(out@).contains(label) <==> exists|i: int|
                    0 <= i < j && #[trigger] marks@[i] && t.nodes[i].label == label,
        decreases tree.nodes.len() - j,
    {
        assert(t.nodes[j as int] == tree.nodes@[j as int]@);
        let ghost before = text_views(out@);
        if marks[j] {
            out.push(tree.nodes[j].label.as_str().to_owned());
        }
        proof {
            let after = text_views(out@);
            let added = t.nodes[j as int].label;
            if marks@[j as int] {
                assert(after =~= before.push(added));
            }
            assert forall|label: Seq<char>| #[trigger] after.contains(label) <==> exists|i: int|
                0 <= i < j + 1 && #[trigger] marks@[i] && t.nodes[i].label == label by {
                let had = before.contains(label);
                if after.contains(label) {
                    let k = choose|k: int| 0 <= k < after.len() && after[k] == label;
                    if k < before.len() {
                        assert(before[k] == label);
                    } else {
                        assert(marks@[j as int]);
                    }
                }
                if had {
                    let k = choose|k: int| 0 <= k < before.len() && before[k] == label;
                    assert(after[k] == label);
                }
                if marks@[j as int] && added == label {
                    assert(after[after.len() - 1] == label);
                }
            }
        }
        j += 1;
    }
    assert forall|label: Seq<char>| #[trigger]
        text_views(out@).contains(label) <==> visible_to(t, given, label) by {
        assert(text_views(out@).contains(label) <==> marked(t.nodes, marks@, label));
    }
    out
}

/// What is left of a tree for those who see some labels.
pub open spec fn filtered(t: PublicTreeView, seen: Set<Seq<char>>) -> PublicTreeView {
    PublicTreeView {
        nodes: t.nodes.filter(|node: PublicNodeView| seen.contains(node.label)),
        whitelist: t.whitelist.filter(edge_seen(seen)),
        links: t.links.filter(edge_seen(seen)),
        ..t
    }
}

/// Both ends of an edge are seen.
pub open spec fn edge_seen(seen: Set<Seq<char>>) -> spec_fn(PublicEdgeView) -> bool {
    |edge: PublicEdgeView| seen.contains(edge.from) && seen.contains(edge.to)
}

fn filter_edges(edges: &Vec<PublicEdge>, visible: &Vec<String>) -> (r: Vec<PublicEdge>)
    ensures
        edge_views(r@) == edge_views(edges@).filter(edge_seen(text_views(visible@).to_set())),
{
    let ghost all = edge_views(edges@);
    let ghost keep = edge_seen(text_views(visible@).to_set());
    let mut out: Vec<PublicEdge> = Vec::new();
    let mut i: usize = 0;
    proof {
        reveal(Seq::filter);
        assert(edge_views(out@) =~= all.take(0).filter(keep));
    }
    while i < edges.len()
        invariant
            i <= edges.len(),
            all == edge_views(edges@),
            keep == edge_seen(text_views(visible@).to_set()),
            edge_views(out@) == all.take(i as int).filter(keep),
        decreases edges.len() - i,
    {
        let edge = &edges[i];
        assert(all[i as int] == edge@);
        let ghost before = edge_views(out@);
        let kept = contains_text(visible, edge.from.as_str()) && contains_text(
            visible,
            edge.to.as_str(),
        );
        if kept {
            out.push(copy_edge(edge));
        }
        proof {
            reveal(Seq::filter);
            assert(all.take(i + 1).drop_last() =~= all.take(i as int));
            assert(all.take(i + 1).last() == edge@);
            if kept {
                assert(edge_views(out@) =~= before.push(edge@));
            }
        }
        i += 1;
    }
    assert(all.take(i as int) =~= all);
    out
}

/// A tree with only the nodes whose labels are seen, and the edges between them.
pub fn filter_public_tree(tree: &PublicTree, visible: &Vec<String>) -> (r: PublicTree)
    ensures
        r@ == filtered(tree@, text_views(visible@).to_set()),
{
    let ghost all = tree@.nodes;
    let ghost seen = text_views(visible@).to_set();
    let ghost keep = |node: PublicNodeView| seen.contains(node.label);
    let mut nodes: Vec<PublicNode> = Vec::new();
    let mut i: usize = 0;
    proof {
        reveal(Seq::filter);
        assert(public_node_views(nodes@) =~= all.take(0).filter(keep));
    }
    while i < tree.nodes.len()
        invariant
            i <= tree.nodes.len(),
            all == tree@.nodes,
            seen == text_views(visible@).to_set(),
            keep == (|node: PublicNodeView| seen.contains(node.label)),
            public_node_views(nodes@) == all.take(i as int).filter(keep),
        decreases tree.nodes.len() - i,
    {
        let node = &tree.nodes[i];
        assert(all[i as int] == node@);
        let ghost before = public_node_views(nodes@);
        let kept = contains_text(visible, node.label.as_str());
        if kept {
            nodes.push(copy_node(node));
        }
        proof {
            reveal(Seq::filter);
            assert(all.take(i + 1).drop_last() =~= all.take(i as int));
            assert(all.take(i + 1).last() == node@);
            if kept {
                assert(public_node_views(nodes@) =~= before.push(node@));
            }
        }
        i += 1;
    }
    assert(all.take(i as int) =~= all);
    PublicTree {
        label: tree.label.as_str().to_owned(),
        generation: tree.generation,
        nodes,
        whitelist: filter_edges(&tree.whitelist, visible),
        links: filter_edges(&tree.links, visible),
    }
}

/// The labels of the nodes that a key with a fingerprint holds.
pub open spec fn held_labels(nodes: Seq<PublicNodeView>, fingerprint: Seq<char>) -> Seq<Seq<char>>
    decreases nodes.len(),
{
    if nodes.len() == 0 {
        Seq::empty()
    } else {
        let before = held_labels(nodes.drop_last(), fingerprint);
        if nodes.last().encryption_fingerprint == Some(fingerprint) {
            before.push(nodes.last().label)
        } else {
            before
        }
    }
}

/// What the holder of a key is shown of a tree, if the key is in it.
pub open spec fn slice_of(t: PublicTreeView, fingerprint: Seq<char>) -> Option<PublicTreeView> {
    let seeds = held_labels(t.nodes, fingerprint);
    if seeds.len() == 0 {
        None
    } else {
        Some(filtered(t, Set::new(|label: Seq<char>| visible_to(t, seeds, label))))
    }
}

/// The part of a tree that the holder of a key is shown, if the key is in it.
pub fn slice_for_fingerprint(full: &PublicTree, fingerprint: &str) -> (r: Option<PublicTree>)
    ensures
        slice_of(full@, fingerprint@) == (match r {
            Some(slice) => Some(slice@),
            None => None,
        }),
{
    let ghost all = full@.nodes;
    let mut seeds: Vec<String> = Vec::new();
    let mut i: usize = 0;
    assert(text_views(seeds@) =~= held_labels(all.take(0), fingerprint@));
    while i < full.nodes.len()
        invariant
            i <= full.nodes.len(),
            all == full@.nodes,
            text_views(seeds@) == held_labels(all.take(i as int), fingerprint@),
        decreases full.nodes.len() - i,
    {
        let node = &full.nodes[i];
        assert(all[i as int] == node@);
        let ghost before = text_views(seeds@);
        let held = match &node.encryption_fingerprint {
            Some(have) => text_equal(have.as_str(), fingerprint),
            None => false,
        };
        if held {
            seeds.push(node.label.as_str().to_owned());
        }
        proof {
            assert(all.take(i + 1).drop_last() =~= all.take(i as int));
            assert(all.take(i + 1).last() == node@);
            if held {
                assert(text_views(seeds@) =~= before.push(node.label@));
            }
        }
        i += 1;
    }
    assert(all.take(i as int) =~= all);
    if seeds.len() == 0 {
        return None;
    }
    let visible = visible_labels_in_public_tree(full, &seeds);
    assert(text_views(visible@).to_set() =~= Set::new(
        |label: Seq<char>| visible_to(full@, text_views(seeds@), label),
    ));
    Some(filter_public_tree(full, &visible))
}

proof fn lemma_filter_has<A>(s: Seq<A>, keep: spec_fn(A) -> bool, x: A)
    ensures
        s.filter(keep).contains(x) <==> s.contains(x) && keep(x),
    decreases s.len(),
{
    reveal(Seq::filter);
    if s.len() > 0 {
        let front = s.drop_last();
        lemma_filter_has(front, keep, x);
        let kept = s.filter(keep);
        if s.contains(x) {
            let k = choose|k: int| 0 <= k < s.len() && s[k] == x;
            if k < front.len() {
                assert(front[k] == x);
            }
        }
        if front.contains(x) {
            let k = choose|k: int| 0 <= k < front.len() && front[k] == x;
            assert(s[k] == x);
        }
        if keep(s.last()) {
            assert(kept == front.filter(keep).push(s.last()));
            if kept.contains(x) {
                let k = choose|k: int| 0 <= k < kept.len() && kept[k] == x;
                if k < front.filter(keep).len() {
                    assert(front.filter(keep)[k] == x);
                } else {
                    assert(s[s.len() - 1] == x);
                }
            }
            if front.filter(keep).contains(x) {
                let k = choose|k: int|
                    0 <= k < front.filter(keep).len() && front.filter(keep)[k] == x;
                assert(kept[k] == x);
            }
            if s.last() == x {
                assert(kept[kept.len() - 1] == x);
            }
        }
    }
}

proof fn lemma_held_labels(nodes: Seq<PublicNodeView>, fingerprint: Seq<char>, i: int)
    requires
        0 <= i < nodes.len(),
        nodes[i].encryption_fingerprint == Some(fingerprint),
    ensures
        held_labels(nodes, fingerprint).contains(nodes[i].label),
    decreases nodes.len(),
{
    let front = nodes.drop_last();
    let before = held_labels(front, fingerprint);
    let all = held_labels(nodes, fingerprint);
    if i < front.len() {
        assert(front[i] == nodes[i]);
        lemma_held_labels(front, fingerprint, i);
        let k = choose|k: int| 0 <= k < before.len() && before[k] == nodes[i].label;
        assert(all[k] == nodes[i].label);
    } else {
        assert(all[all.len() - 1] == nodes[i].label);
    }
}

/// A slice shows every node that the key holds, as it is.
pub proof fn slice_shows_held_nodes(t: PublicTreeView, fingerprint: Seq<char>, i: int)
    requires
        0 <= i < t.nodes.len(),
        t.nodes[i].encryption_fingerprint == Some(fingerprint),
    ensures
        slice_of(t, fingerprint) matches Some(slice) && slice.nodes.contains(t.nodes[i]),
{
    let seeds = held_labels(t.nodes, fingerprint);
    lemma_held_labels(t.nodes, fingerprint, i);
    let label = t.nodes[i].label;
    let s = choose|s: int| 0 <= s < seeds.len() && seeds[s] == label;
    lemma_label_place(t.nodes, label);
    assert(has_label(t.nodes, label));
    assert(above(t.nodes, label, label, 0));
    assert(sees(t, seeds[s], label));
    let seen = Set::new(|label: Seq<char>| visible_to(t, seeds, label));
    assert(seen.contains(label));
    lemma_filter_has(t.nodes, |node: PublicNodeView| seen.contains(node.label), t.nodes[i]);
}

/// A slice shows nothing but what its holder sees, and every edge that it shows
/// is between nodes that are seen.
pub proof fn slice_shows_only_what_is_seen(
    t: PublicTreeView,
    fingerprint: Seq<char>,
    node: PublicNodeView,
    edge: PublicEdgeView,
)
    requires
        slice_of(t, fingerprint) is Some,
    ensures
        ({
            let seeds = held_labels(t.nodes, fingerprint);
            let slice = slice_of(t, fingerprint)->0;
            &&& slice.nodes.contains(node) <==> t.nodes.contains(node) && visible_to(
                t,
                seeds,
                node.label,
            )
            &&& slice.links.contains(edge) <==> t.links.contains(edge) && visible_to(
                t,
                seeds,
                edge.from,
            ) && visible_to(t, seeds, edge.to)
            &&& slice.whitelist.contains(edge) <==> t.whitelist.contains(edge) && visible_to(
                t,
                seeds,
                edge.from,
            ) && visible_to(t, seeds, edge.to)
        }),
{
    let seeds = held_labels(t.nodes, fingerprint);
    let seen = Set::new(|label: Seq<char>| visible_to(t, seeds, label));
    lemma_filter_has(t.nodes, |node: PublicNodeView| seen.contains(node.label), node);
    lemma_filter_has(t.links, edge_seen(seen), edge);
    lemma_filter_has(t.whitelist, edge_seen(seen), edge);
}

proof fn lemma_lineage_goes_on(
    nodes: Seq<PublicNodeView>,
    from: Seq<char>,
    label: Seq<char>,
    k: nat,
    parent: Seq<char>,
)
    requires
        above(nodes, from, label, k),
        label_place(nodes, label) matches Some(i) && nodes[i].parent_label == Some(parent),
        label_place(nodes, parent) is Some,
    ensures
        above(nodes, from, parent, k + 1),
    decreases k,
{
    let i = label_place(nodes, from)->0;
    if k > 0 {
        lemma_lineage_goes_on(nodes, nodes[i].parent_label->0, label, (k - 1) as nat, parent);
    } else {
        assert(above(nodes, parent, parent, 0));
    }
}

/// With a node of a sound tree, its parent is seen.
pub proof fn parents_are_seen(t: PublicTreeView, seeds: Seq<Seq<char>>, i: int)
    requires
        tree_fault(t) is None,
        0 <= i < t.nodes.len(),
        visible_to(t, seeds, t.nodes[i].label),
    ensures
        t.nodes[i].parent_label matches Some(parent) ==> visible_to(t, seeds, parent),
{
    let label = t.nodes[i].label;
    if let Some(parent) = t.nodes[i].parent_label {
        assert forall|a: int, b: int| 0 <= a < b < t.nodes.len() implies (#[trigger] t.nodes[a]).label
            != (#[trigger] t.nodes[b]).label by {
            labels_stand_once(t.nodes, a, b);
        }
        lemma_place_of_node(t.nodes, i);
        assert(has_label(t.nodes, parent));
        lemma_label_place(t.nodes, parent);
        let s = choose|s: int| 0 <= s < seeds.len() && sees(t, #[trigger] seeds[s], label);
        let seed = seeds[s];
        if on_lineage(t.nodes, seed, label) {
            let k = choose|k: nat| above(t.nodes, seed, label, k);
            lemma_lineage_goes_on(t.nodes, seed, label, k, parent);
            assert(on_lineage(t.nodes, seed, parent));
        } else if beside(t.nodes, seed, label) {
            let p = label_place(t.nodes, seed)->0;
            let j = choose|j: int|
                0 <= j < t.nodes.len() && (#[trigger] t.nodes[j]).label == label
                    && t.nodes[j].parent_label == t.nodes[p].parent_label;
            lemma_place_of_node(t.nodes, j);
            assert(i == j);
            assert(above(t.nodes, parent, parent, 0));
            assert(above(t.nodes, seed, parent, 1));
            assert(on_lineage(t.nodes, seed, parent));
        } else {
            let e = choose|e: int|
                0 <= e < t.links.len() && (peer_of(#[trigger] t.links[e], seed) matches Some(peer)
                    && on_lineage(t.nodes, peer, label));
            let peer = peer_of(t.links[e], seed)->0;
            let k = choose|k: nat| above(t.nodes, peer, label, k);
            lemma_lineage_goes_on(t.nodes, peer, label, k, parent);
            assert(on_lineage(t.nodes, peer, parent));
            assert(across(t, seed, parent));
        }
        assert(sees(t, seeds[s], parent));
    }
}

/// A chain of parents leads from a node with one label to a node with the other.
pub open spec fn chain_between(
    nodes: Seq<PublicNodeView>,
    from: Seq<char>,
    label: Seq<char>,
    path: Seq<int>,
) -> bool {
    parent_chain(nodes, path) && nodes[path[0]].label == from && nodes[path.last()].label == label
}

/// The label is that of the node or of one that a chain of parents leads to.
pub open spec fn climbs_to(nodes: Seq<PublicNodeView>, from: Seq<char>, label: Seq<char>) -> bool {
    exists|path: Seq<int>| chain_between(nodes, from, label, path)
}

proof fn lemma_chain_up(nodes: Seq<PublicNodeView>, from: Seq<char>, label: Seq<char>, k: nat)
    requires
        above(nodes, from, label, k),
    ensures
        climbs_to(nodes, from, label),
    decreases k,
{
    let i = label_place(nodes, from)->0;
    lemma_label_place(nodes, from);
    if k == 0 {
        assert(chain_between(nodes, from, label, seq![i]));
    } else {
        let parent = nodes[i].parent_label->0;
        lemma_chain_up(nodes, parent, label, (k - 1) as nat);
        let rest = choose|rest: Seq<int>| chain_between(nodes, parent, label, rest);
        let path = seq![i] + rest;
        assert forall|k: int| 0 <= k < path.len() implies 0 <= #[trigger] path[k] < nodes.len() by {
            if k > 0 {
                assert(path[k] == rest[k - 1]);
            }
        }
        assert forall|k: int|
            #![trigger path[k]]
            0 <= k < path.len() - 1 implies nodes[path[k]].parent_label == Some(
            nodes[path[k + 1]].label,
        ) by {
            assert(path[k + 1] == rest[k]);
            if k > 0 {
                assert(path[k] == rest[k - 1]);
            }
        }
        assert(path.last() == rest.last());
        assert(chain_between(nodes, from, label, path));
    }
}

#[verifier::spinoff_prover]
#[verifier::rlimit(40)]
proof fn lemma_up_a_chain(
    nodes: Seq<PublicNodeView>,
    from: Seq<char>,
    label: Seq<char>,
    path: Seq<int>,
)
    requires
        labels_differ(nodes),
        chain_between(nodes, from, label, path),
    ensures
        on_lineage(nodes, from, label),
    decreases path.len(),
{
    lemma_place_of_node(nodes, path[0]);
    if path.len() == 1 {
        assert(above(nodes, from, label, 0));
    } else {
        let rest = path.skip(1);
        assert forall|k: int| 0 <= k < rest.len() implies 0 <= #[trigger] rest[k] < nodes.len() by {
            assert(rest[k] == path[k + 1]);
        }
        assert forall|k: int|
            #![trigger rest[k]]
            0 <= k < rest.len() - 1 implies nodes[rest[k]].parent_label == Some(
            nodes[rest[k + 1]].label,
        ) by {
            assert(rest[k] == path[k + 1]);
            assert(rest[k + 1] == path[k + 2]);
        }
        let parent = nodes[path[1]].label;
        assert(rest[0] == path[1]);
        assert(rest.last() == path.last());
        assert(nodes[path[0]].parent_label == Some(parent));
        lemma_up_a_chain(nodes, parent, label, rest);
        let k = choose|k: nat| above(nodes, parent, label, k);
        assert(above(nodes, from, label, k + 1));
    }
}

/// A lineage is a node and whatever a chain of parents leads to from it.
pub proof fn lineage_is_a_chain_of_parents(
    nodes: Seq<PublicNodeView>,
    from: Seq<char>,
    label: Seq<char>,
)
    requires
        labels_differ(nodes),
    ensures
        on_lineage(nodes, from, label) <==> climbs_to(nodes, from, label),
{
    if on_lineage(nodes, from, label) {
        let k = choose|k: nat| above(nodes, from, label, k);
        lemma_chain_up(nodes, from, label, k);
    }
    if climbs_to(nodes, from, label) {
        let path = choose|path: Seq<int>| chain_between(nodes, from, label, path);
        lemma_up_a_chain(nodes, from, label, path);
    }
}

/// An edge in either direction leads from the node to one whose lineage has the label.
pub open spec fn paired_lineage(
    t: PublicTreeView,
    node: Seq<char>,
    label: Seq<char>,
    e: int,
) -> bool {
    ||| t.links[e].from == node && climbs_to(t.nodes, t.links[e].to, label)
    ||| t.links[e].to == node && climbs_to(t.nodes, t.links[e].from, label)
}

/// The holder of a leaf sees its own lineage, the nodes with the same parent, and the
/// lineage of everyone it is paired with from either side, and nothing else.
pub proof fn holder_sees_exactly(t: PublicTreeView, i: int, label: Seq<char>)
    requires
        labels_differ(t.nodes),
        0 <= i < t.nodes.len(),
        forall|e: int|
            0 <= e < t.links.len() ==> (#[trigger] t.links[e]).from != t.links[e].to,
    ensures
        sees(t, t.nodes[i].label, label) <==> {
            ||| climbs_to(t.nodes, t.nodes[i].label, label)
            ||| exists|j: int|
                0 <= j < t.nodes.len() && (#[trigger] t.nodes[j]).label == label
                    && t.nodes[j].parent_label == t.nodes[i].parent_label
            ||| exists|e: int|
                0 <= e < t.links.len() && #[trigger] paired_lineage(t, t.nodes[i].label, label, e)
        },
{
    let node = t.nodes[i].label;
    lemma_place_of_node(t.nodes, i);
    lineage_is_a_chain_of_parents(t.nodes, node, label);
    assert forall|e: int| 0 <= e < t.links.len() implies ((peer_of(
        #[trigger] t.links[e],
        node,
    ) matches Some(peer) && on_lineage(t.nodes, peer, label)) <==> paired_lineage(
        t,
        node,
        label,
        e,
    )) by {
        lineage_is_a_chain_of_parents(t.nodes, t.links[e].to, label);
        lineage_is_a_chain_of_parents(t.nodes, t.links[e].from, label);
    }
    if across(t, node, label) {
        let e = choose|e: int|
            0 <= e < t.links.len() && (peer_of(#[trigger] t.links[e], node) matches Some(peer)
                && on_lineage(t.nodes, peer, label));
        assert(paired_lineage(t, node, label, e));
    }
    if exists|e: int| 0 <= e < t.links.len() && #[trigger] paired_lineage(t, node, label, e) {
        let e = choose|e: int|
            0 <= e < t.links.len() && #[trigger] paired_lineage(t, node, label, e);
        assert(peer_of(t.links[e], node) matches Some(peer) && on_lineage(t.nodes, peer, label));
    }
}

proof fn lemma_labels_held(nodes: Seq<PublicNodeView>, fingerprint: Seq<char>)
    ensures
        forall|label: Seq<char>| #[trigger]
            held_labels(nodes, fingerprint).contains(label) <==> exists|i: int|
                0 <= i < nodes.len() && (#[trigger] nodes[i]).label == label
                    && nodes[i].encryption_fingerprint == Some(fingerprint),
    decreases nodes.len(),
{
    let all = held_labels(nodes, fingerprint);
    if nodes.len() > 0 {
        let rest = nodes.drop_last();
        let last = nodes.last();
        let before = held_labels(rest, fingerprint);
        lemma_labels_held(rest, fingerprint);
        assert forall|label: Seq<char>| #[trigger] all.contains(label) <==> exists|i: int|
            0 <= i < nodes.len() && (#[trigger] nodes[i]).label == label
                && nodes[i].encryption_fingerprint == Some(fingerprint) by {
            if all.contains(label) {
                let k = choose|k: int| 0 <= k < all.len() && all[k] == label;
                if k < before.len() {
                    assert(before[k] == label);
                    assert(before.contains(label));
                    let i = choose|i: int|
                        0 <= i < rest.len() && (#[trigger] rest[i]).label == label
                            && rest[i].encryption_fingerprint == Some(fingerprint);
                    assert(nodes[i] == rest[i]);
                } else {
                    assert(nodes[nodes.len() - 1].label == label);
                }
            }
            if exists|i: int|
                0 <= i < nodes.len() && (#[trigger] nodes[i]).label == label
                    && nodes[i].encryption_fingerprint == Some(fingerprint) {
                let i = choose|i: int|
                    0 <= i < nodes.len() && (#[trigger] nodes[i]).label == label
                        && nodes[i].encryption_fingerprint == Some(fingerprint);
                if i < rest.len() {
                    assert(rest[i] == nodes[i]);
                    assert(before.contains(label));
                    let k = choose|k: int| 0 <= k < before.len() && before[k] == label;
                    assert(all[k] == label);
                } else {
                    assert(all[before.len() as int] == label);
                }
            }
        }
    } else {
        assert forall|label: Seq<char>| !#[trigger] all.contains(label) by {}
    }
}

/// Some node with the key sees the label.
pub open spec fn seen_by_key(t: PublicTreeView, fingerprint: Seq<char>, label: Seq<char>) -> bool {
    exists|i: int|
        0 <= i < t.nodes.len() && (#[trigger] t.nodes[i]).encryption_fingerprint == Some(
            fingerprint,
        ) && sees(t, t.nodes[i].label, label)
}

/// A key is shown a slice of a tree exactly where some node has the key. It shows the nodes
/// that one of the key's nodes sees and the edges between such, each as it is, under the
/// tree's own label and generation.
pub proof fn key_is_shown_what_its_nodes_see(
    t: PublicTreeView,
    fingerprint: Seq<char>,
    node: PublicNodeView,
    edge: PublicEdgeView,
)
    ensures
        slice_of(t, fingerprint) is Some <==> exists|i: int|
            0 <= i < t.nodes.len() && (#[trigger] t.nodes[i]).encryption_fingerprint == Some(
                fingerprint,
            ),
        slice_of(t, fingerprint) matches Some(slice) ==> {
            &&& slice.label == t.label
            &&& slice.generation == t.generation
            &&& slice.nodes.contains(node) <==> t.nodes.contains(node) && seen_by_key(
                t,
                fingerprint,
                node.label,
            )
            &&& slice.links.contains(edge) <==> t.links.contains(edge) && seen_by_key(
                t,
                fingerprint,
                edge.from,
            ) && seen_by_key(t, fingerprint, edge.to)
            &&& slice.whitelist.contains(edge) <==> t.whitelist.contains(edge) && seen_by_key(
                t,
                fingerprint,
                edge.from,
            ) && seen_by_key(t, fingerprint, edge.to)
        },
{
    let seeds = held_labels(t.nodes, fingerprint);
    lemma_labels_held(t.nodes, fingerprint);
    if seeds.len() > 0 {
        assert(seeds.contains(seeds[0]));
        slice_shows_only_what_is_seen(t, fingerprint, node, edge);
    }
    if exists|i: int|
        0 <= i < t.nodes.len() && (#[trigger] t.nodes[i]).encryption_fingerprint == Some(
            fingerprint,
        ) {
        let i = choose|i: int|
            0 <= i < t.nodes.len() && (#[trigger] t.nodes[i]).encryption_fingerprint == Some(
                fingerprint,
            );
        assert(seeds.contains(t.nodes[i].label));
    }
    assert forall|label: Seq<char>| #[trigger] visible_to(t, seeds, label) <==> seen_by_key(
        t,
        fingerprint,
        label,
    ) by {
        if visible_to(t, seeds, label) {
            let s = choose|s: int| 0 <= s < seeds.len() && sees(t, #[trigger] seeds[s], label);
            assert(seeds.contains(seeds[s]));
        }
        if seen_by_key(t, fingerprint, label) {
            let i = choose|i: int|
                0 <= i < t.nodes.len() && (#[trigger] t.nodes[i]).encryption_fingerprint == Some(
                    fingerprint,
                ) && sees(t, t.nodes[i].label, label);
            assert(seeds.contains(t.nodes[i].label));
            let s = choose|s: int| 0 <= s < seeds.len() && seeds[s] == t.nodes[i].label;
            assert(sees(t, seeds[s], label));
        }
    }
}

} // verus!
