//! The public side of a split tree: labels, thresholds, public keys, who may be
//! paired and who is.

use vstd::prelude::*;

use crate::encoding::{hex_bytes, hex_decode};
use crate::error::{fault_of, Error};
use crate::seqs::{lemma_distinct_bounded, lemma_push_no_duplicates, place_among};
use crate::text::{contains_text, copy_text, optional_text, text_equal, text_views};

verus! {

/// A node of a public tree: a split has a threshold, a leaf has a key.
#[derive(Debug)]
pub struct PublicNode {
    pub label: String,
    pub parent_label: Option<String>,
    pub threshold: Option<i64>,
    pub is_active: bool,
    pub encryption_fingerprint: Option<String>,
    pub encryption_public_key: Option<String>,
}

#[verifier::ext_equal]
pub struct PublicNodeView {
    pub label: Seq<char>,
    pub parent_label: Option<Seq<char>>,
    pub threshold: Option<i64>,
    pub is_active: bool,
    pub encryption_fingerprint: Option<Seq<char>>,
    pub encryption_public_key: Option<Seq<char>>,
}

impl View for PublicNode {
    type V = PublicNodeView;

    open spec fn view(&self) -> PublicNodeView {
        PublicNodeView {
            label: self.label@,
            parent_label: optional_text(self.parent_label),
            threshold: self.threshold,
            is_active: self.is_active,
            encryption_fingerprint: optional_text(self.encryption_fingerprint),
            encryption_public_key: optional_text(self.encryption_public_key),
        }
    }
}

/// One node named by another: a permission, or an established pairing.
#[derive(Debug)]
pub struct PublicEdge {
    pub from: String,
    pub to: String,
}

#[verifier::ext_equal]
pub struct PublicEdgeView {
    pub from: Seq<char>,
    pub to: Seq<char>,
}

impl View for PublicEdge {
    type V = PublicEdgeView;

    open spec fn view(&self) -> PublicEdgeView {
        PublicEdgeView { from: self.from@, to: self.to@ }
    }
}

/// The public side of one split tree.
#[derive(Debug)]
pub struct PublicTree {
    pub label: String,
    pub generation: u32,
    pub nodes: Vec<PublicNode>,
    pub whitelist: Vec<PublicEdge>,
    pub links: Vec<PublicEdge>,
}

#[verifier::ext_equal]
pub struct PublicTreeView {
    pub label: Seq<char>,
    pub generation: u32,
    pub nodes: Seq<PublicNodeView>,
    pub whitelist: Seq<PublicEdgeView>,
    pub links: Seq<PublicEdgeView>,
}

pub open spec fn public_node_views(nodes: Seq<PublicNode>) -> Seq<PublicNodeView> {
    Seq::new(nodes.len(), |i: int| nodes[i]@)
}

pub open spec fn edge_views(edges: Seq<PublicEdge>) -> Seq<PublicEdgeView> {
    Seq::new(edges.len(), |i: int| edges[i]@)
}

impl View for PublicTree {
    type V = PublicTreeView;

    open spec fn view(&self) -> PublicTreeView {
        PublicTreeView {
            label: self.label@,
            generation: self.generation,
            nodes: public_node_views(self.nodes@),
            whitelist: edge_views(self.whitelist@),
            links: edge_views(self.links@),
        }
    }
}

/// A copy of a node.
pub fn copy_node(node: &PublicNode) -> (r: PublicNode)
    ensures
        r@ == node@,
{
    PublicNode {
        label: node.label.as_str().to_owned(),
        parent_label: copy_text(&node.parent_label),
        threshold: node.threshold,
        is_active: node.is_active,
        encryption_fingerprint: copy_text(&node.encryption_fingerprint),
        encryption_public_key: copy_text(&node.encryption_public_key),
    }
}

/// A copy of an edge.
pub fn copy_edge(edge: &PublicEdge) -> (r: PublicEdge)
    ensures
        r@ == edge@,
{
    PublicEdge { from: edge.from.as_str().to_owned(), to: edge.to.as_str().to_owned() }
}

/// Copies of nodes.
pub fn copy_nodes(nodes: &Vec<PublicNode>) -> (r: Vec<PublicNode>)
    ensures
        public_node_views(r@) == public_node_views(nodes@),
{
    let mut out: Vec<PublicNode> = Vec::new();
    let mut i: usize = 0;
    while i < nodes.len()
        invariant
            i <= nodes.len(),
            out@.len() == i,
            forall|k: int| 0 <= k < i ==> (#[trigger] out@[k])@ == nodes@[k]@,
        decreases nodes.len() - i,
    {
        out.push(copy_node(&nodes[i]));
        i += 1;
    }
    assert(public_node_views(out@) =~= public_node_views(nodes@));
    out
}

/// Copies of edges.
pub fn copy_edges(edges: &Vec<PublicEdge>) -> (r: Vec<PublicEdge>)
    ensures
        edge_views(r@) == edge_views(edges@),
{
    let mut out: Vec<PublicEdge> = Vec::new();
    let mut i: usize = 0;
    while i < edges.len()
        invariant
            i <= edges.len(),
            out@.len() == i,
            forall|k: int| 0 <= k < i ==> (#[trigger] out@[k])@ == edges@[k]@,
        decreases edges.len() - i,
    {
        out.push(copy_edge(&edges[i]));
        i += 1;
    }
    assert(edge_views(out@) =~= edge_views(edges@));
    out
}

/// A copy of a tree.
pub fn copy_tree(tree: &PublicTree) -> (r: PublicTree)
    ensures
        r@ == tree@,
{
    PublicTree {
        label: tree.label.as_str().to_owned(),
        generation: tree.generation,
        nodes: copy_nodes(&tree.nodes),
        whitelist: copy_edges(&tree.whitelist),
        links: copy_edges(&tree.links),
    }
}

/// Some node has the label.
pub open spec fn has_label(nodes: Seq<PublicNodeView>, label: Seq<char>) -> bool {
    exists|i: int| 0 <= i < nodes.len() && (#[trigger] nodes[i]).label == label
}

/// Where the first node with a label stands.
pub open spec fn label_place(nodes: Seq<PublicNodeView>, label: Seq<char>) -> Option<int>
    decreases nodes.len(),
{
    if nodes.len() == 0 {
        None
    } else {
        match label_place(nodes.drop_last(), label) {
            Some(i) => Some(i),
            None => if nodes.last().label == label {
                Some(nodes.len() - 1)
            } else {
                None
            },
        }
    }
}

pub proof fn lemma_label_place(nodes: Seq<PublicNodeView>, label: Seq<char>)
    ensures
        label_place(nodes, label) is Some <==> has_label(nodes, label),
        label_place(nodes, label) matches Some(i) ==> 0 <= i < nodes.len() && nodes[i].label
            == label && forall|k: int| 0 <= k < i ==> (#[trigger] nodes[k]).label != label,
    decreases nodes.len(),
{
    if nodes.len() > 0 {
        let front = nodes.drop_last();
        lemma_label_place(front, label);
        assert forall|k: int| 0 <= k < front.len() implies front[k] == nodes[k] by {}
        if has_label(front, label) {
            let k = choose|k: int| 0 <= k < front.len() && (#[trigger] front[k]).label == label;
            assert(nodes[k].label == label);
        }
        if has_label(nodes, label) && nodes.last().label != label {
            let k = choose|k: int| 0 <= k < nodes.len() && (#[trigger] nodes[k]).label == label;
            assert(front[k].label == label);
        }
        if label_place(front, label) is None {
            assert forall|k: int| 0 <= k < nodes.len() - 1 implies (#[trigger] nodes[k]).label
                != label by {
                assert(front[k].label == nodes[k].label);
            }
            assert(nodes[nodes.len() - 1] == nodes.last());
        }
    }
}

/// The place of a label is the only node that has it, where none has it twice.
pub proof fn lemma_place_of_node(nodes: Seq<PublicNodeView>, i: int)
    requires
        0 <= i < nodes.len(),
        forall|a: int, b: int|
            0 <= a < b < nodes.len() ==> (#[trigger] nodes[a]).label != (#[trigger] nodes[b]).label,
    ensures
        label_place(nodes, nodes[i].label) == Some(i),
{
    lemma_label_place(nodes, nodes[i].label);
    assert(has_label(nodes, nodes[i].label));
    let found = label_place(nodes, nodes[i].label)->0;
    if found < i {
        assert(nodes[found].label != nodes[i].label);
    } else if i < found {
        assert(nodes[i].label != nodes[found].label);
    }
}

/// Where the first node with a label stands.
pub fn find_label(nodes: &Vec<PublicNode>, label: &str) -> (r: Option<usize>)
    ensures
        label_place(public_node_views(nodes@), label@) == (match r {
            Some(i) => Some(i as int),
            None => None,
        }),
        r matches Some(i) ==> i < nodes@.len(),
{
    let ghost all = public_node_views(nodes@);
    proof {
        lemma_label_place(all, label@);
    }
    let mut i: usize = 0;
    while i < nodes.len()
        invariant
            i <= nodes.len(),
            all == public_node_views(nodes@),
            forall|k: int| 0 <= k < i ==> (#[trigger] all[k]).label != label@,
        decreases nodes.len() - i,
    {
        assert(all[i as int] == nodes@[i as int]@);
        if text_equal(nodes[i].label.as_str(), label) {
            proof {
                lemma_label_place(all, label@);
                assert(has_label(all, label@));
                let found = label_place(all, label@)->0;
                if found < i {
                    assert(all[found].label != label@);
                } else if i < found {
                    assert(all[i as int].label != label@);
                }
            }
            return Some(i);
        }
        i += 1;
    }
    proof {
        if has_label(all, label@) {
            let k = choose|k: int| 0 <= k < all.len() && (#[trigger] all[k]).label == label@;
            assert(all[k].label != label@);
        }
    }
    None
}

/// What is wrong with the key or the threshold of a node, if anything.
pub open spec fn kind_fault(node: PublicNodeView) -> Option<Error> {
    match (node.threshold, node.encryption_fingerprint, node.encryption_public_key) {
        (Some(threshold), None, None) => if threshold > 0 {
            None
        } else {
            Some(Error::InvalidTreeSpec)
        },
        (None, Some(_), Some(key)) => if hex_bytes(key) matches Some(raw) && raw.len() == 32 {
            None
        } else {
            Some(Error::InvalidPublicKey)
        },
        _ => Some(Error::InvalidTreeSpec),
    }
}

/// What is wrong with the first `n` nodes, if anything: the first fault counts.
pub open spec fn nodes_fault(nodes: Seq<PublicNodeView>, n: int) -> Option<Error>
    decreases n,
{
    if n <= 0 {
        None
    } else {
        match nodes_fault(nodes, n - 1) {
            Some(e) => Some(e),
            None => if nodes[n - 1].label.len() == 0 || has_label(
                nodes.take(n - 1),
                nodes[n - 1].label,
            ) {
                Some(Error::DuplicateNodeLabel)
            } else {
                kind_fault(nodes[n - 1])
            },
        }
    }
}

/// How many of the first `n` nodes have no parent.
pub open spec fn root_count(nodes: Seq<PublicNodeView>, n: int) -> int
    decreases n,
{
    if n <= 0 {
        0
    } else {
        root_count(nodes, n - 1) + if nodes[n - 1].parent_label is None {
            1int
        } else {
            0int
        }
    }
}

/// Every parent that is named is a node.
pub open spec fn parents_exist(nodes: Seq<PublicNodeView>) -> bool {
    forall|i: int|
        0 <= i < nodes.len() ==> ((#[trigger] nodes[i]).parent_label matches Some(parent)
            ==> has_label(nodes, parent))
}

/// The edge joins two different nodes.
pub open spec fn joins_nodes(nodes: Seq<PublicNodeView>, edge: PublicEdgeView) -> bool {
    edge.from != edge.to && has_label(nodes, edge.from) && has_label(nodes, edge.to)
}

/// The two nodes may be paired, by permission of either.
pub open spec fn permitted(whitelist: Seq<PublicEdgeView>, edge: PublicEdgeView) -> bool {
    whitelist.contains(edge) || whitelist.contains(
        PublicEdgeView { from: edge.to, to: edge.from },
    )
}

/// Edges join different nodes, none occurs twice, and pairings are permitted.
pub open spec fn edges_sound(t: PublicTreeView) -> bool {
    &&& forall|i: int|
        0 <= i < t.whitelist.len() ==> joins_nodes(t.nodes, #[trigger] t.whitelist[i])
    &&& forall|i: int| 0 <= i < t.links.len() ==> joins_nodes(t.nodes, #[trigger] t.links[i])
    &&& t.whitelist.no_duplicates()
    &&& t.links.no_duplicates()
    &&& forall|i: int| 0 <= i < t.links.len() ==> permitted(t.whitelist, #[trigger] t.links[i])
}

/// A node without a parent stands `k` steps above.
pub open spec fn root_above(nodes: Seq<PublicNodeView>, i: int, k: nat) -> bool
    decreases k,
{
    match nodes[i].parent_label {
        None => k == 0,
        Some(parent) => k > 0 && match label_place(nodes, parent) {
            None => false,
            Some(p) => root_above(nodes, p, (k - 1) as nat),
        },
    }
}

/// Going up from a node ends at one without a parent.
pub open spec fn reaches_root(nodes: Seq<PublicNodeView>, i: int) -> bool {
    exists|k: nat| root_above(nodes, i, k)
}

/// What is wrong with a public tree, if anything.
pub open spec fn tree_fault(t: PublicTreeView) -> Option<Error> {
    if t.label.len() == 0 || t.nodes.len() == 0 {
        Some(Error::InvalidTreeSpec)
    } else if nodes_fault(t.nodes, t.nodes.len() as int) is Some {
        nodes_fault(t.nodes, t.nodes.len() as int)
    } else if root_count(t.nodes, t.nodes.len() as int) != 1 || !parents_exist(t.nodes) {
        Some(Error::InvalidTreeSpec)
    } else if !edges_sound(t) {
        Some(Error::InvalidBridge)
    } else if exists|i: int| 0 <= i < t.nodes.len() && !(#[trigger] reaches_root(t.nodes, i)) {
        Some(Error::InvalidTreeSpec)
    } else {
        None
    }
}

proof fn lemma_nodes_fault_stays(nodes: Seq<PublicNodeView>, m: int, n: int)
    requires
        0 <= m <= n <= nodes.len(),
        nodes_fault(nodes, m) is Some,
    ensures
        nodes_fault(nodes, n) == nodes_fault(nodes, m),
    decreases n - m,
{
    if m < n {
        lemma_nodes_fault_stays(nodes, m, n - 1);
    }
}

/// In nodes without a fault, every label stands once.
pub proof fn labels_stand_once(nodes: Seq<PublicNodeView>, i: int, j: int)
    requires
        nodes_fault(nodes, nodes.len() as int) is None,
        0 <= i < j < nodes.len(),
    ensures
        nodes[i].label != nodes[j].label,
{
    if nodes_fault(nodes, j + 1) is Some {
        lemma_nodes_fault_stays(nodes, j + 1, nodes.len() as int);
    }
    assert(nodes_fault(nodes, j + 1) is None);
    if nodes[i].label == nodes[j].label {
        assert(nodes.take(j)[i].label == nodes[j].label);
        assert(has_label(nodes.take(j), nodes[j].label));
    }
}

fn node_kind_fault(node: &PublicNode) -> (r: Option<Error>)
    ensures
        r == kind_fault(node@),
{
    match (&node.threshold, &node.encryption_fingerprint, &node.encryption_public_key) {
        (Some(threshold), None, None) => if *threshold > 0 {
            None
        } else {
            Some(Error::InvalidTreeSpec)
        },
        (None, Some(_), Some(key)) => match hex_decode(key.as_str()) {
            Some(raw) => if raw.len() == 32 {
                None
            } else {
                Some(Error::InvalidPublicKey)
            },
            None => Some(Error::InvalidPublicKey),
        },
        _ => Some(Error::InvalidTreeSpec),
    }
}

fn check_nodes(nodes: &Vec<PublicNode>) -> (r: Result<(), Error>)
    ensures
        fault_of(r) == nodes_fault(public_node_views(nodes@), nodes@.len() as int),
{
    let ghost all = public_node_views(nodes@);
    let mut labels: Vec<String> = Vec::new();
    let mut i: usize = 0;
    while i < nodes.len()
        invariant
            i <= nodes.len(),
            all == public_node_views(nodes@),
            nodes_fault(all, i as int) is None,
            labels@.len() == i,
            forall|k: int| 0 <= k < i ==> (#[trigger] labels@[k])@ == all[k].label,
        decreases nodes.len() - i,
    {
        assert(all[i as int] == nodes@[i as int]@);
        let node = &nodes[i];
        let known = contains_text(&labels, node.label.as_str());
        proof {
            let front = all.take(i as int);
            let seen = text_views(labels@);
            if known {
                let k = choose|k: int| 0 <= k < seen.len() && seen[k] == node.label@;
                assert(front[k].label == node.label@);
            }
            if has_label(front, node.label@) {
                let k = choose|k: int|
                    0 <= k < front.len() && (#[trigger] front[k]).label == node.label@;
                assert(seen[k] == node.label@);
                assert(seen.contains(node.label@));
            }
        }
        if node.label.as_str().is_empty() || known {
            proof {
                lemma_nodes_fault_stays(all, i + 1, all.len() as int);
            }
            return Err(Error::DuplicateNodeLabel);
        }
        match node_kind_fault(node) {
            Some(e) => {
                proof {
                    lemma_nodes_fault_stays(all, i + 1, all.len() as int);
                }
                return Err(e);
            },
            None => {},
        }
        labels.push(node.label.as_str().to_owned());
        i += 1;
    }
    Ok(())
}

fn count_roots(nodes: &Vec<PublicNode>) -> (r: usize)
    ensures
        r == root_count(public_node_views(nodes@), nodes@.len() as int),
{
    let ghost all = public_node_views(nodes@);
    let mut roots: usize = 0;
    let mut i: usize = 0;
    while i < nodes.len()
        invariant
            i <= nodes.len(),
            all == public_node_views(nodes@),
            roots == root_count(all, i as int),
            roots <= i,
        decreases nodes.len() - i,
    {
        assert(all[i as int] == nodes@[i as int]@);
        if nodes[i].parent_label.is_none() {
            roots += 1;
        }
        i += 1;
    }
    roots
}

fn all_parents_exist(nodes: &Vec<PublicNode>) -> (r: bool)
    ensures
        r == parents_exist(public_node_views(nodes@)),
{
    let ghost all = public_node_views(nodes@);
    let mut i: usize = 0;
    while i < nodes.len()
        invariant
            i <= nodes.len(),
            all == public_node_views(nodes@),
            forall|k: int|
                0 <= k < i ==> ((#[trigger] all[k]).parent_label matches Some(parent) ==> has_label(
                    all,
                    parent,
                )),
        decreases nodes.len() - i,
    {
        assert(all[i as int] == nodes@[i as int]@);
        if let Some(parent) = &nodes[i].parent_label {
            let found = find_label(nodes, parent.as_str());
            proof {
                lemma_label_place(all, parent@);
            }
            if found.is_none() {
                return false;
            }
        }
        i += 1;
    }
    true
}

/// Whether an edge is among others.
pub fn contains_edge(edges: &Vec<PublicEdge>, from: &str, to: &str) -> (r: bool)
    ensures
        r == edge_views(edges@).contains(PublicEdgeView { from: from@, to: to@ }),
{
    let ghost all = edge_views(edges@);
    let ghost wanted = PublicEdgeView { from: from@, to: to@ };
    let mut i: usize = 0;
    while i < edges.len()
        invariant
            i <= edges.len(),
            all == edge_views(edges@),
            wanted == (PublicEdgeView { from: from@, to: to@ }),
            forall|k: int| 0 <= k < i ==> #[trigger] all[k] != wanted,
        decreases edges.len() - i,
    {
        assert(all[i as int] == edges@[i as int]@);
        if text_equal(edges[i].from.as_str(), from) && text_equal(edges[i].to.as_str(), to) {
            assert(all[i as int] == wanted);
            return true;
        }
        i += 1;
    }
    false
}

fn all_join_nodes(nodes: &Vec<PublicNode>, edges: &Vec<PublicEdge>) -> (r: bool)
    ensures
        r == forall|i: int|
            0 <= i < edges@.len() ==> joins_nodes(
                public_node_views(nodes@),
                #[trigger] edge_views(edges@)[i],
            ),
{
    let ghost all = public_node_views(nodes@);
    let ghost joined = edge_views(edges@);
    let mut i: usize = 0;
    while i < edges.len()
        invariant
            i <= edges.len(),
            all == public_node_views(nodes@),
            joined == edge_views(edges@),
            forall|k: int| 0 <= k < i ==> joins_nodes(all, #[trigger] joined[k]),
        decreases edges.len() - i,
    {
        let edge = &edges[i];
        assert(joined[i as int] == edge@);
        let same = text_equal(edge.from.as_str(), edge.to.as_str());
        let from = find_label(nodes, edge.from.as_str());
        let to = find_label(nodes, edge.to.as_str());
        proof {
            lemma_label_place(all, edge.from@);
            lemma_label_place(all, edge.to@);
        }
        if same || from.is_none() || to.is_none() {
            assert(!joins_nodes(all, joined[i as int]));
            return false;
        }
        i += 1;
    }
    true
}

fn no_edge_twice(edges: &Vec<PublicEdge>) -> (r: bool)
    ensures
        r == edge_views(edges@).no_duplicates(),
{
    let ghost all = edge_views(edges@);
    let mut seen: Vec<PublicEdge> = Vec::new();
    let mut i: usize = 0;
    assert(edge_views(seen@) =~= all.take(0));
    while i < edges.len()
        invariant
            i <= edges.len(),
            all == edge_views(edges@),
            edge_views(seen@) == all.take(i as int),
            all.take(i as int).no_duplicates(),
        decreases edges.len() - i,
    {
        let edge = &edges[i];
        assert(all[i as int] == edge@);
        assert(edge@ == (PublicEdgeView { from: edge.from@, to: edge.to@ }));
        if contains_edge(&seen, edge.from.as_str(), edge.to.as_str()) {
            proof {
                let k = choose|k: int| 0 <= k < i && all.take(i as int)[k] == edge@;
                assert(all[k] == all[i as int]);
            }
            return false;
        }
        proof {
            lemma_push_no_duplicates(all.take(i as int), edge@);
            assert(all.take(i + 1) =~= all.take(i as int).push(edge@));
        }
        seen.push(copy_edge(edge));
        assert(edge_views(seen@) =~= all.take(i + 1));
        i += 1;
    }
    assert(all.take(i as int) =~= all);
    true
}

fn all_permitted(whitelist: &Vec<PublicEdge>, links: &Vec<PublicEdge>) -> (r: bool)
    ensures
        r == forall|i: int|
            0 <= i < links@.len() ==> permitted(
                edge_views(whitelist@),
                #[trigger] edge_views(links@)[i],
            ),
{
    let ghost allowed = edge_views(whitelist@);
    let ghost linked = edge_views(links@);
    let mut i: usize = 0;
    while i < links.len()
        invariant
            i <= links.len(),
            allowed == edge_views(whitelist@),
            linked == edge_views(links@),
            forall|k: int| 0 <= k < i ==> permitted(allowed, #[trigger] linked[k]),
        decreases links.len() - i,
    {
        let edge = &links[i];
        assert(linked[i as int] == edge@);
        assert(edge@ == (PublicEdgeView { from: edge.from@, to: edge.to@ }));
        let forth = contains_edge(whitelist, edge.from.as_str(), edge.to.as_str());
        let back = contains_edge(whitelist, edge.to.as_str(), edge.from.as_str());
        if !forth && !back {
            assert(!permitted(allowed, linked[i as int]));
            return false;
        }
        i += 1;
    }
    true
}

/// A root above a node is so many steps above it and no other number.
proof fn lemma_height_is_one(nodes: Seq<PublicNodeView>, i: int, a: nat, b: nat)
    requires
        root_above(nodes, i, a),
        root_above(nodes, i, b),
    ensures
        a == b,
    decreases a,
{
    match nodes[i].parent_label {
        None => {},
        Some(parent) => match label_place(nodes, parent) {
            None => {},
            Some(p) => lemma_height_is_one(nodes, p, (a - 1) as nat, (b - 1) as nat),
        },
    }
}

/// The places on the way up from a node, none of them without a parent.
spec fn climbs(nodes: Seq<PublicNodeView>, start: int, path: Seq<int>) -> bool {
    &&& path.len() > 0
    &&& path[0] == start
    &&& forall|k: int| 0 <= k < path.len() ==> 0 <= #[trigger] path[k] < nodes.len()
    &&& forall|k: int|
        0 <= k < path.len() - 1 ==> (nodes[#[trigger] path[k]].parent_label matches Some(parent)
            && label_place(nodes, parent) == Some(path[k + 1]))
}

proof fn lemma_climbed(nodes: Seq<PublicNodeView>, start: int, path: Seq<int>, m: int, h: nat)
    requires
        climbs(nodes, start, path),
        0 <= m < path.len(),
        root_above(nodes, start, h),
    ensures
        h >= m,
        root_above(nodes, path[m], (h - m) as nat),
    decreases m,
{
    if m > 0 {
        lemma_climbed(nodes, start, path, m - 1, h);
        assert(nodes[path[m - 1]].parent_label is Some);
    }
}

proof fn lemma_root_below(nodes: Seq<PublicNodeView>, start: int, path: Seq<int>, m: int, h: nat)
    requires
        climbs(nodes, start, path),
        0 <= m < path.len(),
        root_above(nodes, path[m], h),
    ensures
        root_above(nodes, start, (h + m) as nat),
    decreases m,
{
    if m > 0 {
        assert(nodes[path[m - 1]].parent_label is Some);
        assert(root_above(nodes, path[m - 1], (h + 1) as nat));
        lemma_root_below(nodes, start, path, m - 1, (h + 1) as nat);
    }
}

/// Where a node comes again on the way up, no root is above.
proof fn lemma_circle_has_no_root(
    nodes: Seq<PublicNodeView>,
    start: int,
    path: Seq<int>,
    k: int,
)
    requires
        climbs(nodes, start, path),
        0 <= k < path.len() - 1,
        path[k] == path.last(),
    ensures
        !reaches_root(nodes, start),
{
    if reaches_root(nodes, start) {
        let h = choose|h: nat| root_above(nodes, start, h);
        let last = path.len() - 1;
        lemma_climbed(nodes, start, path, k, h);
        lemma_climbed(nodes, start, path, last, h);
        lemma_height_is_one(nodes, path[k], (h - k) as nat, (h - last) as nat);
    }
}

/// Whether going up from a node ends at one without a parent. A node that comes
/// again means that it does not.
pub fn climbs_to_root(nodes: &Vec<PublicNode>, start: usize) -> (r: bool)
    requires
        start < nodes@.len(),
    ensures
        r == reaches_root(public_node_views(nodes@), start as int),
{
    let ghost all = public_node_views(nodes@);
    let mut visited: Vec<usize> = Vec::new();
    visited.push(start);
    let ghost mut path: Seq<int> = seq![start as int];
    let mut at: usize = start;
    loop
        invariant
            all == public_node_views(nodes@),
            start < nodes@.len(),
            at < nodes@.len(),
            climbs(all, start as int, path),
            path.no_duplicates(),
            path.last() == at,
            visited@.len() == path.len(),
            forall|k: int| 0 <= k < path.len() ==> visited@[k] as int == #[trigger] path[k],
        decreases nodes@.len() - path.len(),
    {
        assert(all[at as int] == nodes@[at as int]@);
        match &nodes[at].parent_label {
            None => {
                proof {
                    assert(root_above(all, at as int, 0));
                    lemma_root_below(all, start as int, path, path.len() - 1, 0);
                }
                return true;
            },
            Some(parent) => {
                match find_label(nodes, parent.as_str()) {
                    None => {
                        proof {
                            if reaches_root(all, start as int) {
                                let h = choose|h: nat| root_above(all, start as int, h);
                                lemma_climbed(all, start as int, path, path.len() - 1, h);
                            }
                        }
                        return false;
                    },
                    Some(p) => {
                        let ghost longer = path.push(p as int);
                        proof {
                            assert forall|k: int| 0 <= k < longer.len() implies 0
                                <= #[trigger] longer[k] < all.len() by {
                                if k < path.len() {
                                    assert(longer[k] == path[k]);
                                }
                            }
                            assert forall|k: int| 0 <= k < longer.len() - 1 implies (
                            all[#[trigger] longer[k]].parent_label matches Some(parent)
                                && label_place(all, parent) == Some(longer[k + 1])) by {
                                assert(longer[k] == path[k]);
                                if k < path.len() - 1 {
                                    assert(longer[k + 1] == path[k + 1]);
                                }
                            }
                            assert(climbs(all, start as int, longer));
                        }
                        if let Some(k) = place_among(&visited, p) {
                            proof {
                                assert(path[k as int] == p);
                                lemma_circle_has_no_root(all, start as int, longer, k as int);
                            }
                            return false;
                        }
                        proof {
                            assert(!path.contains(p as int)) by {
                                if path.contains(p as int) {
                                    let m = choose|m: int| 0 <= m < path.len() && path[m] == p;
                                    assert(visited@[m] as int == path[m]);
                                    assert(visited@.contains(p));
                                }
                            }
                            lemma_push_no_duplicates(path, p as int);
                            lemma_distinct_bounded(longer, all.len() as int);
                            path = longer;
                        }
                        visited.push(p);
                        at = p;
                    },
                }
            },
        }
    }
}

/// Checks a public tree: its labels are unique, each node is a split or a leaf
/// with a key, there is one root and every node hangs below it, and its edges
/// are sound.
pub fn validate_public_tree(tree: &PublicTree) -> (r: Result<(), Error>)
    ensures
        fault_of(r) == tree_fault(tree@),
{
    if tree.label.as_str().is_empty() || tree.nodes.len() == 0 {
        return Err(Error::InvalidTreeSpec);
    }
    match check_nodes(&tree.nodes) {
        Ok(()) => {},
        Err(e) => {
            return Err(e);
        },
    }
    if count_roots(&tree.nodes) != 1 || !all_parents_exist(&tree.nodes) {
        return Err(Error::InvalidTreeSpec);
    }
    let joined = all_join_nodes(&tree.nodes, &tree.whitelist) && all_join_nodes(
        &tree.nodes,
        &tree.links,
    );
    let once = no_edge_twice(&tree.whitelist) && no_edge_twice(&tree.links);
    let listed = all_permitted(&tree.whitelist, &tree.links);
    if !joined || !once || !listed {
        return Err(Error::InvalidBridge);
    }
    let mut i: usize = 0;
    while i < tree.nodes.len()
        invariant
            i <= tree.nodes.len(),
            tree@.label.len() > 0,
            tree@.nodes.len() > 0,
            nodes_fault(tree@.nodes, tree@.nodes.len() as int) is None,
            root_count(tree@.nodes, tree@.nodes.len() as int) == 1,
            parents_exist(tree@.nodes),
            edges_sound(tree@),
            forall|k: int| 0 <= k < i ==> #[trigger] reaches_root(tree@.nodes, k),
        decreases tree.nodes.len() - i,
    {
        if !climbs_to_root(&tree.nodes, i) {
            assert(!reaches_root(tree@.nodes, i as int));
            return Err(Error::InvalidTreeSpec);
        }
        i += 1;
    }
    Ok(())
}

/// Places of which each names the next as its parent.
pub open spec fn parent_chain(nodes: Seq<PublicNodeView>, path: Seq<int>) -> bool {
    &&& path.len() > 0
    &&& forall|k: int| 0 <= k < path.len() ==> 0 <= #[trigger] path[k] < nodes.len()
    &&& forall|k: int|
        #![trigger path[k]]
        0 <= k < path.len() - 1 ==> nodes[path[k]].parent_label == Some(nodes[path[k + 1]].label)
}

/// No two nodes have the same label.
pub open spec fn labels_differ(nodes: Seq<PublicNodeView>) -> bool {
    forall|a: int, b: int|
        0 <= a < b < nodes.len() ==> (#[trigger] nodes[a]).label != (#[trigger] nodes[b]).label
}

/// A chain of parents leads from a place to one without a parent.
pub open spec fn chain_to_root(nodes: Seq<PublicNodeView>, i: int, path: Seq<int>) -> bool {
    parent_chain(nodes, path) && path[0] == i && nodes[path.last()].parent_label is None
}

/// Whoever has a chain of parents up to a node without one reaches the root.
pub proof fn chain_reaches_root(nodes: Seq<PublicNodeView>, i: int, path: Seq<int>)
    requires
        labels_differ(nodes),
        chain_to_root(nodes, i, path),
    ensures
        reaches_root(nodes, i),
    decreases path.len(),
{
    if path.len() == 1 {
        assert(root_above(nodes, i, 0));
    } else {
        let rest = path.skip(1);
        assert forall|k: int| 0 <= k < rest.len() implies 0 <= #[trigger] rest[k] < nodes.len() by {
            assert(rest[k] == path[k + 1]);
        }
        assert forall|k: int|
            #![trigger rest[k]]
            0 <= k < rest.len() - 1 implies nodes[rest[k]].parent_label == Some(
            nodes[rest[k + 1]].label,
        ) by {
            assert(rest[k] == path[k + 1]);
            assert(rest[k + 1] == path[k + 2]);
        }
        assert(rest[0] == path[1]);
        assert(rest.last() == path.last());
        assert(path[0] == i);
        chain_reaches_root(nodes, path[1], rest);
        lemma_place_of_node(nodes, path[1]);
        let k = choose|k: nat| root_above(nodes, path[1], k);
        assert(root_above(nodes, i, k + 1));
    }
}

/// Whoever reaches the root has a chain of parents up to a node without one.
pub proof fn root_is_reached_by_chain(nodes: Seq<PublicNodeView>, i: int)
    requires
        0 <= i < nodes.len(),
        reaches_root(nodes, i),
    ensures
        exists|path: Seq<int>| chain_to_root(nodes, i, path),
{
    let k = choose|k: nat| root_above(nodes, i, k);
    lemma_chain_of(nodes, i, k);
}

proof fn lemma_chain_of(nodes: Seq<PublicNodeView>, i: int, k: nat)
    requires
        0 <= i < nodes.len(),
        root_above(nodes, i, k),
    ensures
        exists|path: Seq<int>| chain_to_root(nodes, i, path),
    decreases k,
{
    match nodes[i].parent_label {
        None => {
            assert(chain_to_root(nodes, i, seq![i]));
        },
        Some(parent) => {
            let p = label_place(nodes, parent)->0;
            lemma_label_place(nodes, parent);
            lemma_chain_of(nodes, p, (k - 1) as nat);
            let rest = choose|rest: Seq<int>| chain_to_root(nodes, p, rest);
            let path = seq![i] + rest;
            assert forall|k: int|
                0 <= k < path.len() implies 0 <= #[trigger] path[k] < nodes.len() by {
                if k > 0 {
                    assert(path[k] == rest[k - 1]);
                }
            }
            assert forall|k: int|
                #![trigger path[k]]
                0 <= k < path.len() - 1 implies nodes[path[k]].parent_label == Some(
                nodes[path[k + 1]].label,
            ) by {
                assert(path[k + 1] == rest[k]);
                if k > 0 {
                    assert(path[k] == rest[k - 1]);
                }
            }
            assert(path.last() == rest.last());
            assert(chain_to_root(nodes, i, path));
        },
    }
}

/// A split has a threshold and no key. A leaf has a fingerprint and a key of 32 bytes in
/// hex, and no threshold.
pub open spec fn is_split_or_leaf(node: PublicNodeView) -> bool {
    ||| node.threshold is Some && node.threshold->0 >= 1 && node.encryption_fingerprint is None
        && node.encryption_public_key is None
    ||| node.threshold is None && node.encryption_fingerprint is Some
        && node.encryption_public_key is Some && hex_bytes(node.encryption_public_key->0) is Some
        && hex_bytes(node.encryption_public_key->0)->0.len() == 32
}

/// An edge between two different nodes.
pub open spec fn edge_between(nodes: Seq<PublicNodeView>, edge: PublicEdgeView) -> bool {
    exists|a: int, b: int|
        0 <= a < nodes.len() && 0 <= b < nodes.len() && (#[trigger] nodes[a]).label == edge.from && (
        #[trigger] nodes[b]).label == edge.to && edge.from != edge.to
}

/// Every node but one hangs below another.
pub open spec fn only_root(nodes: Seq<PublicNodeView>, root: int) -> bool {
    &&& 0 <= root < nodes.len()
    &&& nodes[root].parent_label is None
    &&& forall|i: int|
        0 <= i < nodes.len() && i != root ==> (#[trigger] nodes[i]).parent_label is Some
}

/// Some node has the label that another names as its parent.
pub open spec fn hangs_below_a_node(nodes: Seq<PublicNodeView>, i: int) -> bool {
    nodes[i].parent_label is Some ==> exists|p: int|
        0 <= p < nodes.len() && Some((#[trigger] nodes[p]).label) == nodes[i].parent_label
}

proof fn lemma_root_count(nodes: Seq<PublicNodeView>, n: int)
    requires
        0 <= n <= nodes.len(),
    ensures
        root_count(nodes, n) >= 0,
        root_count(nodes, n) == 0 <==> forall|i: int|
            0 <= i < n ==> (#[trigger] nodes[i]).parent_label is Some,
        root_count(nodes, n) == 1 <==> only_root_of(nodes, n),
    decreases n,
{
    if n > 0 {
        lemma_root_count(nodes, n - 1);
        if nodes[n - 1].parent_label is None {
            if root_count(nodes, n - 1) == 0 {
                assert(is_only_root(nodes, n, n - 1));
            } else {
                let i = choose|i: int| 0 <= i < n - 1 && (#[trigger] nodes[i]).parent_label is None;
                if only_root_of(nodes, n) {
                    let r = choose|r: int| is_only_root(nodes, n, r);
                    assert(nodes[i].parent_label is None && nodes[n - 1].parent_label is None);
                }
            }
        } else {
            let m = n - 1;
            if only_root_of(nodes, m) {
                let r = choose|r: int| is_only_root(nodes, m, r);
                assert(is_only_root(nodes, n, r));
            }
            if only_root_of(nodes, n) {
                let r = choose|r: int| is_only_root(nodes, n, r);
                assert(is_only_root(nodes, n - 1, r));
            }
        }
    } else {
        assert(!only_root_of(nodes, 0));
    }
}

spec fn is_only_root(nodes: Seq<PublicNodeView>, n: int, r: int) -> bool {
    &&& 0 <= r < n
    &&& nodes[r].parent_label is None
    &&& forall|i: int| 0 <= i < n && i != r ==> (#[trigger] nodes[i]).parent_label is Some
}

spec fn only_root_of(nodes: Seq<PublicNodeView>, n: int) -> bool {
    exists|r: int| is_only_root(nodes, n, r)
}

proof fn lemma_nodes_fault(nodes: Seq<PublicNodeView>, n: int)
    requires
        0 <= n <= nodes.len(),
    ensures
        nodes_fault(nodes, n) is None <==> {
            &&& forall|i: int|
                0 <= i < n ==> (#[trigger] nodes[i]).label.len() > 0 && is_split_or_leaf(nodes[i])
            &&& forall|a: int, b: int|
                0 <= a < b < n ==> (#[trigger] nodes[a]).label != (#[trigger] nodes[b]).label
        },
    decreases n,
{
    if n > 0 {
        lemma_nodes_fault(nodes, n - 1);
        let before = nodes.take(n - 1);
        let last = nodes[n - 1];
        assert forall|i: int| 0 <= i < n - 1 implies (#[trigger] nodes[i]) == before[i] by {}
        assert(kind_fault(last) is None <==> is_split_or_leaf(last));
        if has_label(before, last.label) {
            let i = choose|i: int|
                0 <= i < before.len() && (#[trigger] before[i]).label == last.label;
            assert(nodes[i].label == nodes[n - 1].label);
        }
        if exists|a: int|
            0 <= a < n - 1 && (#[trigger] nodes[a]).label == last.label {
            let a = choose|a: int| 0 <= a < n - 1 && (#[trigger] nodes[a]).label == last.label;
            assert(before[a].label == last.label);
        }
    }
}

/// A public tree passes exactly where it has a label and nodes, every node has a label of
/// its own and is a split or a leaf, there is one root, every parent that is named is there
/// and a chain of parents leads from every node to the root, every edge joins two different
/// nodes, none stands twice, and whoever is paired has a permission in one direction.
pub proof fn sound_trees_pass(t: PublicTreeView)
    ensures
        tree_fault(t) is None <==> {
            &&& t.label.len() > 0
            &&& forall|i: int|
                0 <= i < t.nodes.len() ==> (#[trigger] t.nodes[i]).label.len() > 0
                    && is_split_or_leaf(t.nodes[i])
            &&& labels_differ(t.nodes)
            &&& exists|root: int| only_root(t.nodes, root)
            &&& forall|i: int|
                0 <= i < t.nodes.len() ==> #[trigger] hangs_below_a_node(t.nodes, i)
            &&& forall|i: int|
                0 <= i < t.whitelist.len() ==> edge_between(t.nodes, #[trigger] t.whitelist[i])
            &&& forall|i: int|
                0 <= i < t.links.len() ==> edge_between(t.nodes, #[trigger] t.links[i])
            &&& forall|a: int, b: int|
                0 <= a < b < t.whitelist.len() ==> #[trigger] t.whitelist[a]
                    != #[trigger] t.whitelist[b]
            &&& forall|a: int, b: int|
                0 <= a < b < t.links.len() ==> #[trigger] t.links[a] != #[trigger] t.links[b]
            &&& forall|i: int|
                0 <= i < t.links.len() ==> #[trigger] is_allowed(t.whitelist, t.links[i])
            &&& forall|i: int|
                0 <= i < t.nodes.len() ==> #[trigger] has_chain_to_root(t.nodes, i)
        },
{
    let n = t.nodes.len() as int;
    lemma_nodes_fault(t.nodes, n);
    lemma_root_count(t.nodes, n);
    if nodes_fault(t.nodes, n) is None {
        assert(labels_differ(t.nodes));
        assert(only_root_of(t.nodes, n) <==> exists|root: int| only_root(t.nodes, root)) by {
            if only_root_of(t.nodes, n) {
                let r = choose|r: int| is_only_root(t.nodes, n, r);
                assert(only_root(t.nodes, r));
            }
            if exists|root: int| only_root(t.nodes, root) {
                let r = choose|root: int| only_root(t.nodes, root);
                assert(is_only_root(t.nodes, n, r));
            }
        }
        assert forall|i: int| 0 <= i < n implies (#[trigger] reaches_root(t.nodes, i)
            <==> has_chain_to_root(t.nodes, i)) by {
            if reaches_root(t.nodes, i) {
                root_is_reached_by_chain(t.nodes, i);
            }
            if has_chain_to_root(t.nodes, i) {
                let path = choose|path: Seq<int>| chain_to_root(t.nodes, i, path);
                chain_reaches_root(t.nodes, i, path);
            }
        }
        assert(parents_exist(t.nodes) <==> forall|i: int|
            0 <= i < t.nodes.len() ==> #[trigger] hangs_below_a_node(t.nodes, i)) by {
            if parents_exist(t.nodes) {
                assert forall|i: int| 0 <= i < t.nodes.len() implies #[trigger] hangs_below_a_node(
                    t.nodes,
                    i,
                ) by {
                    assert(t.nodes[i].parent_label matches Some(parent) ==> has_label(
                        t.nodes,
                        parent,
                    ));
                }
            }
            if forall|i: int| 0 <= i < t.nodes.len() ==> #[trigger] hangs_below_a_node(t.nodes, i) {
                assert forall|i: int| 0 <= i < t.nodes.len() implies ((
                #[trigger] t.nodes[i]).parent_label matches Some(parent) ==> has_label(
                    t.nodes,
                    parent,
                )) by {
                    assert(hangs_below_a_node(t.nodes, i));
                }
            }
        }
        lemma_edges_sound(t);
        if forall|i: int| 0 <= i < n ==> #[trigger] has_chain_to_root(t.nodes, i) {
            assert forall|i: int| 0 <= i < n implies #[trigger] reaches_root(t.nodes, i) by {
                assert(has_chain_to_root(t.nodes, i));
            }
        }
        if forall|i: int| 0 <= i < n ==> #[trigger] reaches_root(t.nodes, i) {
            assert forall|i: int| 0 <= i < n implies #[trigger] has_chain_to_root(t.nodes, i) by {
                assert(reaches_root(t.nodes, i));
            }
        }
    }
}

/// A chain of parents leads from the place to a node without one.
pub open spec fn has_chain_to_root(nodes: Seq<PublicNodeView>, i: int) -> bool {
    exists|path: Seq<int>| chain_to_root(nodes, i, path)
}

/// One of the two that an edge pairs permits the other.
pub open spec fn is_allowed(whitelist: Seq<PublicEdgeView>, edge: PublicEdgeView) -> bool {
    exists|w: int|
        0 <= w < whitelist.len() && ((#[trigger] whitelist[w]).from == edge.from && whitelist[w].to
            == edge.to || whitelist[w].from == edge.to && whitelist[w].to == edge.from)
}

proof fn lemma_edge_between(nodes: Seq<PublicNodeView>, edge: PublicEdgeView)
    ensures
        edge_between(nodes, edge) <==> joins_nodes(nodes, edge),
{
    if joins_nodes(nodes, edge) {
        let a = choose|a: int| 0 <= a < nodes.len() && (#[trigger] nodes[a]).label == edge.from;
        let b = choose|b: int| 0 <= b < nodes.len() && (#[trigger] nodes[b]).label == edge.to;
        assert(nodes[a].label == edge.from && nodes[b].label == edge.to);
    }
}

proof fn lemma_is_allowed(whitelist: Seq<PublicEdgeView>, edge: PublicEdgeView)
    ensures
        is_allowed(whitelist, edge) <==> permitted(whitelist, edge),
{
    let back = PublicEdgeView { from: edge.to, to: edge.from };
    if is_allowed(whitelist, edge) {
        let w = choose|w: int|
            0 <= w < whitelist.len() && ((#[trigger] whitelist[w]).from == edge.from
                && whitelist[w].to == edge.to || whitelist[w].from == edge.to && whitelist[w].to
                == edge.from);
        assert(whitelist[w] == edge || whitelist[w] == back);
    }
    if whitelist.contains(edge) {
        let w = choose|w: int| 0 <= w < whitelist.len() && whitelist[w] == edge;
        assert(whitelist[w].from == edge.from);
    }
    if whitelist.contains(back) {
        let w = choose|w: int| 0 <= w < whitelist.len() && whitelist[w] == back;
        assert(whitelist[w].from == edge.to);
    }
}

proof fn lemma_edges_sound(t: PublicTreeView)
    ensures
        edges_sound(t) <==> {
            &&& forall|i: int|
                0 <= i < t.whitelist.len() ==> edge_between(t.nodes, #[trigger] t.whitelist[i])
            &&& forall|i: int|
                0 <= i < t.links.len() ==> edge_between(t.nodes, #[trigger] t.links[i])
            &&& forall|a: int, b: int|
                0 <= a < b < t.whitelist.len() ==> #[trigger] t.whitelist[a]
                    != #[trigger] t.whitelist[b]
            &&& forall|a: int, b: int|
                0 <= a < b < t.links.len() ==> #[trigger] t.links[a] != #[trigger] t.links[b]
            &&& forall|i: int|
                0 <= i < t.links.len() ==> #[trigger] is_allowed(t.whitelist, t.links[i])
        },
{
    assert forall|i: int| 0 <= i < t.whitelist.len() implies (edge_between(
        t.nodes,
        #[trigger] t.whitelist[i],
    ) <==> joins_nodes(t.nodes, t.whitelist[i])) by {
        lemma_edge_between(t.nodes, t.whitelist[i]);
    }
    assert forall|i: int| 0 <= i < t.links.len() implies (edge_between(
        t.nodes,
        #[trigger] t.links[i],
    ) <==> joins_nodes(t.nodes, t.links[i])) && (is_allowed(t.whitelist, t.links[i])
        <==> permitted(t.whitelist, t.links[i])) by {
        lemma_edge_between(t.nodes, t.links[i]);
        lemma_is_allowed(t.whitelist, t.links[i]);
    }
    if edges_sound(t) {
        assert forall|i: int| 0 <= i < t.links.len() implies #[trigger] is_allowed(
            t.whitelist,
            t.links[i],
        ) by {
            assert(permitted(t.whitelist, t.links[i]));
        }
    }
    if forall|i: int| 0 <= i < t.links.len() ==> #[trigger] is_allowed(t.whitelist, t.links[i]) {
        assert forall|i: int| 0 <= i < t.links.len() implies permitted(
            t.whitelist,
            #[trigger] t.links[i],
        ) by {
            assert(is_allowed(t.whitelist, t.links[i]));
        }
    }
}

/// The first node with a fault decides what the tree is refused for.
pub proof fn first_faulty_public_node_decides(t: PublicTreeView, i: int)
    requires
        t.label.len() > 0,
        0 <= i < t.nodes.len(),
        forall|k: int|
            0 <= k < i ==> (#[trigger] t.nodes[k]).label.len() > 0 && is_split_or_leaf(t.nodes[k]),
        forall|a: int, b: int|
            0 <= a < b < i ==> (#[trigger] t.nodes[a]).label != (#[trigger] t.nodes[b]).label,
    ensures
        t.nodes[i].label.len() == 0 ==> tree_fault(t) == Some(Error::DuplicateNodeLabel),
        (exists|k: int| 0 <= k < i && (#[trigger] t.nodes[k]).label == t.nodes[i].label)
            ==> tree_fault(t) == Some(Error::DuplicateNodeLabel),
        t.nodes[i].label.len() > 0 && !is_split_or_leaf(t.nodes[i]) && (forall|k: int|
            0 <= k < i ==> (#[trigger] t.nodes[k]).label != t.nodes[i].label) ==> tree_fault(t)
            == Some(
            if t.nodes[i].threshold is None && t.nodes[i].encryption_fingerprint is Some
                && t.nodes[i].encryption_public_key is Some {
                Error::InvalidPublicKey
            } else {
                Error::InvalidTreeSpec
            },
        ),
{
    lemma_nodes_fault(t.nodes, i);
    let before = t.nodes.take(i);
    if exists|k: int| 0 <= k < i && (#[trigger] t.nodes[k]).label == t.nodes[i].label {
        let k = choose|k: int| 0 <= k < i && (#[trigger] t.nodes[k]).label == t.nodes[i].label;
        assert(before[k].label == t.nodes[i].label);
    }
    if has_label(before, t.nodes[i].label) {
        let k = choose|k: int|
            0 <= k < before.len() && (#[trigger] before[k]).label == t.nodes[i].label;
        assert(t.nodes[k].label == t.nodes[i].label);
    }
    if nodes_fault(t.nodes, i + 1) is Some {
        lemma_fault_stays(t.nodes, i + 1, t.nodes.len() as int);
    }
}

proof fn lemma_fault_stays(nodes: Seq<PublicNodeView>, m: int, n: int)
    requires
        0 <= m <= n,
        nodes_fault(nodes, m) is Some,
    ensures
        nodes_fault(nodes, n) == nodes_fault(nodes, m),
    decreases n - m,
{
    if m < n {
        lemma_fault_stays(nodes, m, n - 1);
    }
}

} // verus!
