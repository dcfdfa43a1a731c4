//! The published trees: one document for each label.
//!
//! A document holds the full public side of a tree. Those who ask are given the
//! part that their key lets them see.

use vstd::prelude::*;

use crate::error::{fault_of, Error};
use crate::relay::public_tree::{
    contains_edge, copy_edge, copy_edges, copy_node, copy_nodes, copy_tree, edge_views, find_label,
    has_label, lemma_label_place, public_node_views, tree_fault, validate_public_tree, PublicEdge,
    PublicEdgeView, PublicNode, PublicNodeView, PublicTree, PublicTreeView,
};
use crate::relay::visibility::{slice_for_fingerprint, slice_of};
use crate::text::{is_text_le, lemma_insert_ascends, text_equal, text_le, texts_ascend};

verus! {

/// A published tree and how often it was published.
#[derive(Debug)]
pub struct TreeDoc {
    pub generation: i64,
    pub document: PublicTree,
}

#[verifier::ext_equal]
pub struct TreeDocView {
    pub generation: i64,
    pub document: PublicTreeView,
}

impl View for TreeDoc {
    type V = TreeDocView;

    open spec fn view(&self) -> TreeDocView {
        TreeDocView { generation: self.generation, document: self.document@ }
    }
}

/// The published trees, in the order of their labels.
#[derive(Debug)]
pub struct OrgTrees {
    pub docs: Vec<TreeDoc>,
}

impl View for OrgTrees {
    type V = Seq<TreeDocView>;

    open spec fn view(&self) -> Seq<TreeDocView> {
        Seq::new(self.docs@.len(), |i: int| self.docs@[i]@)
    }
}

/// The labels of documents.
pub open spec fn doc_labels(docs: Seq<TreeDocView>) -> Seq<Seq<char>> {
    Seq::new(docs.len(), |i: int| docs[i].document.label)
}

/// Labels ascend, none of them twice.
pub open spec fn docs_wf(docs: Seq<TreeDocView>) -> bool {
    texts_ascend(doc_labels(docs))
}

/// Where the document with a label stands.
pub open spec fn doc_place(docs: Seq<TreeDocView>, label: Seq<char>) -> Option<int> {
    if exists|i: int| 0 <= i < docs.len() && (#[trigger] docs[i]).document.label == label {
        Some(
            choose|i: int| 0 <= i < docs.len() && (#[trigger] docs[i]).document.label == label,
        )
    } else {
        None
    }
}

/// The generation of the next document with a label.
pub open spec fn next_generation(docs: Seq<TreeDocView>, label: Seq<char>) -> i64 {
    match doc_place(docs, label) {
        None => 1,
        Some(i) => if docs[i].generation == i64::MAX {
            i64::MAX
        } else {
            (docs[i].generation + 1) as i64
        },
    }
}

/// A generation as a document shows it.
pub open spec fn shown_generation(generation: i64) -> u32 {
    if 0 <= generation <= u32::MAX {
        generation as u32
    } else {
        u32::MAX
    }
}

/// A tree as it is published next.
pub open spec fn published(docs: Seq<TreeDocView>, snapshot: PublicTreeView) -> PublicTreeView {
    PublicTreeView {
        generation: shown_generation(next_generation(docs, snapshot.label)),
        ..snapshot
    }
}

/// The documents with a tree published: in place of the one with its label, or
/// where its label stands in order.
pub open spec fn with_published(
    before: Seq<TreeDocView>,
    after: Seq<TreeDocView>,
    snapshot: PublicTreeView,
) -> bool {
    let doc = TreeDocView {
        generation: next_generation(before, snapshot.label),
        document: published(before, snapshot),
    };
    match doc_place(before, snapshot.label) {
        Some(i) => after == before.update(i, doc),
        None => exists|at: int|
            0 <= at <= before.len() && after == #[trigger] before.insert(at, doc),
    }
}

impl OrgTrees {
    pub fn new() -> (r: OrgTrees)
        ensures
            r@ == Seq::<TreeDocView>::empty(),
            docs_wf(r@),
    {
        OrgTrees { docs: Vec::new() }
    }

    fn find(&self, label: &str) -> (r: Option<usize>)
        requires
            docs_wf(self@),
        ensures
            r is Some <==> doc_place(self@, label@) is Some,
            r matches Some(i) ==> i < self@.len() && doc_place(self@, label@) == Some(i as int)
                && self@[i as int].document.label == label@,
    {
        let mut i: usize = 0;
        while i < self.docs.len()
            invariant
                i <= self.docs.len(),
                docs_wf(self@),
                forall|k: int| 0 <= k < i ==> (#[trigger] self@[k]).document.label != label@,
            decreases self.docs.len() - i,
        {
            assert(self@[i as int] == self.docs@[i as int]@);
            if text_equal(self.docs[i].document.label.as_str(), label) {
                proof {
                    let found = doc_place(self@, label@)->0;
                    assert(self@[found].document.label == label@);
                    let labels = doc_labels(self@);
                    if i < found {
                        assert(labels[i as int] != labels[found]);
                    }
                }
                return Some(i);
            }
            i += 1;
        }
        None
    }
}

fn persist_public_tree(trees: &mut OrgTrees, snapshot: &PublicTree) -> (r: PublicTree)
    requires
        docs_wf(old(trees)@),
    ensures
        docs_wf(final(trees)@),
        r@ == published(old(trees)@, snapshot@),
        with_published(old(trees)@, final(trees)@, snapshot@),
{
    let ghost before = trees@;
    let found = trees.find(snapshot.label.as_str());
    let generation: i64 = match found {
        Some(i) => {
            assert(before[i as int] == trees.docs@[i as int]@);
            if trees.docs[i].generation == i64::MAX {
                i64::MAX
            } else {
                trees.docs[i].generation + 1
            }
        },
        None => 1,
    };
    let mut stored = copy_tree(snapshot);
    stored.generation = if 0 <= generation && generation <= u32::MAX as i64 {
        generation as u32
    } else {
        u32::MAX
    };
    let doc = TreeDoc { generation, document: copy_tree(&stored) };
    let ghost doc_view = doc@;
    match found {
        Some(i) => {
            trees.docs.set(i, doc);
            proof {
                assert(trees@ =~= before.update(i as int, doc_view));
                assert(doc_labels(trees@) =~= doc_labels(before));
            }
        },
        None => {
            let mut at: usize = 0;
            while at < trees.docs.len() && !is_text_le(
                snapshot.label.as_str(),
                trees.docs[at].document.label.as_str(),
            )
                invariant
                    at <= trees.docs.len(),
                    before == trees@,
                    forall|k: int|
                        0 <= k < at ==> !text_le(snapshot.label@, #[trigger] doc_labels(before)[k]),
                decreases trees.docs.len() - at,
            {
                assert(before[at as int] == trees.docs@[at as int]@);
                at += 1;
            }
            proof {
                let labels = doc_labels(before);
                if at < labels.len() {
                    assert(before[at as int] == trees.docs@[at as int]@);
                    if labels[at as int] == snapshot.label@ {
                        assert(before[at as int].document.label == snapshot.label@);
                    }
                }
                lemma_insert_ascends(labels, at as int, snapshot.label@);
            }
            trees.docs.insert(at, doc);
            proof {
                assert(trees@ =~= before.insert(at as int, doc_view));
                assert(doc_labels(trees@) =~= doc_labels(before).insert(
                    at as int,
                    snapshot.label@,
                ));
            }
        },
    }
    stored
}

/// Publishes a tree in place of the document with its label. A tree with a fault
/// is refused, and nothing changes.
pub fn put_public_tree(trees: &mut OrgTrees, snapshot: &PublicTree) -> (r: Result<
    PublicTree,
    Error,
>)
    requires
        docs_wf(old(trees)@),
    ensures
        docs_wf(final(trees)@),
        fault_of(r) == tree_fault(snapshot@),
        r is Err ==> final(trees)@ == old(trees)@,
        r matches Ok(stored) ==> {
            &&& stored@ == published(old(trees)@, snapshot@)
            &&& with_published(old(trees)@, final(trees)@, snapshot@)
        },
{
    match validate_public_tree(snapshot) {
        Ok(()) => {},
        Err(e) => {
            return Err(e);
        },
    }
    Ok(persist_public_tree(trees, snapshot))
}

/// The nodes among the first `n` whose labels others do not have.
pub open spec fn unmentioned(
    nodes: Seq<PublicNodeView>,
    n: int,
    incoming: Seq<PublicNodeView>,
) -> Seq<PublicNodeView>
    decreases n,
{
    if n <= 0 {
        Seq::empty()
    } else {
        let before = unmentioned(nodes, n - 1, incoming);
        if has_label(incoming, nodes[n - 1].label) {
            before
        } else {
            before.push(nodes[n - 1])
        }
    }
}

/// Incoming edges, and behind them those of the first `n` others that do not run
/// between incoming nodes, each once.
pub open spec fn edges_merged(
    incoming: Seq<PublicEdgeView>,
    edges: Seq<PublicEdgeView>,
    n: int,
    nodes: Seq<PublicNodeView>,
) -> Seq<PublicEdgeView>
    decreases n,
{
    if n <= 0 {
        incoming
    } else {
        let before = edges_merged(incoming, edges, n - 1, nodes);
        let edge = edges[n - 1];
        if has_label(nodes, edge.from) && has_label(nodes, edge.to) || before.contains(edge) {
            before
        } else {
            before.push(edge)
        }
    }
}

/// A document with a snapshot merged into it.
pub open spec fn merged(existing: PublicTreeView, incoming: PublicTreeView) -> PublicTreeView {
    PublicTreeView {
        label: incoming.label,
        generation: existing.generation,
        nodes: incoming.nodes + unmentioned(
            existing.nodes,
            existing.nodes.len() as int,
            incoming.nodes,
        ),
        whitelist: edges_merged(
            incoming.whitelist,
            existing.whitelist,
            existing.whitelist.len() as int,
            incoming.nodes,
        ),
        links: edges_merged(
            incoming.links,
            existing.links,
            existing.links.len() as int,
            incoming.nodes,
        ),
    }
}

fn merge_edges(incoming: &Vec<PublicEdge>, edges: &Vec<PublicEdge>, nodes: &Vec<PublicNode>) -> (r:
    Vec<PublicEdge>)
    ensures
        edge_views(r@) == edges_merged(
            edge_views(incoming@),
            edge_views(edges@),
            edges@.len() as int,
            public_node_views(nodes@),
        ),
{
    let ghost base = edge_views(incoming@);
    let ghost more = edge_views(edges@);
    let ghost all = public_node_views(nodes@);
    let mut out = copy_edges(incoming);
    let mut i: usize = 0;
    while i < edges.len()
        invariant
            i <= edges.len(),
            base == edge_views(incoming@),
            more == edge_views(edges@),
            all == public_node_views(nodes@),
            edge_views(out@) == edges_merged(base, more, i as int, all),
        decreases edges.len() - i,
    {
        let edge = &edges[i];
        assert(more[i as int] == edge@);
        assert(edge@ == (PublicEdgeView { from: edge.from@, to: edge.to@ }));
        let ghost before = edge_views(out@);
        let from = find_label(nodes, edge.from.as_str());
        let to = find_label(nodes, edge.to.as_str());
        proof {
            lemma_label_place(all, edge.from@);
            lemma_label_place(all, edge.to@);
        }
        let inside = from.is_some() && to.is_some();
        if !inside && !contains_edge(&out, edge.from.as_str(), edge.to.as_str()) {
            out.push(copy_edge(edge));
            assert(edge_views(out@) =~= before.push(edge@));
        }
        i += 1;
    }
    out
}

/// Merges a snapshot into a document: what the snapshot names is taken from it,
/// and what it does not name stays. A result with a fault is refused.
pub fn merge_into_existing(existing: &PublicTree, incoming: &PublicTree) -> (r: Result<
    PublicTree,
    Error,
>)
    ensures
        fault_of(r) == tree_fault(merged(existing@, incoming@)),
        r matches Ok(tree) ==> tree@ == merged(existing@, incoming@),
{
    let ghost old_nodes = existing@.nodes;
    let ghost new_nodes = incoming@.nodes;
    let mut nodes = copy_nodes(&incoming.nodes);
    let mut i: usize = 0;
    assert(public_node_views(nodes@) =~= new_nodes + unmentioned(old_nodes, 0, new_nodes));
    while i < existing.nodes.len()
        invariant
            i <= existing.nodes.len(),
            old_nodes == existing@.nodes,
            new_nodes == incoming@.nodes,
            public_node_views(nodes@) == new_nodes + unmentioned(old_nodes, i as int, new_nodes),
        decreases existing.nodes.len() - i,
    {
        let node = &existing.nodes[i];
        assert(old_nodes[i as int] == node@);
        let ghost before = public_node_views(nodes@);
        let found = find_label(&incoming.nodes, node.label.as_str());
        proof {
            lemma_label_place(new_nodes, node.label@);
        }
        if found.is_none() {
            nodes.push(copy_node(node));
            assert(public_node_views(nodes@) =~= before.push(node@));
        }
        assert(public_node_views(nodes@) =~= new_nodes + unmentioned(
            old_nodes,
            i + 1,
            new_nodes,
        ));
        i += 1;
    }
    let tree = PublicTree {
        label: incoming.label.as_str().to_owned(),
        generation: existing.generation,
        nodes,
        whitelist: merge_edges(&incoming.whitelist, &existing.whitelist, &incoming.nodes),
        links: merge_edges(&incoming.links, &existing.links, &incoming.nodes),
    };
    match validate_public_tree(&tree) {
        Ok(()) => Ok(tree),
        Err(e) => Err(e),
    }
}

/// The tree that a snapshot is published as when it is merged.
pub open spec fn merge_result(docs: Seq<TreeDocView>, snapshot: PublicTreeView) -> PublicTreeView {
    match doc_place(docs, snapshot.label) {
        None => snapshot,
        Some(i) => merged(docs[i].document, snapshot),
    }
}

/// Merges a snapshot into the document with its label, or publishes it where
/// there is none. Where the snapshot or the result has a fault, nothing changes.
pub fn merge_public_tree(trees: &mut OrgTrees, snapshot: &PublicTree) -> (r: Result<
    PublicTree,
    Error,
>)
    requires
        docs_wf(old(trees)@),
    ensures
        docs_wf(final(trees)@),
        fault_of(r) == (match tree_fault(snapshot@) {
            Some(e) => Some(e),
            None => tree_fault(merge_result(old(trees)@, snapshot@)),
        }),
        r is Err ==> final(trees)@ == old(trees)@,
        r matches Ok(stored) ==> {
            let tree = merge_result(old(trees)@, snapshot@);
            &&& stored@ == published(old(trees)@, tree)
            &&& with_published(old(trees)@, final(trees)@, tree)
        },
{
    match validate_public_tree(snapshot) {
        Ok(()) => {},
        Err(e) => {
            return Err(e);
        },
    }
    match trees.find(snapshot.label.as_str()) {
        None => Ok(persist_public_tree(trees, snapshot)),
        Some(i) => {
            assert(trees@[i as int] == trees.docs@[i as int]@);
            match merge_into_existing(&trees.docs[i].document, snapshot) {
                Ok(tree) => Ok(persist_public_tree(trees, &tree)),
                Err(e) => Err(e),
            }
        },
    }
}

/// Why a snapshot cannot be merged, if it cannot.
pub open spec fn merge_fault(docs: Seq<TreeDocView>, snapshot: PublicTreeView) -> Option<Error> {
    match tree_fault(snapshot) {
        Some(e) => Some(e),
        None => tree_fault(merge_result(docs, snapshot)),
    }
}

/// The stages that documents go through as snapshots are merged one after the
/// other.
pub open spec fn merged_in_turn(
    stages: Seq<Seq<TreeDocView>>,
    sent: Seq<PublicTreeView>,
    n: int,
) -> bool {
    &&& stages.len() == n + 1
    &&& n <= sent.len()
    &&& forall|k: int|
        0 <= k < n ==> merge_fault(#[trigger] stages[k], sent[k]) is None && with_published(
            stages[k],
            stages[k + 1],
            merge_result(stages[k], sent[k]),
        )
}

/// All snapshots were merged one after the other.
pub open spec fn all_merged(
    before: Seq<TreeDocView>,
    after: Seq<TreeDocView>,
    sent: Seq<PublicTreeView>,
) -> bool {
    exists|stages: Seq<Seq<TreeDocView>>| #[trigger]
        merged_in_turn(stages, sent, sent.len() as int) && stages[0] == before && stages.last()
            == after
}

/// Some snapshot cannot be merged into what those before it were merged into.
pub open spec fn merging_stops(
    before: Seq<TreeDocView>,
    sent: Seq<PublicTreeView>,
    e: Error,
) -> bool {
    exists|stages: Seq<Seq<TreeDocView>>, n: int| #[trigger]
        merged_in_turn(stages, sent, n) && 0 <= n < sent.len() && stages[0] == before
            && merge_fault(stages.last(), sent[n]) == Some(e)
}

fn copy_docs(trees: &OrgTrees) -> (r: OrgTrees)
    ensures
        r@ == trees@,
{
    let mut docs: Vec<TreeDoc> = Vec::new();
    let mut i: usize = 0;
    while i < trees.docs.len()
        invariant
            i <= trees.docs.len(),
            docs@.len() == i,
            forall|k: int| 0 <= k < i ==> (#[trigger] docs@[k])@ == trees@[k],
        decreases trees.docs.len() - i,
    {
        assert(trees@[i as int] == trees.docs@[i as int]@);
        docs.push(
            TreeDoc {
                generation: trees.docs[i].generation,
                document: copy_tree(&trees.docs[i].document),
            },
        );
        i += 1;
    }
    let copy = OrgTrees { docs };
    assert(copy@ =~= trees@);
    copy
}

/// The documents with snapshots merged into them, one after the other. Where one
/// cannot be, none is.
pub fn merge_all(trees: &OrgTrees, sent: &Vec<PublicTree>) -> (r: Result<OrgTrees, Error>)
    requires
        docs_wf(trees@),
    ensures
        match r {
            Ok(after) => docs_wf(after@) && all_merged(trees@, after@, tree_views(sent@)),
            Err(e) => merging_stops(trees@, tree_views(sent@), e),
        },
{
    let ghost views = tree_views(sent@);
    let mut current = copy_docs(trees);
    let ghost mut stages: Seq<Seq<TreeDocView>> = seq![current@];
    let mut i: usize = 0;
    while i < sent.len()
        invariant
            i <= sent.len(),
            views == tree_views(sent@),
            docs_wf(current@),
            merged_in_turn(stages, views, i as int),
            stages[0] == trees@,
            stages.last() == current@,
        decreases sent.len() - i,
    {
        assert(views[i as int] == sent@[i as int]@);
        let ghost before = current@;
        match merge_public_tree(&mut current, &sent[i]) {
            Ok(_) => {
                proof {
                    let longer = stages.push(current@);
                    assert forall|k: int| 0 <= k < i + 1 implies merge_fault(
                        #[trigger] longer[k],
                        views[k],
                    ) is None && with_published(
                        longer[k],
                        longer[k + 1],
                        merge_result(longer[k], views[k]),
                    ) by {
                        assert(longer[k] == stages[k]);
                        if k < i {
                            assert(longer[k + 1] == stages[k + 1]);
                        }
                    }
                    stages = longer;
                }
            },
            Err(e) => {
                assert(merge_fault(stages.last(), views[i as int]) == Some(e));
                return Err(e);
            },
        }
        i += 1;
    }
    Ok(current)
}

/// The document with a label.
pub fn get_public_tree(trees: &OrgTrees, label: &str) -> (r: Result<PublicTree, Error>)
    requires
        docs_wf(trees@),
    ensures
        match r {
            Ok(tree) => doc_place(trees@, label@) matches Some(i) && tree@ == trees@[i].document,
            Err(e) => doc_place(trees@, label@) is None && e == Error::TreeNotFound,
        },
{
    match trees.find(label) {
        Some(i) => {
            assert(trees@[i as int] == trees.docs@[i as int]@);
            Ok(copy_tree(&trees.docs[i].document))
        },
        None => Err(Error::TreeNotFound),
    }
}

/// The trees of a sequence.
pub open spec fn tree_views(trees: Seq<PublicTree>) -> Seq<PublicTreeView> {
    Seq::new(trees.len(), |i: int| trees[i]@)
}

/// All documents, in the order of their labels.
pub fn list_public_trees(trees: &OrgTrees) -> (r: Vec<PublicTree>)
    ensures
        tree_views(r@) == Seq::new(trees@.len(), |i: int| trees@[i].document),
{
    let mut out: Vec<PublicTree> = Vec::new();
    let mut i: usize = 0;
    while i < trees.docs.len()
        invariant
            i <= trees.docs.len(),
            out@.len() == i,
            forall|k: int| 0 <= k < i ==> (#[trigger] out@[k])@ == trees@[k].document,
        decreases trees.docs.len() - i,
    {
        assert(trees@[i as int] == trees.docs@[i as int]@);
        out.push(copy_tree(&trees.docs[i].document));
        i += 1;
    }
    assert(tree_views(out@) =~= Seq::new(trees@.len(), |k: int| trees@[k].document));
    out
}

/// What the holder of a key is shown of the first `n` documents that it is in.
pub open spec fn slices(docs: Seq<TreeDocView>, n: int, fingerprint: Seq<char>) -> Seq<
    PublicTreeView,
>
    decreases n,
{
    if n <= 0 {
        Seq::empty()
    } else {
        let before = slices(docs, n - 1, fingerprint);
        match slice_of(docs[n - 1].document, fingerprint) {
            Some(slice) => before.push(slice),
            None => before,
        }
    }
}

/// What the holder of a key is shown of each document that it is in.
pub fn slices_for_fingerprint(trees: &OrgTrees, fingerprint: &str) -> (r: Vec<PublicTree>)
    ensures
        tree_views(r@) == slices(trees@, trees@.len() as int, fingerprint@),
{
    let mut out: Vec<PublicTree> = Vec::new();
    let mut i: usize = 0;
    assert(tree_views(out@) =~= slices(trees@, 0, fingerprint@));
    while i < trees.docs.len()
        invariant
            i <= trees.docs.len(),
            tree_views(out@) == slices(trees@, i as int, fingerprint@),
        decreases trees.docs.len() - i,
    {
        assert(trees@[i as int] == trees.docs@[i as int]@);
        let ghost before = tree_views(out@);
        match slice_for_fingerprint(&trees.docs[i].document, fingerprint) {
            Some(slice) => {
                let ghost added = slice@;
                out.push(slice);
                assert(tree_views(out@) =~= before.push(added));
            },
            None => {},
        }
        i += 1;
    }
    out
}

/// What the holder of a key is shown of each document that it is in. A key that
/// is in none is no error.
pub fn contexts_for_fingerprint(trees: &OrgTrees, fingerprint: &str) -> (r: Vec<PublicTree>)
    ensures
        tree_views(r@) == slices(trees@, trees@.len() as int, fingerprint@),
{
    slices_for_fingerprint(trees, fingerprint)
}

/// What the holder of a key is shown of the document with a label.
pub fn context_for_fingerprint(trees: &OrgTrees, label: &str, fingerprint: &str) -> (r: Result<
    PublicTree,
    Error,
>)
    requires
        docs_wf(trees@),
    ensures
        match doc_place(trees@, label@) {
            None => fault_of(r) == Some(Error::TreeNotFound),
            Some(i) => match slice_of(trees@[i].document, fingerprint@) {
                None => fault_of(r) == Some(Error::NodeNotFound),
                Some(slice) => r matches Ok(tree) && tree@ == slice,
            },
        },
{
    match trees.find(label) {
        None => Err(Error::TreeNotFound),
        Some(i) => {
            assert(trees@[i as int] == trees.docs@[i as int]@);
            match slice_for_fingerprint(&trees.docs[i].document, fingerprint) {
                Some(slice) => Ok(slice),
                None => Err(Error::NodeNotFound),
            }
        },
    }
}

proof fn lemma_unmentioned_has(
    nodes: Seq<PublicNodeView>,
    n: int,
    incoming: Seq<PublicNodeView>,
    i: int,
)
    requires
        0 <= i < n <= nodes.len(),
        !has_label(incoming, nodes[i].label),
    ensures
        unmentioned(nodes, n, incoming).contains(nodes[i]),
    decreases n,
{
    let before = unmentioned(nodes, n - 1, incoming);
    let after = unmentioned(nodes, n, incoming);
    if i == n - 1 {
        assert(after[after.len() - 1] == nodes[i]);
    } else {
        lemma_unmentioned_has(nodes, n - 1, incoming, i);
        let k = choose|k: int| 0 <= k < before.len() && before[k] == nodes[i];
        assert(after[k] == nodes[i]);
    }
}

/// What a snapshot names is authoritative: its nodes stand in the merged tree as
/// they are.
pub proof fn merging_takes_the_incoming_nodes(
    existing: PublicTreeView,
    incoming: PublicTreeView,
    i: int,
)
    requires
        0 <= i < incoming.nodes.len(),
    ensures
        merged(existing, incoming).nodes.contains(incoming.nodes[i]),
{
    assert(merged(existing, incoming).nodes[i] == incoming.nodes[i]);
}

/// A node that a snapshot does not name stays as it is.
pub proof fn merging_keeps_other_nodes(
    existing: PublicTreeView,
    incoming: PublicTreeView,
    i: int,
)
    requires
        0 <= i < existing.nodes.len(),
        !has_label(incoming.nodes, existing.nodes[i].label),
    ensures
        merged(existing, incoming).nodes.contains(existing.nodes[i]),
{
    let rest = unmentioned(existing.nodes, existing.nodes.len() as int, incoming.nodes);
    lemma_unmentioned_has(existing.nodes, existing.nodes.len() as int, incoming.nodes, i);
    let k = choose|k: int| 0 <= k < rest.len() && rest[k] == existing.nodes[i];
    assert(merged(existing, incoming).nodes[incoming.nodes.len() + k] == existing.nodes[i]);
}

proof fn lemma_edges_grow(
    incoming: Seq<PublicEdgeView>,
    edges: Seq<PublicEdgeView>,
    m: int,
    n: int,
    nodes: Seq<PublicNodeView>,
    edge: PublicEdgeView,
)
    requires
        0 <= m <= n <= edges.len(),
        edges_merged(incoming, edges, m, nodes).contains(edge),
    ensures
        edges_merged(incoming, edges, n, nodes).contains(edge),
    decreases n - m,
{
    if m < n {
        lemma_edges_grow(incoming, edges, m, n - 1, nodes, edge);
        let before = edges_merged(incoming, edges, n - 1, nodes);
        let after = edges_merged(incoming, edges, n, nodes);
        let k = choose|k: int| 0 <= k < before.len() && before[k] == edge;
        assert(after[k] == edge);
    }
}

/// Merged edges hold every incoming one, and every other one that does not run
/// between incoming nodes.
pub proof fn merging_keeps_other_edges(
    incoming: Seq<PublicEdgeView>,
    edges: Seq<PublicEdgeView>,
    nodes: Seq<PublicNodeView>,
    edge: PublicEdgeView,
)
    requires
        incoming.contains(edge) || (edges.contains(edge) && !(has_label(nodes, edge.from)
            && has_label(nodes, edge.to))),
    ensures
        edges_merged(incoming, edges, edges.len() as int, nodes).contains(edge),
{
    if incoming.contains(edge) {
        assert(edges_merged(incoming, edges, 0, nodes) == incoming);
        lemma_edges_grow(incoming, edges, 0, edges.len() as int, nodes, edge);
    } else {
        let i = choose|i: int| 0 <= i < edges.len() && edges[i] == edge;
        let before = edges_merged(incoming, edges, i, nodes);
        let after = edges_merged(incoming, edges, i + 1, nodes);
        if before.contains(edge) {
            assert(after == before);
        } else {
            assert(after[after.len() - 1] == edge);
        }
        lemma_edges_grow(incoming, edges, i + 1, edges.len() as int, nodes, edge);
    }
}

/// Each time that a tree is published its generation grows, until it cannot.
pub proof fn generations_grow(docs: Seq<TreeDocView>, label: Seq<char>)
    requires
        doc_place(docs, label) matches Some(i) && docs[i].generation < i64::MAX,
    ensures
        doc_place(docs, label) matches Some(i) && next_generation(docs, label)
            == docs[i].generation + 1,
{
}

/// A tree that was published is found under its label, and the other documents
/// are as they were.
pub proof fn published_tree_is_found(
    before: Seq<TreeDocView>,
    after: Seq<TreeDocView>,
    snapshot: PublicTreeView,
    other: TreeDocView,
)
    requires
        docs_wf(before),
        docs_wf(after),
        with_published(before, after, snapshot),
    ensures
        doc_place(after, snapshot.label) matches Some(i) && after[i].document == published(
            before,
            snapshot,
        ),
        other.document.label != snapshot.label ==> (after.contains(other) <==> before.contains(
            other,
        )),
{
    let doc = TreeDocView {
        generation: next_generation(before, snapshot.label),
        document: published(before, snapshot),
    };
    let at = match doc_place(before, snapshot.label) {
        Some(i) => i,
        None => choose|at: int|
            0 <= at <= before.len() && after == #[trigger] before.insert(at, doc),
    };
    if let Some(i) = doc_place(before, snapshot.label) {
        assert(before[i].document.label == snapshot.label);
    }
    assert(after[at] == doc);
    assert(after[at].document.label == snapshot.label);
    let found = doc_place(after, snapshot.label)->0;
    assert(after[found].document.label == snapshot.label);
    let labels = doc_labels(after);
    if found < at {
        assert(labels[found] != labels[at]);
    } else if at < found {
        assert(labels[at] != labels[found]);
    }
    if other.document.label != snapshot.label {
        if before.contains(other) {
            let k = choose|k: int| 0 <= k < before.len() && before[k] == other;
            if doc_place(before, snapshot.label) is Some {
                assert(after[k] == other);
            } else if k < at {
                assert(after[k] == other);
            } else {
                assert(after[k + 1] == other);
            }
        }
        if after.contains(other) {
            let k = choose|k: int| 0 <= k < after.len() && after[k] == other;
            if doc_place(before, snapshot.label) is Some {
                assert(before[k] == other);
            } else if k < at {
                assert(before[k] == other);
            } else {
                assert(before[k - 1] == other);
            }
        }
    }
}

proof fn lemma_unmentioned(nodes: Seq<PublicNodeView>, n: int, incoming: Seq<PublicNodeView>)
    requires
        0 <= n <= nodes.len(),
    ensures
        forall|node: PublicNodeView| #[trigger]
            unmentioned(nodes, n, incoming).contains(node) <==> exists|i: int|
                0 <= i < n && #[trigger] nodes[i] == node && !has_label(incoming, node.label),
    decreases n,
{
    let all = unmentioned(nodes, n, incoming);
    if n > 0 {
        lemma_unmentioned(nodes, n - 1, incoming);
        let before = unmentioned(nodes, n - 1, incoming);
        assert forall|node: PublicNodeView| #[trigger] all.contains(node) <==> exists|i: int|
            0 <= i < n && #[trigger] nodes[i] == node && !has_label(incoming, node.label) by {
            if all.contains(node) {
                let k = choose|k: int| 0 <= k < all.len() && all[k] == node;
                if k < before.len() {
                    assert(before[k] == node);
                    assert(before.contains(node));
                } else {
                    assert(nodes[n - 1] == node);
                }
            }
            if before.contains(node) {
                let k = choose|k: int| 0 <= k < before.len() && before[k] == node;
                assert(all[k] == node);
            }
            if nodes[n - 1] == node && !has_label(incoming, node.label) {
                assert(all[before.len() as int] == node);
            }
        }
    } else {
        assert forall|node: PublicNodeView| !#[trigger] all.contains(node) by {}
    }
}

/// A merged tree has exactly the incoming nodes, and those of the document whose labels
/// the snapshot does not name. It takes the snapshot's label and keeps the generation.
pub proof fn merged_nodes_are_these(
    existing: PublicTreeView,
    incoming: PublicTreeView,
    node: PublicNodeView,
)
    ensures
        merged(existing, incoming).nodes.contains(node) <==> incoming.nodes.contains(node) || (
        existing.nodes.contains(node) && forall|i: int|
            0 <= i < incoming.nodes.len() ==> (#[trigger] incoming.nodes[i]).label != node.label),
        merged(existing, incoming).label == incoming.label,
        merged(existing, incoming).generation == existing.generation,
{
    let rest = unmentioned(existing.nodes, existing.nodes.len() as int, incoming.nodes);
    let all = merged(existing, incoming).nodes;
    lemma_unmentioned(existing.nodes, existing.nodes.len() as int, incoming.nodes);
    if all.contains(node) {
        let k = choose|k: int| 0 <= k < all.len() && all[k] == node;
        if k < incoming.nodes.len() {
            assert(incoming.nodes[k] == node);
        } else {
            assert(rest[k - incoming.nodes.len()] == node);
            assert(rest.contains(node));
        }
    }
    if incoming.nodes.contains(node) {
        let k = choose|k: int| 0 <= k < incoming.nodes.len() && incoming.nodes[k] == node;
        assert(all[k] == node);
    }
    if existing.nodes.contains(node) && !has_label(incoming.nodes, node.label) {
        let i = choose|i: int| 0 <= i < existing.nodes.len() && existing.nodes[i] == node;
        assert(existing.nodes[i] == node);
        assert(rest.contains(node));
        let k = choose|k: int| 0 <= k < rest.len() && rest[k] == node;
        assert(all[incoming.nodes.len() + k] == node);
    }
}

/// Merged edges are exactly the incoming ones, and those of the document that do not run
/// between two nodes that the snapshot names: of these the snapshot alone tells.
pub proof fn merged_edges_are_these(
    incoming: Seq<PublicEdgeView>,
    edges: Seq<PublicEdgeView>,
    n: int,
    nodes: Seq<PublicNodeView>,
    edge: PublicEdgeView,
)
    requires
        0 <= n <= edges.len(),
    ensures
        edges_merged(incoming, edges, n, nodes).contains(edge) <==> incoming.contains(edge) || (
        exists|i: int| 0 <= i < n && #[trigger] edges[i] == edge) && !(has_label(nodes, edge.from)
            && has_label(nodes, edge.to)),
    decreases n,
{
    if n > 0 {
        merged_edges_are_these(incoming, edges, n - 1, nodes, edge);
        let before = edges_merged(incoming, edges, n - 1, nodes);
        let all = edges_merged(incoming, edges, n, nodes);
        if all.contains(edge) {
            let k = choose|k: int| 0 <= k < all.len() && all[k] == edge;
            if k < before.len() {
                assert(before[k] == edge);
            } else {
                assert(edges[n - 1] == edge);
            }
        }
        if before.contains(edge) {
            let k = choose|k: int| 0 <= k < before.len() && before[k] == edge;
            assert(all[k] == edge);
        }
        if edges[n - 1] == edge && !(has_label(nodes, edge.from) && has_label(nodes, edge.to)) {
            if !before.contains(edge) {
                assert(all[before.len() as int] == edge);
            }
        }
    }
}

/// Whitelist and pairings of a merged tree are merged alike, each from its own.
pub proof fn merged_edges_keep_their_kind(
    existing: PublicTreeView,
    incoming: PublicTreeView,
    edge: PublicEdgeView,
)
    ensures
        merged(existing, incoming).whitelist.contains(edge) <==> incoming.whitelist.contains(edge)
            || existing.whitelist.contains(edge) && !(has_label(incoming.nodes, edge.from)
            && has_label(incoming.nodes, edge.to)),
        merged(existing, incoming).links.contains(edge) <==> incoming.links.contains(edge)
            || existing.links.contains(edge) && !(has_label(incoming.nodes, edge.from)
            && has_label(incoming.nodes, edge.to)),
{
    merged_edges_are_these(
        incoming.whitelist,
        existing.whitelist,
        existing.whitelist.len() as int,
        incoming.nodes,
        edge,
    );
    merged_edges_are_these(
        incoming.links,
        existing.links,
        existing.links.len() as int,
        incoming.nodes,
        edge,
    );
}

/// A tree is first published as generation one, and then as the one after the last. It is
/// shown as it is, up to the highest that can be shown.
pub proof fn generations_count_from_one(docs: Seq<TreeDocView>, snapshot: PublicTreeView)
    ensures
        (forall|i: int|
            0 <= i < docs.len() ==> (#[trigger] docs[i]).document.label != snapshot.label)
            ==> next_generation(docs, snapshot.label) == 1 && published(docs, snapshot).generation
            == 1,
        published(docs, snapshot).label == snapshot.label,
        published(docs, snapshot).nodes == snapshot.nodes,
        published(docs, snapshot).whitelist == snapshot.whitelist,
        published(docs, snapshot).links == snapshot.links,
        0 <= next_generation(docs, snapshot.label) <= u32::MAX ==> published(
            docs,
            snapshot,
        ).generation == next_generation(docs, snapshot.label),
        next_generation(docs, snapshot.label) > u32::MAX ==> published(docs, snapshot).generation
            == u32::MAX,
{
}

/// A snapshot is merged into the document with its label, and published as it is where
/// there is none.
pub proof fn snapshots_meet_their_document(docs: Seq<TreeDocView>, snapshot: PublicTreeView, i: int)
    requires
        docs_wf(docs),
    ensures
        0 <= i < docs.len() && docs[i].document.label == snapshot.label ==> merge_result(
            docs,
            snapshot,
        ) == merged(docs[i].document, snapshot),
        (forall|k: int|
            0 <= k < docs.len() ==> (#[trigger] docs[k]).document.label != snapshot.label)
            ==> merge_result(docs, snapshot) == snapshot,
{
    if 0 <= i < docs.len() && docs[i].document.label == snapshot.label {
        let k = doc_place(docs, snapshot.label)->0;
        let labels = doc_labels(docs);
        assert(docs[k].document.label == snapshot.label);
        assert(labels[i] == labels[k]);
    }
}

/// A key is shown a slice of exactly the documents that it is in, in order.
pub proof fn slices_are_of_documents_with_the_key(
    docs: Seq<TreeDocView>,
    n: int,
    fingerprint: Seq<char>,
    slice: PublicTreeView,
)
    requires
        0 <= n <= docs.len(),
    ensures
        slices(docs, n, fingerprint).contains(slice) <==> exists|i: int|
            0 <= i < n && slice_of((#[trigger] docs[i]).document, fingerprint) == Some(slice),
    decreases n,
{
    let all = slices(docs, n, fingerprint);
    if n > 0 {
        slices_are_of_documents_with_the_key(docs, n - 1, fingerprint, slice);
        let before = slices(docs, n - 1, fingerprint);
        if all.contains(slice) {
            let k = choose|k: int| 0 <= k < all.len() && all[k] == slice;
            if k < before.len() {
                assert(before[k] == slice);
            } else {
                assert(slice_of(docs[n - 1].document, fingerprint) == Some(slice));
            }
        }
        if before.contains(slice) {
            let k = choose|k: int| 0 <= k < before.len() && before[k] == slice;
            assert(all[k] == slice);
        }
        if slice_of(docs[n - 1].document, fingerprint) == Some(slice) {
            assert(all[before.len() as int] == slice);
        }
    } else {
        assert(!all.contains(slice));
    }
}

/// Publishing a snapshot puts its document under its label, in place of the one that stood
/// there, and leaves every other document as it is.
pub proof fn publishing_touches_one_document(
    before: Seq<TreeDocView>,
    after: Seq<TreeDocView>,
    snapshot: PublicTreeView,
    other: TreeDocView,
)
    requires
        docs_wf(before),
        with_published(before, after, snapshot),
        other.document.label != snapshot.label,
    ensures
        after.contains(other) <==> before.contains(other),
        exists|i: int|
            0 <= i < after.len() && (#[trigger] after[i]).document == published(before, snapshot)
                && after[i].generation == next_generation(before, snapshot.label),
        after.len() == before.len() + (if doc_place(before, snapshot.label) is Some {
            0int
        } else {
            1
        }),
{
    let doc = TreeDocView {
        generation: next_generation(before, snapshot.label),
        document: published(before, snapshot),
    };
    match doc_place(before, snapshot.label) {
        Some(i) => {
            assert(after[i] == doc);
            if after.contains(other) {
                let k = choose|k: int| 0 <= k < after.len() && after[k] == other;
                assert(k != i);
                assert(before[k] == other);
            }
            if before.contains(other) {
                let k = choose|k: int| 0 <= k < before.len() && before[k] == other;
                assert(before[i].document.label == snapshot.label);
                assert(k != i);
                assert(after[k] == other);
            }
        },
        None => {
            let at = choose|at: int|
                0 <= at <= before.len() && after == #[trigger] before.insert(at, doc);
            assert(after[at] == doc);
            if after.contains(other) {
                let k = choose|k: int| 0 <= k < after.len() && after[k] == other;
                assert(k != at);
                if k < at {
                    assert(before[k] == other);
                } else {
                    assert(before[k - 1] == other);
                }
            }
            if before.contains(other) {
                let k = choose|k: int| 0 <= k < before.len() && before[k] == other;
                if k < at {
                    assert(after[k] == other);
                } else {
                    assert(after[k + 1] == other);
                }
            }
        },
    }
}

/// A snapshot is merged exactly if it is sound, and so is what it is merged to.
pub proof fn snapshots_that_merge(docs: Seq<TreeDocView>, snapshot: PublicTreeView)
    ensures
        merge_fault(docs, snapshot) is None <==> tree_fault(snapshot) is None && tree_fault(
            merge_result(docs, snapshot),
        ) is None,
        tree_fault(snapshot) is Some ==> merge_fault(docs, snapshot) == tree_fault(snapshot),
{
}

/// One snapshot that is sent is merged and published.
pub proof fn one_snapshot_is_merged(
    before: Seq<TreeDocView>,
    after: Seq<TreeDocView>,
    snapshot: PublicTreeView,
)
    requires
        all_merged(before, after, seq![snapshot]),
    ensures
        merge_fault(before, snapshot) is None,
        with_published(before, after, merge_result(before, snapshot)),
{
    let sent = seq![snapshot];
    let stages = choose|stages: Seq<Seq<TreeDocView>>| #[trigger]
        merged_in_turn(stages, sent, sent.len() as int) && stages[0] == before && stages.last()
            == after;
    assert(merge_fault(stages[0], sent[0]) is None);
    assert(stages[1] == after);
}

/// Where nothing is sent, nothing changes.
pub proof fn nothing_sent_changes_nothing(before: Seq<TreeDocView>, after: Seq<TreeDocView>)
    ensures
        all_merged(before, after, Seq::empty()) <==> after == before,
{
    let sent = Seq::<PublicTreeView>::empty();
    if after == before {
        let stages = seq![before];
        assert(merged_in_turn(stages, sent, 0));
        assert(stages[0] == before && stages.last() == after);
    }
    if all_merged(before, after, sent) {
        let stages = choose|stages: Seq<Seq<TreeDocView>>| #[trigger]
            merged_in_turn(stages, sent, sent.len() as int) && stages[0] == before && stages.last()
                == after;
        assert(stages.len() == 1);
    }
}

} // verus!
