//! The tree of one secret, loaded into memory.

use vstd::hash_map::StringHashMap;
use vstd::prelude::*;

use crate::error::Error;
use crate::key_tree::store::{bridge_views, node_exists, nodes_ordered, NodeRowView, TreeStore,
    TreeStoreView};
use crate::text::text_views;

verus! {

/// One node of a loaded tree. Shares stay sealed in the store; this is shape
/// and policy.
#[derive(Debug)]
pub struct KeyNode {
    pub db_id: i64,
    pub id: String,
    pub parent_idx: Option<usize>,
    pub children_indices: Vec<usize>,
    pub threshold: Option<usize>,
    pub is_active: bool,
    pub hardware_key_id: Option<i64>,
    pub allowed_bridges: Vec<String>,
}

/// The tree of one secret. Nodes stand in the order of their ids, and
/// `id_to_index` gives the place of each by its label.
pub struct KeyQuorumTree {
    pub nodes: Vec<KeyNode>,
    pub root_index: usize,
    pub id_to_index: StringHashMap<usize>,
}

/// What a node of a loaded tree says.
#[verifier::ext_equal]
pub struct NodeShape {
    pub db_id: i64,
    pub label: Seq<char>,
    pub parent: Option<int>,
    pub children: Seq<int>,
    pub threshold: Option<int>,
    pub is_active: bool,
    pub hardware_key_id: Option<i64>,
    pub allowed: Set<Seq<char>>,
}

#[verifier::ext_equal]
pub struct TreeShape {
    pub nodes: Seq<NodeShape>,
    pub root: int,
    pub index: Map<Seq<char>, int>,
}

pub open spec fn index_view(index: Map<Seq<char>, usize>) -> Map<Seq<char>, int> {
    index.map_values(|place: usize| place as int)
}

pub open spec fn places(v: Seq<usize>) -> Seq<int> {
    Seq::new(v.len(), |i: int| v[i] as int)
}

impl View for KeyNode {
    type V = NodeShape;

    open spec fn view(&self) -> NodeShape {
        NodeShape {
            db_id: self.db_id,
            label: self.id@,
            parent: match self.parent_idx {
                Some(p) => Some(p as int),
                None => None,
            },
            children: places(self.children_indices@),
            threshold: match self.threshold {
                Some(t) => Some(t as int),
                None => None,
            },
            is_active: self.is_active,
            hardware_key_id: self.hardware_key_id,
            allowed: text_views(self.allowed_bridges@).to_set(),
        }
    }
}

pub open spec fn node_shapes(v: Seq<KeyNode>) -> Seq<NodeShape> {
    Seq::new(v.len(), |i: int| v[i]@)
}

impl View for KeyQuorumTree {
    type V = TreeShape;

    open spec fn view(&self) -> TreeShape {
        TreeShape {
            nodes: node_shapes(self.nodes@),
            root: self.root_index as int,
            index: index_view(self.id_to_index@),
        }
    }
}

impl TreeShape {
    /// A parent comes before its children, and places and thresholds are in
    /// range.
    pub open spec fn wf(self) -> bool {
        &&& 0 <= self.root < self.nodes.len()
        &&& forall|i: int|
            0 <= i < self.nodes.len() ==> ((#[trigger] self.nodes[i]).parent matches Some(p) ==> 0
                <= p < i)
        &&& forall|i: int|
            0 <= i < self.nodes.len() ==> ((#[trigger] self.nodes[i]).threshold matches Some(t)
                ==> 0 <= t <= 255)
        &&& forall|i: int, k: int|
            0 <= i < self.nodes.len() && 0 <= k < self.nodes[i].children.len() ==> i < (
            #[trigger] self.nodes[i].children[k]) < self.nodes.len()
    }

    /// The index holds every node's label, with its place, and no other label.
    pub open spec fn indexed(self) -> bool {
        &&& forall|i: int|
            0 <= i < self.nodes.len() ==> self.index.contains_key(
                (#[trigger] self.nodes[i]).label,
            ) && self.index[self.nodes[i].label] == i
        &&& forall|label: Seq<char>| #[trigger]
            self.index.contains_key(label) ==> 0 <= self.index[label] < self.nodes.len()
                && self.nodes[self.index[label]].label == label
    }
}

/// The nodes of one secret.
pub open spec fn key_rows(nodes: Seq<NodeRowView>, key_id: i64) -> Seq<NodeRowView> {
    nodes.filter(|row: NodeRowView| row.key_id == key_id)
}

/// The place of the row with the given id.
pub open spec fn place_of(rows: Seq<NodeRowView>, id: i64) -> int {
    choose|i: int| 0 <= i < rows.len() && (#[trigger] rows[i]).id == id
}

/// The places of the rows below the row with the given id, in order.
pub open spec fn child_places(rows: Seq<NodeRowView>, id: i64) -> Seq<int>
    decreases rows.len(),
{
    if rows.len() == 0 {
        Seq::empty()
    } else {
        let before = child_places(rows.drop_last(), id);
        if rows.last().parent_id == Some(id) {
            before.push(rows.len() - 1)
        } else {
            before
        }
    }
}

/// The places of the rows by their labels.
pub open spec fn label_places(rows: Seq<NodeRowView>) -> Map<Seq<char>, int>
    decreases rows.len(),
{
    if rows.len() == 0 {
        Map::empty()
    } else {
        label_places(rows.drop_last()).insert(rows.last().label, rows.len() - 1)
    }
}

pub open spec fn labels_repeat(rows: Seq<NodeRowView>) -> bool {
    exists|i: int, j: int|
        0 <= i < j < rows.len() && (#[trigger] rows[i]).label == (#[trigger] rows[j]).label
}

pub open spec fn parent_missing(rows: Seq<NodeRowView>) -> bool {
    exists|i: int|
        0 <= i < rows.len() && match (#[trigger] rows[i]).parent_id {
            Some(p) => !node_exists(rows, p),
            None => false,
        }
}

/// What a loaded node says of a row.
pub open spec fn shape_of_row(
    rows: Seq<NodeRowView>,
    bridges: Set<(i64, Seq<char>)>,
    i: int,
) -> NodeShape {
    NodeShape {
        db_id: rows[i].id,
        label: rows[i].label,
        parent: match rows[i].parent_id {
            Some(p) => Some(place_of(rows, p)),
            None => None,
        },
        children: child_places(rows, rows[i].id),
        threshold: match rows[i].threshold {
            Some(t) => Some(t as int),
            None => None,
        },
        is_active: rows[i].is_active,
        hardware_key_id: rows[i].hardware_key_id,
        allowed: Set::new(|peer: Seq<char>| bridges.contains((rows[i].id, peer))),
    }
}

/// The tree that the rows of one secret make up. The first of them is the
/// root: its parent would have to come before it.
pub open spec fn shape_of_rows(
    rows: Seq<NodeRowView>,
    bridges: Set<(i64, Seq<char>)>,
) -> TreeShape {
    TreeShape {
        nodes: Seq::new(rows.len(), |i: int| shape_of_row(rows, bridges, i)),
        root: 0,
        index: label_places(rows),
    }
}

/// The tree of a secret, or why it cannot be loaded.
pub open spec fn loaded(store: TreeStoreView, key_id: i64) -> Result<TreeShape, Error> {
    let rows = key_rows(store.nodes, key_id);
    if rows.len() == 0 {
        Err(Error::NodeNotFound)
    } else if labels_repeat(rows) {
        Err(Error::DuplicateNodeLabel)
    } else if parent_missing(rows) {
        Err(Error::NodeNotFound)
    } else {
        Ok(shape_of_rows(rows, store.bridges))
    }
}

pub proof fn lemma_rows_ordered(nodes: Seq<NodeRowView>, key_id: i64)
    requires
        nodes_ordered(nodes),
    ensures
        nodes_ordered(key_rows(nodes, key_id)),
        forall|i: int|
            0 <= i < key_rows(nodes, key_id).len() ==> nodes.contains(
                #[trigger] key_rows(nodes, key_id)[i],
            ) && key_rows(nodes, key_id)[i].key_id == key_id,
        forall|i: int|
            0 <= i < nodes.len() && (#[trigger] nodes[i]).key_id == key_id ==> key_rows(
                nodes,
                key_id,
            ).contains(nodes[i]),
    decreases nodes.len(),
{
    reveal(Seq::filter);
    if nodes.len() > 0 {
        let front = nodes.drop_last();
        assert(nodes_ordered(front)) by {
            assert forall|i: int| 0 <= i < front.len() implies front[i] == nodes[i] by {}
        }
        lemma_rows_ordered(front, key_id);
        let rows = key_rows(nodes, key_id);
        let before = key_rows(front, key_id);
        assert forall|i: int| 0 <= i < before.len() implies nodes.contains(
            #[trigger] before[i],
        ) && before[i].id < nodes.last().id by {
            assert(front.contains(before[i]));
            let k = choose|k: int| 0 <= k < front.len() && front[k] == before[i];
            assert(nodes[k] == before[i]);
        }
        if nodes.last().key_id == key_id {
            assert(rows == before.push(nodes.last()));
            assert forall|i: int| 0 <= i < rows.len() implies nodes.contains(#[trigger] rows[i])
                && rows[i].key_id == key_id by {
                if i < before.len() {
                    assert(rows[i] == before[i]);
                } else {
                    assert(nodes[nodes.len() - 1] == rows[i]);
                }
            }
            assert forall|i: int|
                0 <= i < nodes.len() && (#[trigger] nodes[i]).key_id
                    == key_id implies rows.contains(nodes[i]) by {
                if i < front.len() {
                    assert(front[i] == nodes[i]);
                    let k = choose|k: int| 0 <= k < before.len() && before[k] == front[i];
                    assert(rows[k] == nodes[i]);
                } else {
                    assert(rows[rows.len() - 1] == nodes[i]);
                }
            }
            assert forall|i: int, j: int| 0 <= i < j < rows.len() implies (#[trigger] rows[i]).id
                < (#[trigger] rows[j]).id by {
                if j < before.len() {
                    assert(before[i].id < before[j].id);
                } else {
                    assert(before[i].id < nodes.last().id);
                }
            }
        } else {
            assert(rows == before);
            assert forall|i: int|
                0 <= i < nodes.len() && (#[trigger] nodes[i]).key_id
                    == key_id implies rows.contains(nodes[i]) by {
                assert(front[i] == nodes[i]);
            }
        }
        assert forall|i: int| 0 <= i < rows.len() implies (#[trigger] rows[i]).id > 0 && (
        rows[i].parent_id matches Some(p) ==> p < rows[i].id) && (rows[i].threshold matches Some(t)
            ==> 1 <= t <= 255 && rows[i].hardware_key_id is None) by {
            assert(nodes.contains(rows[i]));
        }
    }
}

pub proof fn lemma_place_of(rows: Seq<NodeRowView>, i: int)
    requires
        nodes_ordered(rows),
        0 <= i < rows.len(),
    ensures
        node_exists(rows, rows[i].id),
        place_of(rows, rows[i].id) == i,
{
    let p = place_of(rows, rows[i].id);
    assert(rows[p].id == rows[i].id);
}

/// The places below a row stand after it, in ascending order, and are exactly
/// those whose parent it is.
pub proof fn lemma_child_places(rows: Seq<NodeRowView>, id: i64)
    requires
        nodes_ordered(rows),
    ensures
        forall|k: int|
            0 <= k < child_places(rows, id).len() ==> 0 <= #[trigger] child_places(rows, id)[k]
                < rows.len() && rows[child_places(rows, id)[k]].parent_id == Some(id),
        forall|i: int|
            0 <= i < rows.len() && (#[trigger] rows[i]).parent_id == Some(id) ==> child_places(
                rows,
                id,
            ).contains(i),
        forall|k: int, m: int|
            0 <= k < m < child_places(rows, id).len() ==> (#[trigger] child_places(rows, id)[k]) < (
            #[trigger] child_places(rows, id)[m]),
    decreases rows.len(),
{
    if rows.len() > 0 {
        let front = rows.drop_last();
        assert(nodes_ordered(front)) by {
            assert forall|i: int| 0 <= i < front.len() implies front[i] == rows[i] by {}
        }
        lemma_child_places(front, id);
        let before = child_places(front, id);
        let all = child_places(rows, id);
        assert forall|k: int| 0 <= k < all.len() implies 0 <= #[trigger] all[k] < rows.len()
            && rows[all[k]].parent_id == Some(id) by {
            if k < before.len() {
                assert(all[k] == before[k]);
                assert(front[before[k]] == rows[all[k]]);
            }
        }
        assert forall|i: int| 0 <= i < rows.len() && (#[trigger] rows[i]).parent_id == Some(
            id,
        ) implies all.contains(i) by {
            if i < front.len() {
                assert(front[i] == rows[i]);
                let k = choose|k: int| 0 <= k < before.len() && before[k] == i;
                assert(all[k] == i);
            } else {
                assert(all[all.len() - 1] == i);
            }
        }
    }
}

/// The tree of ordered rows with all parents present is well-formed.
pub proof fn lemma_shape_wf(rows: Seq<NodeRowView>, bridges: Set<(i64, Seq<char>)>)
    requires
        nodes_ordered(rows),
        rows.len() > 0,
        !parent_missing(rows),
    ensures
        shape_of_rows(rows, bridges).wf(),
        rows[0].parent_id is None,
{
    let shape = shape_of_rows(rows, bridges);
    assert forall|i: int| 0 <= i < rows.len() implies ((#[trigger] shape.nodes[i]).parent matches Some(
        p,
    ) ==> 0 <= p < i) by {
        if let Some(id) = rows[i].parent_id {
            assert(node_exists(rows, id));
            let p = place_of(rows, id);
            assert(rows[p].id == id);
            if p >= i {
                assert(rows[i].id <= rows[p].id);
            }
        }
    }
    assert forall|i: int, k: int|
        0 <= i < shape.nodes.len() && 0 <= k < shape.nodes[i].children.len() implies i < (
    #[trigger] shape.nodes[i].children[k]) < shape.nodes.len() by {
        lemma_child_places(rows, rows[i].id);
        let c = child_places(rows, rows[i].id)[k];
        assert(rows[c].parent_id == Some(rows[i].id));
        if c <= i {
            assert(rows[c].id <= rows[i].id);
        }
    }
    assert(shape.nodes[0].parent is None);
}

proof fn lemma_label_places(rows: Seq<NodeRowView>)
    requires
        !labels_repeat(rows),
    ensures
        forall|i: int|
            0 <= i < rows.len() ==> label_places(rows).contains_key((#[trigger] rows[i]).label)
                && label_places(rows)[rows[i].label] == i,
        forall|label: Seq<char>| #[trigger]
            label_places(rows).contains_key(label) ==> 0 <= label_places(rows)[label] < rows.len()
                && rows[label_places(rows)[label]].label == label,
    decreases rows.len(),
{
    if rows.len() > 0 {
        let front = rows.drop_last();
        let last = rows.len() - 1;
        assert(!labels_repeat(front)) by {
            assert forall|i: int, j: int| 0 <= i < j < front.len() implies (
            #[trigger] front[i]).label != (#[trigger] front[j]).label by {
                assert(rows[i].label != rows[j].label);
            }
        }
        lemma_label_places(front);
        assert forall|i: int| 0 <= i < rows.len() implies label_places(rows).contains_key(
            (#[trigger] rows[i]).label,
        ) && label_places(rows)[rows[i].label] == i by {
            if i < last {
                assert(front[i] == rows[i]);
                assert(rows[i].label != rows[last].label);
            }
        }
        assert forall|label: Seq<char>| #[trigger]
            label_places(rows).contains_key(label) implies 0 <= label_places(rows)[label]
            < rows.len() && rows[label_places(rows)[label]].label == label by {
            if label != rows[last].label {
                assert(label_places(front).contains_key(label));
                assert(front[label_places(front)[label]] == rows[label_places(front)[label]]);
            }
        }
    }
}

/// A tree whose labels differ is indexed by them.
proof fn lemma_shape_indexed(rows: Seq<NodeRowView>, bridges: Set<(i64, Seq<char>)>)
    requires
        !labels_repeat(rows),
    ensures
        shape_of_rows(rows, bridges).indexed(),
{
    let shape = shape_of_rows(rows, bridges);
    lemma_label_places(rows);
    assert forall|i: int| 0 <= i < shape.nodes.len() implies shape.index.contains_key(
        (#[trigger] shape.nodes[i]).label,
    ) && shape.index[shape.nodes[i].label] == i by {
        assert(shape.nodes[i].label == rows[i].label);
    }
    assert forall|label: Seq<char>| #[trigger] shape.index.contains_key(label) implies 0
        <= shape.index[label] < shape.nodes.len() && shape.nodes[shape.index[label]].label
        == label by {
        assert(label_places(rows).contains_key(label));
    }
}

/// The rows at the given places of the store.
spec fn rows_at(store: TreeStoreView, at: Seq<usize>) -> Seq<NodeRowView> {
    Seq::new(at.len(), |k: int| store.nodes[at[k] as int])
}

/// The places in the store of the nodes of one secret.
fn places_of_key(store: &TreeStore, key_id: i64) -> (r: Vec<usize>)
    ensures
        rows_at(store@, r@) == key_rows(store@.nodes, key_id),
        forall|k: int| 0 <= k < r@.len() ==> (#[trigger] r@[k]) < store.nodes@.len(),
{
    let mut at: Vec<usize> = Vec::new();
    let mut i: usize = 0;
    proof {
        reveal(Seq::filter);
        assert(store@.nodes.take(0) =~= Seq::<NodeRowView>::empty());
        assert(rows_at(store@, at@) =~= key_rows(store@.nodes.take(0), key_id));
    }
    while i < store.nodes.len()
        invariant
            i <= store.nodes.len(),
            store@.nodes.len() == store.nodes@.len(),
            rows_at(store@, at@) == key_rows(store@.nodes.take(i as int), key_id),
            forall|k: int| 0 <= k < at@.len() ==> (#[trigger] at@[k]) < store.nodes@.len(),
        decreases store.nodes.len() - i,
    {
        let ghost before = at@;
        if store.nodes[i].key_id == key_id {
            at.push(i);
        }
        proof {
            reveal(Seq::filter);
            let longer = store@.nodes.take(i + 1);
            assert(longer.drop_last() =~= store@.nodes.take(i as int));
            assert(longer.last() == store.nodes@[i as int]@);
            if store.nodes@[i as int].key_id == key_id {
                assert(rows_at(store@, at@) =~= rows_at(store@, before).push(longer.last()));
            }
        }
        i += 1;
    }
    assert(store@.nodes.take(i as int) =~= store@.nodes);
    at
}

/// The places of the nodes by their labels, unless two share one.
fn label_index(store: &TreeStore, at: &Vec<usize>) -> (r: Option<StringHashMap<usize>>)
    requires
        forall|k: int| 0 <= k < at@.len() ==> (#[trigger] at@[k]) < store.nodes@.len(),
    ensures
        r is Some <==> !labels_repeat(rows_at(store@, at@)),
        r matches Some(index) ==> index_view(index@) == label_places(rows_at(store@, at@)),
{
    let ghost rows = rows_at(store@, at@);
    let mut index: StringHashMap<usize> = StringHashMap::new();
    let mut i: usize = 0;
    assert(index_view(index@) =~= label_places(rows.take(0)));
    assert(!labels_repeat(rows.take(0)));
    while i < at.len()
        invariant
            i <= at.len(),
            rows == rows_at(store@, at@),
            forall|k: int| 0 <= k < at@.len() ==> (#[trigger] at@[k]) < store.nodes@.len(),
            !labels_repeat(rows.take(i as int)),
            index_view(index@) == label_places(rows.take(i as int)),
        decreases at.len() - i,
    {
        let label = &store.nodes[at[i]].label;
        let ghost seen = rows.take(i as int);
        let ghost next = rows.take(i + 1);
        proof {
            assert(rows[i as int].label == label@);
            assert(next.drop_last() =~= seen);
            lemma_label_places(seen);
            assert(index_view(index@).contains_key(label@) <==> index@.contains_key(label@));
        }
        if index.contains_key(label.as_str()) {
            proof {
                let k = label_places(seen)[label@];
                assert(rows[k] == seen[k]);
                assert(rows[k].label == rows[i as int].label);
            }
            return None;
        }
        let ghost before = index@;
        index.insert(label.clone(), i);
        proof {
            assert(index_view(index@) =~= index_view(before).insert(label@, i as int));
            assert forall|a: int, b: int| 0 <= a < b < next.len() implies (
            #[trigger] next[a]).label != (#[trigger] next[b]).label by {
                assert(next[a] == seen[a]);
                if b < i {
                    assert(next[b] == seen[b]);
                } else {
                    assert(label_places(seen).contains_key(seen[a].label));
                }
            }
        }
        i += 1;
    }
    assert(rows.take(i as int) =~= rows);
    Some(index)
}

fn find_row(store: &TreeStore, at: &Vec<usize>, id: i64) -> (r: Option<usize>)
    requires
        forall|k: int| 0 <= k < at@.len() ==> (#[trigger] at@[k]) < store.nodes@.len(),
        nodes_ordered(rows_at(store@, at@)),
    ensures
        match r {
            Some(i) => i < at@.len() && node_exists(rows_at(store@, at@), id) && i == place_of(
                rows_at(store@, at@),
                id,
            ),
            None => !node_exists(rows_at(store@, at@), id),
        },
{
    let ghost rows = rows_at(store@, at@);
    let mut i: usize = 0;
    while i < at.len()
        invariant
            i <= at.len(),
            rows == rows_at(store@, at@),
            nodes_ordered(rows),
            forall|k: int| 0 <= k < at@.len() ==> (#[trigger] at@[k]) < store.nodes@.len(),
            forall|k: int| 0 <= k < i ==> (#[trigger] rows[k]).id != id,
        decreases at.len() - i,
    {
        assert(rows[i as int] == store.nodes@[at@[i as int] as int]@);
        if store.nodes[at[i]].id == id {
            proof {
                lemma_place_of(rows, i as int);
            }
            return Some(i);
        }
        i += 1;
    }
    None
}

fn children_of(store: &TreeStore, at: &Vec<usize>, id: i64) -> (r: Vec<usize>)
    requires
        forall|k: int| 0 <= k < at@.len() ==> (#[trigger] at@[k]) < store.nodes@.len(),
    ensures
        places(r@) == child_places(rows_at(store@, at@), id),
{
    let ghost rows = rows_at(store@, at@);
    let mut found: Vec<usize> = Vec::new();
    let mut i: usize = 0;
    assert(rows.take(0) =~= Seq::<NodeRowView>::empty());
    assert(places(found@) =~= child_places(rows.take(0), id));
    while i < at.len()
        invariant
            i <= at.len(),
            rows == rows_at(store@, at@),
            forall|k: int| 0 <= k < at@.len() ==> (#[trigger] at@[k]) < store.nodes@.len(),
            places(found@) == child_places(rows.take(i as int), id),
        decreases at.len() - i,
    {
        let ghost before = found@;
        let matching = match store.nodes[at[i]].parent_id {
            Some(p) => p == id,
            None => false,
        };
        if matching {
            found.push(i);
        }
        proof {
            let longer = rows.take(i + 1);
            assert(longer.drop_last() =~= rows.take(i as int));
            assert(longer.last() == store.nodes@[at@[i as int] as int]@);
            if matching {
                assert(places(found@) =~= places(before).push(i as int));
            }
        }
        i += 1;
    }
    assert(rows.take(i as int) =~= rows);
    found
}

pub(crate) fn peers_of(store: &TreeStore, node_id: i64) -> (r: Vec<String>)
    ensures
        text_views(r@).to_set() == Set::new(
            |peer: Seq<char>| store@.bridges.contains((node_id, peer)),
        ),
        bridge_views(store.bridges@).no_duplicates() ==> text_views(r@).no_duplicates(),
{
    let ghost all = bridge_views(store.bridges@);
    let mut found: Vec<String> = Vec::new();
    let mut i: usize = 0;
    while i < store.bridges.len()
        invariant
            i <= store.bridges.len(),
            all == bridge_views(store.bridges@),
            forall|k: int|
                0 <= k < found@.len() ==> all.take(i as int).contains(
                    (node_id, (#[trigger] found@[k])@),
                ),
            forall|k: int|
                0 <= k < i && (#[trigger] all[k]).0 == node_id ==> text_views(found@).contains(
                    all[k].1,
                ),
            all.no_duplicates() ==> text_views(found@).no_duplicates(),
        decreases store.bridges.len() - i,
    {
        let ghost before = found@;
        assert(all[i as int] == store.bridges@[i as int]@);
        if store.bridges[i].node_id == node_id {
            found.push(store.bridges[i].peer_label.clone());
        }
        proof {
            let shorter = all.take(i as int);
            let longer = all.take(i + 1);
            assert(longer =~= shorter.push(all[i as int]));
            assert forall|k: int| 0 <= k < found@.len() implies longer.contains(
                (node_id, (#[trigger] found@[k])@),
            ) by {
                if k < before.len() {
                    assert(found@[k] == before[k]);
                    let m = choose|m: int|
                        0 <= m < shorter.len() && shorter[m] == (node_id, before[k]@);
                    assert(longer[m] == (node_id, found@[k]@));
                } else {
                    assert(longer[i as int] == (node_id, found@[k]@));
                }
            }
            let views = text_views(found@);
            assert forall|k: int| 0 <= k < i + 1 && (#[trigger] all[k]).0
                == node_id implies views.contains(all[k].1) by {
                if k < i {
                    let m = choose|m: int|
                        0 <= m < text_views(before).len() && text_views(before)[m] == all[k].1;
                    assert(views[m] == all[k].1);
                } else {
                    assert(views[found@.len() - 1] == all[k].1);
                }
            }
            if all.no_duplicates() && found@.len() > before.len() {
                assert(views =~= text_views(before).push(all[i as int].1));
                assert(!text_views(before).contains(all[i as int].1)) by {
                    if text_views(before).contains(all[i as int].1) {
                        let m = choose|m: int|
                            0 <= m < text_views(before).len() && text_views(before)[m]
                                == all[i as int].1;
                        assert(shorter.contains((node_id, before[m]@)));
                        let q = choose|q: int|
                            0 <= q < shorter.len() && shorter[q] == (node_id, before[m]@);
                        assert(all[q] == all[i as int]);
                    }
                }
                assert forall|a: int, b: int|
                    0 <= a < views.len() && 0 <= b < views.len() && a != b implies views[a]
                    != views[b] by {
                    let old_views = text_views(before);
                    if a < old_views.len() && b < old_views.len() {
                        assert(old_views[a] != old_views[b]);
                    } else if a < old_views.len() {
                        assert(old_views.contains(old_views[a]));
                    } else {
                        assert(old_views.contains(old_views[b]));
                    }
                }
            }
        }
        i += 1;
    }
    proof {
        assert(all.take(i as int) =~= all);
        let views = text_views(found@);
        let wanted = Set::new(|peer: Seq<char>| store@.bridges.contains((node_id, peer)));
        assert forall|peer: Seq<char>| views.to_set().contains(peer) <==> wanted.contains(peer) by {
            if views.contains(peer) {
                let k = choose|k: int| 0 <= k < views.len() && views[k] == peer;
                assert(all.contains((node_id, found@[k]@)));
            }
            if all.contains((node_id, peer)) {
                let k = choose|k: int| 0 <= k < all.len() && all[k] == (node_id, peer);
                assert(views.contains(all[k].1));
            }
        }
        assert(views.to_set() =~= wanted);
    }
    found
}

impl KeyQuorumTree {
    /// Every node's whitelist holds each peer once.
    pub open spec fn peers_once(self) -> bool {
        forall|i: int|
            0 <= i < self.nodes@.len() ==> text_views(
                (#[trigger] self.nodes@[i]).allowed_bridges@,
            ).no_duplicates()
    }

    /// Loads the tree of a secret.
    pub fn load(store: &TreeStore, key_id: i64) -> (r: Result<KeyQuorumTree, Error>)
        requires
            store.wf(),
        ensures
            match (r, loaded(store@, key_id)) {
                (Ok(tree), Ok(shape)) => tree@ == shape && shape.wf() && shape.indexed()
                    && tree.peers_once(),
                (Err(e), Err(expected)) => e == expected,
                _ => false,
            },
    {
        let at = places_of_key(store, key_id);
        let ghost rows = key_rows(store@.nodes, key_id);
        proof {
            lemma_rows_ordered(store@.nodes, key_id);
        }
        if at.len() == 0 {
            assert(rows.len() == 0);
            return Err(Error::NodeNotFound);
        }
        assert(rows.len() == at@.len());
        let id_to_index = match label_index(store, &at) {
            None => { return Err(Error::DuplicateNodeLabel); },
            Some(index) => index,
        };
        let mut nodes: Vec<KeyNode> = Vec::new();
        let mut i: usize = 0;
        while i < at.len()
            invariant
                i <= at.len(),
                store.wf(),
                rows == key_rows(store@.nodes, key_id),
                rows == rows_at(store@, at@),
                nodes_ordered(rows),
                at@.len() > 0,
                !labels_repeat(rows),
                forall|k: int| 0 <= k < at@.len() ==> (#[trigger] at@[k]) < store.nodes@.len(),
                nodes@.len() == i,
                forall|k: int|
                    0 <= k < i ==> (#[trigger] nodes@[k])@ == shape_of_row(
                        rows,
                        store@.bridges,
                        k,
                    ),
                forall|k: int|
                    0 <= k < i ==> text_views(
                        (#[trigger] nodes@[k]).allowed_bridges@,
                    ).no_duplicates(),
                forall|k: int|
                    0 <= k < i ==> match (#[trigger] rows[k]).parent_id {
                        Some(p) => node_exists(rows, p),
                        None => true,
                    },
            decreases at.len() - i,
        {
            let row = &store.nodes[at[i]];
            assert(rows[i as int] == row@);
            let parent_idx = match row.parent_id {
                None => None,
                Some(parent_id) => {
                    let found = find_row(store, &at, parent_id);
                    match found {
                        None => {
                            assert(parent_missing(rows)) by {
                                assert(rows[i as int].parent_id == Some(parent_id));
                            }
                            return Err(Error::NodeNotFound);
                        },
                        Some(place) => Some(place),
                    }
                },
            };
            let threshold = match row.threshold {
                Some(t) => Some(t as usize),
                None => None,
            };
            let node = KeyNode {
                db_id: row.id,
                id: row.label.clone(),
                parent_idx,
                children_indices: children_of(store, &at, row.id),
                threshold,
                is_active: row.is_active,
                hardware_key_id: row.hardware_key_id,
                allowed_bridges: peers_of(store, row.id),
            };
            assert(node@ =~= shape_of_row(rows, store@.bridges, i as int));
            nodes.push(node);
            i += 1;
        }
        assert(!parent_missing(rows)) by {
            assert forall|k: int| 0 <= k < rows.len() implies match (#[trigger] rows[k]).parent_id {
                Some(p) => node_exists(rows, p),
                None => true,
            } by {}
        }
        proof {
            lemma_shape_wf(rows, store@.bridges);
            lemma_shape_indexed(rows, store@.bridges);
        }
        let tree = KeyQuorumTree { nodes, root_index: 0, id_to_index };
        assert(tree@.nodes =~= shape_of_rows(rows, store@.bridges).nodes);
        Ok(tree)
    }

    /// The place of the node with the given label.
    pub fn index_by_label(&self, label: &str) -> (r: Result<usize, Error>)
        ensures
            match r {
                Ok(i) => self@.index.contains_key(label@) && self@.index[label@] == i,
                Err(e) => e == Error::NodeNotFound && !self@.index.contains_key(label@),
            },
    {
        match self.id_to_index.get(label) {
            Some(place) => Ok(*place),
            None => Err(Error::NodeNotFound),
        }
    }

    /// The place of the node with the given id.
    pub fn index_by_db_id(&self, db_id: i64) -> (r: Result<usize, Error>)
        ensures
            match r {
                Ok(i) => i < self@.nodes.len() && self@.nodes[i as int].db_id == db_id
                    && forall|j: int|
                    0 <= j < i ==> (#[trigger] self@.nodes[j]).db_id != db_id,
                Err(e) => e == Error::NodeNotFound && forall|j: int|
                    0 <= j < self@.nodes.len() ==> (#[trigger] self@.nodes[j]).db_id != db_id,
            },
    {
        let mut i: usize = 0;
        while i < self.nodes.len()
            invariant
                i <= self.nodes.len(),
                forall|j: int| 0 <= j < i ==> (#[trigger] self@.nodes[j]).db_id != db_id,
            decreases self.nodes.len() - i,
        {
            assert(self@.nodes[i as int] == self.nodes@[i as int]@);
            if self.nodes[i].db_id == db_id {
                return Ok(i);
            }
            i += 1;
        }
        Err(Error::NodeNotFound)
    }
}

} // verus!
