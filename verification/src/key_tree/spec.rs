//! The shape that a tree is asked to have.

use vstd::prelude::*;

use crate::error::{fault_of, Error};
use crate::keys::{active_encryption_key, get_active_encryption_key, registry_wf, HardwareKeyView,
    KeyRegistry};
use crate::text::{contains_text, text_equal, text_views};

verus! {

/// A node as it is asked for: a leaf that is sealed to a hardware key, or a
/// split that divides its value among its children.
#[derive(Debug)]
pub enum NodeSpec {
    Leaf { label: String, hardware_key_id: i64, allowed_bridges: Vec<String> },
    Split { label: String, threshold: u8, children: Vec<NodeSpec>, allowed_bridges: Vec<String> },
}

impl NodeSpec {
    pub open spec fn label_view(self) -> Seq<char> {
        match self {
            NodeSpec::Leaf { label, .. } => label@,
            NodeSpec::Split { label, .. } => label@,
        }
    }

    pub open spec fn bridges_view(self) -> Seq<Seq<char>> {
        match self {
            NodeSpec::Leaf { allowed_bridges, .. } => text_views(allowed_bridges@),
            NodeSpec::Split { allowed_bridges, .. } => text_views(allowed_bridges@),
        }
    }

    pub open spec fn children_view(self) -> Seq<NodeSpec> {
        match self {
            NodeSpec::Leaf { .. } => Seq::empty(),
            NodeSpec::Split { children, .. } => children@,
        }
    }

    pub fn label(&self) -> (r: &str)
        ensures
            r@ == self.label_view(),
    {
        match self {
            NodeSpec::Leaf { label, .. } => label.as_str(),
            NodeSpec::Split { label, .. } => label.as_str(),
        }
    }

    pub fn allowed_bridges(&self) -> (r: &Vec<String>)
        ensures
            text_views(r@) == self.bridges_view(),
    {
        match self {
            NodeSpec::Leaf { allowed_bridges, .. } => allowed_bridges,
            NodeSpec::Split { allowed_bridges, .. } => allowed_bridges,
        }
    }

    /// A split of one level: each leaf is a label and a hardware key.
    pub fn flat_split(root: String, threshold: u8, leaves: Vec<(String, i64)>) -> (r: NodeSpec)
        ensures
            r matches NodeSpec::Split { label, threshold: t, children, allowed_bridges } && {
                &&& label == root
                &&& t == threshold
                &&& allowed_bridges@.len() == 0
                &&& children@.len() == leaves@.len()
                &&& forall|i: int|
                    0 <= i < leaves@.len() ==> is_bare_leaf(
                        #[trigger] children@[i],
                        leaves@[i].0,
                        leaves@[i].1,
                    )
            },
    {
        let mut children: Vec<NodeSpec> = Vec::new();
        for leaf in it: leaves.into_iter()
            invariant
                it.seq() == leaves@,
                children@.len() == it.index(),
                forall|i: int|
                    0 <= i < it.index() ==> is_bare_leaf(
                        #[trigger] children@[i],
                        leaves@[i].0,
                        leaves@[i].1,
                    ),
        {
            children.push(
                NodeSpec::Leaf {
                    label: leaf.0,
                    hardware_key_id: leaf.1,
                    allowed_bridges: Vec::new(),
                },
            );
        }
        NodeSpec::Split { label: root, threshold, children, allowed_bridges: Vec::new() }
    }
}

/// A leaf with the given label and key that whitelists nobody.
pub open spec fn is_bare_leaf(spec: NodeSpec, leaf_label: String, key_id: i64) -> bool {
    match spec {
        NodeSpec::Leaf { label, hardware_key_id, allowed_bridges } => label == leaf_label
            && hardware_key_id == key_id && allowed_bridges@.len() == 0,
        NodeSpec::Split { .. } => false,
    }
}

/// The labels of a spec, a node before its children and these in order.
pub open spec fn spec_labels(spec: NodeSpec) -> Seq<Seq<char>>
    decreases spec, spec.children_view().len() + 1,
{
    seq![spec.label_view()] + children_labels(spec, spec.children_view().len())
}

/// The labels below the first `n` children of a spec.
pub open spec fn children_labels(spec: NodeSpec, n: nat) -> Seq<Seq<char>>
    decreases spec, n,
    when n <= spec.children_view().len()
{
    if n == 0 {
        Seq::empty()
    } else {
        children_labels(spec, (n - 1) as nat) + spec_labels(spec.children_view()[n - 1])
    }
}

/// Thresholds fit the children, and leaves name active encryption keys. The
/// first fault from the root downwards decides.
pub open spec fn node_fault(keys: Seq<HardwareKeyView>, spec: NodeSpec) -> Option<Error>
    decreases spec, spec.children_view().len() + 1,
{
    match spec {
        NodeSpec::Leaf { hardware_key_id, .. } => fault_of(
            active_encryption_key(keys, hardware_key_id),
        ),
        NodeSpec::Split { threshold, children, .. } => if children@.len() == 0 || threshold == 0
            || threshold > children@.len() || children@.len() > 255 {
            Some(Error::InvalidQuorumThreshold)
        } else {
            children_fault(keys, spec, spec.children_view().len())
        },
    }
}

/// The first fault among the first `n` children.
pub open spec fn children_fault(keys: Seq<HardwareKeyView>, spec: NodeSpec, n: nat) -> Option<Error>
    decreases spec, n,
    when n <= spec.children_view().len()
{
    if n == 0 {
        None
    } else {
        match children_fault(keys, spec, (n - 1) as nat) {
            Some(e) => Some(e),
            None => node_fault(keys, spec.children_view()[n - 1]),
        }
    }
}

/// Every label is there, and none occurs twice.
pub open spec fn labels_distinct(labels: Seq<Seq<char>>) -> bool {
    &&& labels.no_duplicates()
    &&& forall|i: int| 0 <= i < labels.len() ==> (#[trigger] labels[i]).len() > 0
}

/// Each whitelisted peer is another node of the tree.
pub open spec fn bridges_sound(spec: NodeSpec, labels: Seq<Seq<char>>) -> bool
    decreases spec, spec.children_view().len() + 1,
{
    &&& peers_sound(spec.bridges_view(), spec.label_view(), labels)
    &&& children_bridges_sound(spec, labels, spec.children_view().len())
}

pub open spec fn peers_sound(
    peers: Seq<Seq<char>>,
    label: Seq<char>,
    labels: Seq<Seq<char>>,
) -> bool {
    forall|i: int|
        0 <= i < peers.len() ==> (#[trigger] peers[i]) != label && labels.contains(peers[i])
}

pub open spec fn children_bridges_sound(spec: NodeSpec, labels: Seq<Seq<char>>, n: nat) -> bool
    decreases spec, n,
    when n <= spec.children_view().len()
{
    n == 0 || (children_bridges_sound(spec, labels, (n - 1) as nat) && bridges_sound(
        spec.children_view()[n - 1],
        labels,
    ))
}

/// Why a spec cannot be split, if it cannot.
pub open spec fn spec_fault(keys: Seq<HardwareKeyView>, spec: NodeSpec) -> Option<Error> {
    match node_fault(keys, spec) {
        Some(e) => Some(e),
        None => if !labels_distinct(spec_labels(spec)) {
            Some(Error::DuplicateNodeLabel)
        } else if !bridges_sound(spec, spec_labels(spec)) {
            Some(Error::InvalidBridge)
        } else {
            None
        },
    }
}

fn validate_node(registry: &KeyRegistry, spec: &NodeSpec) -> (r: Result<(), Error>)
    requires
        registry_wf(registry@),
    ensures
        fault_of(r) == node_fault(registry@, *spec),
    decreases spec,
{
    match spec {
        NodeSpec::Leaf { hardware_key_id, .. } => {
            match get_active_encryption_key(registry, *hardware_key_id) {
                Ok(_) => Ok(()),
                Err(e) => Err(e),
            }
        },
        NodeSpec::Split { threshold, children, .. } => {
            if children.len() == 0 || *threshold == 0 || (*threshold as usize) > children.len()
                || children.len() > 255 {
                return Err(Error::InvalidQuorumThreshold);
            }
            let mut i: usize = 0;
            while i < children.len()
                invariant
                    i <= children.len(),
                    registry_wf(registry@),
                    children@ == spec.children_view(),
                    children_fault(registry@, *spec, i as nat) is None,
                    node_fault(registry@, *spec) == children_fault(
                        registry@,
                        *spec,
                        children@.len(),
                    ),
                decreases children.len() - i,
            {
                assert(decreases_to!(spec => children@[i as int]));
                let checked = validate_node(registry, &children[i]);
                match checked {
                    Ok(()) => {},
                    Err(e) => {
                        proof {
                            lemma_first_fault_decides(registry@, *spec, (i + 1) as nat);
                        }
                        return Err(e);
                    },
                }
                i += 1;
            }
            Ok(())
        },
    }
}

proof fn lemma_first_fault_decides(keys: Seq<HardwareKeyView>, spec: NodeSpec, n: nat)
    requires
        n <= spec.children_view().len(),
        children_fault(keys, spec, n) is Some,
    ensures
        children_fault(keys, spec, spec.children_view().len()) == children_fault(keys, spec, n),
    decreases spec.children_view().len() - n,
{
    if n < spec.children_view().len() {
        lemma_first_fault_decides(keys, spec, n + 1);
    }
}

fn collect_labels(spec: &NodeSpec, seen: &mut Vec<String>) -> (r: Result<(), Error>)
    requires
        labels_distinct(text_views(old(seen)@)),
    ensures
        r is Ok <==> labels_distinct(text_views(old(seen)@) + spec_labels(*spec)),
        r is Ok ==> text_views(final(seen)@) == text_views(old(seen)@) + spec_labels(*spec),
        r matches Err(e) ==> e == Error::DuplicateNodeLabel,
    decreases spec,
{
    let ghost before = text_views(seen@);
    let label = spec.label();
    if label.is_empty() || contains_text(seen, label) {
        proof {
            let all = before + spec_labels(*spec);
            assert(all[before.len() as int] == label@);
            if before.contains(label@) {
                let k = choose|k: int| 0 <= k < before.len() && before[k] == label@;
                assert(all[k] == label@);
            }
        }
        return Err(Error::DuplicateNodeLabel);
    }
    seen.push(label.to_owned());
    proof {
        assert(text_views(seen@) =~= before.push(label@));
        assert(before + seq![label@] =~= before.push(label@));
        assert(children_labels(*spec, 0) =~= Seq::<Seq<char>>::empty());
        assert(text_views(seen@) =~= before + (seq![label@] + children_labels(*spec, 0)));
        lemma_push_keeps_distinct(before, label@);
    }
    match spec {
        NodeSpec::Leaf { .. } => Ok(()),
        NodeSpec::Split { children, .. } => {
            let mut i: usize = 0;
            while i < children.len()
                invariant
                    i <= children.len(),
                    before == text_views(old(seen)@),
                    children@ == spec.children_view(),
                    text_views(seen@) == before + (seq![spec.label_view()] + children_labels(
                        *spec,
                        i as nat,
                    )),
                    labels_distinct(text_views(seen@)),
                decreases children.len() - i,
            {
                assert(decreases_to!(spec => children@[i as int]));
                let ghost done = text_views(seen@);
                let collected = collect_labels(&children[i], seen);
                proof {
                    assert(done + spec_labels(children@[i as int]) =~= before + (
                    seq![spec.label_view()] + children_labels(*spec, (i + 1) as nat)));
                }
                match collected {
                    Ok(()) => {},
                    Err(e) => {
                        proof {
                            lemma_more_labels_stay_indistinct(before, *spec, (i + 1) as nat);
                        }
                        return Err(e);
                    },
                }
                i += 1;
            }
            Ok(())
        },
    }
}

proof fn lemma_push_keeps_distinct(labels: Seq<Seq<char>>, label: Seq<char>)
    requires
        labels_distinct(labels),
        label.len() > 0,
        !labels.contains(label),
    ensures
        labels_distinct(labels.push(label)),
{
    let more = labels.push(label);
    assert forall|i: int, j: int| 0 <= i < more.len() && 0 <= j < more.len() && i != j implies more[i]
        != more[j] by {
        if i < labels.len() && j < labels.len() {
        } else if i < labels.len() {
            assert(labels.contains(labels[i]));
        } else {
            assert(labels.contains(labels[j]));
        }
    }
}

proof fn lemma_prefix_indistinct(labels: Seq<Seq<char>>, tail: Seq<Seq<char>>)
    requires
        !labels_distinct(labels),
    ensures
        !labels_distinct(labels + tail),
{
    let all = labels + tail;
    if labels_distinct(all) {
        assert forall|i: int, j: int|
            0 <= i < labels.len() && 0 <= j < labels.len() && i != j implies labels[i]
            != labels[j] by {
            assert(all[i] == labels[i] && all[j] == labels[j]);
        }
        assert forall|i: int| 0 <= i < labels.len() implies (#[trigger] labels[i]).len() > 0 by {
            assert(all[i] == labels[i]);
        }
    }
}

proof fn lemma_more_labels_stay_indistinct(before: Seq<Seq<char>>, spec: NodeSpec, n: nat)
    requires
        n <= spec.children_view().len(),
        !labels_distinct(before + (seq![spec.label_view()] + children_labels(spec, n))),
    ensures
        !labels_distinct(before + spec_labels(spec)),
    decreases spec.children_view().len() - n,
{
    if n < spec.children_view().len() {
        let head = before + (seq![spec.label_view()] + children_labels(spec, n));
        let tail = spec_labels(spec.children_view()[n as int]);
        lemma_prefix_indistinct(head, tail);
        assert(head + tail =~= before + (seq![spec.label_view()] + children_labels(spec, n + 1)));
        lemma_more_labels_stay_indistinct(before, spec, n + 1);
    }
}

fn validate_bridges(spec: &NodeSpec, labels: &Vec<String>) -> (r: Result<(), Error>)
    ensures
        r is Ok <==> bridges_sound(*spec, text_views(labels@)),
        r matches Err(e) ==> e == Error::InvalidBridge,
    decreases spec,
{
    let peers = spec.allowed_bridges();
    let ghost known = text_views(labels@);
    let mut i: usize = 0;
    while i < peers.len()
        invariant
            i <= peers.len(),
            known == text_views(labels@),
            text_views(peers@) == spec.bridges_view(),
            forall|k: int|
                0 <= k < i ==> (#[trigger] text_views(peers@)[k]) != spec.label_view()
                    && known.contains(text_views(peers@)[k]),
        decreases peers.len() - i,
    {
        let peer = peers[i].as_str();
        assert(text_views(peers@)[i as int] == peer@);
        if text_equal(peer, spec.label()) || !contains_text(labels, peer) {
            return Err(Error::InvalidBridge);
        }
        i += 1;
    }
    match spec {
        NodeSpec::Leaf { .. } => Ok(()),
        NodeSpec::Split { children, .. } => {
            let mut c: usize = 0;
            while c < children.len()
                invariant
                    c <= children.len(),
                    known == text_views(labels@),
                    children@ == spec.children_view(),
                    children_bridges_sound(*spec, known, c as nat),
                decreases children.len() - c,
            {
                assert(decreases_to!(spec => children@[c as int]));
                let sound = validate_bridges(&children[c], labels);
                match sound {
                    Ok(()) => {},
                    Err(e) => {
                        proof {
                            lemma_unsound_child(*spec, known, (c + 1) as nat);
                        }
                        return Err(e);
                    },
                }
                c += 1;
            }
            Ok(())
        },
    }
}

proof fn lemma_unsound_child(spec: NodeSpec, labels: Seq<Seq<char>>, n: nat)
    requires
        n <= spec.children_view().len(),
        !children_bridges_sound(spec, labels, n),
    ensures
        !children_bridges_sound(spec, labels, spec.children_view().len()),
    decreases spec.children_view().len() - n,
{
    if n < spec.children_view().len() {
        lemma_unsound_child(spec, labels, n + 1);
    }
}

/// Every threshold is between one and the number of children, every leaf names
/// an active encryption key, labels are there and unique within the tree, and
/// whitelisted peers are other nodes of the same spec.
pub fn validate(registry: &KeyRegistry, spec: &NodeSpec) -> (r: Result<(), Error>)
    requires
        registry_wf(registry@),
    ensures
        fault_of(r) == spec_fault(registry@, *spec),
{
    match validate_node(registry, spec) {
        Ok(()) => {},
        Err(e) => { return Err(e); },
    }
    let mut labels: Vec<String> = Vec::new();
    assert(text_views(labels@) + spec_labels(*spec) =~= spec_labels(*spec));
    match collect_labels(spec, &mut labels) {
        Ok(()) => {},
        Err(e) => { return Err(e); },
    }
    assert(text_views(labels@) =~= spec_labels(*spec));
    validate_bridges(spec, &labels)
}

} // verus!
