//! Recursive key splitting.
//!
//! A secret is organised as a tree of nodes. A leaf holds a share sealed to
//! one registered encryption key. A split has a threshold of its own and
//! divides its value among its children. A flat quorum of hardware keys is a
//! tree of one level.

use vstd::prelude::*;

pub mod spec;
pub mod store;
pub mod tree;
pub mod reconstruct;
pub mod ancestry;
pub mod holding;
pub mod split;
pub mod asked;
pub mod laws;
pub mod bridges;
pub mod pairing;
pub mod mutate;
pub mod grow;
pub mod evict;
pub mod changes;
pub mod upkeep;
pub mod genuine;
pub mod snapshot;
pub mod listing;
pub mod publish;
pub mod shown;

pub use bridges::{
    add_bridge, allow_bridge, bind_all_sibling_leaf_pairs, bind_leaf_to_active_siblings, bind_pair,
    deny_bridge, remove_bridge,
};
pub use evict::evict_and_refresh;
pub use grow::add_leaf_and_reshare;
pub use listing::{
    active_leaves_for_hardware, describe, drop_bindings_for_hardware, export_spec, list_bridges,
    list_trees, BridgeListing, EstablishedBridge, HardwareLeafRef, TreeListing, TreeNodeSummary,
    TreeSummary,
};
pub use mutate::{rebind_leaf, unwrap_leaf_share};
pub use publish::{export_public_tree, visible_labels};
pub use reconstruct::{reconstruct, reconstruct_from_lca};
pub use spec::{validate, NodeSpec};
pub use split::split;
pub use store::TreeStore;
pub use tree::KeyQuorumTree;

verus! {

} // verus!
