//! Who may act as a provider, and on which networks.

use vstd::prelude::*;

pub mod address;
pub mod policy;
pub mod network;
pub mod root_network;

verus! {

} // verus!
