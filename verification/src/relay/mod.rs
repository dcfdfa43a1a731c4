//! The online mailbox: what it keeps of trees, who may use it, and how clients
//! speak to it.
//!
//! The relay only transports. It never opens an envelope and holds neither
//! shares nor private keys.

use vstd::prelude::*;

pub mod public_tree;
pub mod visibility;
pub mod org_tree;
pub mod api_key;
pub mod mailbox;
pub mod licensee;
pub mod client;
pub mod credential;
pub mod server;
pub mod register;

pub use api_key::{
    authenticate, bootstrap_admin_if_empty, check_hash, check_token, hash_bearer, ApiKeyInfo,
    ApiKeyScope, ApiKeys, AuthedKey, CreatedApiKey, KeyCheck, NewApiKey,
};
pub use client::{InboxAccepted, InboxEnvelope, InboxList};
pub use licensee::{
    authenticate_licensee, authorize_licensee_or_bootstrap, bootstrap_licensee_if_empty,
    CreatedLicensee, Licensees,
};
pub use mailbox::{list_after, store, Mailbox, StoredEnvelope};
pub use org_tree::{
    context_for_fingerprint, contexts_for_fingerprint, get_public_tree, put_public_tree, OrgTrees,
};
pub use server::MAX_ENVELOPE_BYTES;

verus! {

} // verus!
