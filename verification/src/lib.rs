//! Recursive quorum splitting of secrets.

use vstd::prelude::*;

pub mod error;
pub mod bytes;
pub mod clock;
pub mod seqs;
pub mod text;
pub mod numbers;
pub mod shamir;
pub mod pss;
pub mod sealing;
pub mod encoding;
pub mod crypto;
pub mod signing;
pub mod pin;
pub mod vault;
pub mod locked_files;
pub mod sharing;
pub mod keys;
pub mod key_tree;
pub mod quorum;
pub mod export;
pub mod relay;
pub mod provider;
pub mod cli;

verus! {

} // verus!
