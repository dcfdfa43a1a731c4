//! The command line: its grammar, and what its commands decide and print.

pub mod verbs;
pub mod grammar;
pub mod accepted;
pub mod help;
pub mod lines;
pub mod share;
pub mod trees;
pub mod host;
pub mod access;
