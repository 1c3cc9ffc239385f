//! Working with GitHub CODEOWNERS files: parsing the file's lines,
//! resolving owners, explaining matches and diffing ownership.
pub mod text;
pub mod owners;
pub mod rules;
pub mod order;
pub mod api;
pub mod cli;
pub mod laws;

pub use api::{explain_owners, get_diff, get_owners, GitRef, MatchingRule, OwnersDiff};
