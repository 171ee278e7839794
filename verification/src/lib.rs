//! Fuzzy vote tallying.
//!
//! Resolves free-text nominations against a fixed catalog of named entities
//! despite misspellings and nicknames, then tallies counts per entity.
//! The catalog is closed-world: every token is force-matched to some entity.
#![verifier::loop_isolation(false)]

pub mod catalog;
pub mod distance;
pub mod pipeline;
pub mod report;
pub mod resolver;
pub mod similarity;
pub mod tally;
pub mod text;
