//! Progressive lint enforcement: a codebase may keep the violations it already
//! has while being prevented from gaining new ones.
//!
//! The core is a path-scoped store of per-rule violation budgets, the
//! resolution of the budget that applies to a file, the aggregation of raw
//! violations into a verdict, and a minimum-wins merge of two stores.

pub mod cli;
pub mod config;
pub mod engine;
pub mod keys;
pub mod output;
pub mod rules;
pub mod text;
pub mod types;
