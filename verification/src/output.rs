//! Rendering of an aggregation: as lines of JSON for machines, and as text
//! with styles for people.

pub mod human;
pub mod jsonl;
pub mod sorting;

pub use human::HumanFormatter;
pub use jsonl::JsonlFormatter;
