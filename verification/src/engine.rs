//! Turning raw violations into a verdict.

pub mod aggregator;

pub use aggregator::{AggregationResult, RuleRegionStatus, ViolationAggregator};
