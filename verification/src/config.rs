//! The persisted configuration: the store of violation budgets.

pub mod counts;
pub mod tables;

pub use counts::CountsManager;
pub use tables::ParseError;
