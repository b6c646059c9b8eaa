//! Entry points that a command line or a version-control integration calls.

pub mod merge_driver;
