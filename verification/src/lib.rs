//! Bottom-up, parallel removal of a directory tree: the dependency broker, the
//! worker state machine, tree discovery and the pre-flight safety check.

pub mod broker;
pub mod channel;
pub mod model;
pub mod order;
pub mod safety;
pub mod scan;
pub mod schedule;
pub mod tables;
pub mod text;
pub mod tree;
pub mod wide;
pub mod worker;
