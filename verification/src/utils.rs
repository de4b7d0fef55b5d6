pub mod id;
pub mod disjoint_sets;
pub mod environment;
pub mod format;
pub mod loc;
pub mod error;
