//! Builds, filters and orders a display tree of path-qualified entries.

pub mod bind;
pub mod builder;
pub mod entry;
pub mod model;
pub mod order;
pub mod prune;
pub mod sort;
pub mod tree;
