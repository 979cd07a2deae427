//! Conflict-resolution core of a distributed, hierarchical, path-addressable
//! data store: a tree of nested key-value maps kept consistent across
//! independently updating replicas using logical timestamps.

pub mod data;
pub mod laws;
pub mod merge;
pub mod node;
pub mod path;
pub mod read;
pub mod update;
pub mod value;
pub mod vis;
