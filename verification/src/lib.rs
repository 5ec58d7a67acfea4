//! Shape-directed property census over tree-shaped configuration documents.
//!
//! A short shape code such as `"SR"` is compiled into a dotted field path,
//! the direct properties of the resources found at that path are tallied,
//! and the most frequent property names are turned into a refined filter.

pub mod block;
pub mod filter;
pub mod frequency;
pub mod query;
pub mod ranking;
pub mod shape;
