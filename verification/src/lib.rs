//! Structural duplicate-function detection: discovery rules, syntax-tree
//! normalization, fingerprinting and clustering.

pub mod text;
pub mod lines;
pub mod lang;
pub mod walk;
pub mod union_find;
pub mod graph;
pub mod extract;
pub mod order;
pub mod cluster;
pub mod syntax;
pub mod normalize;
pub mod fingerprint;
pub mod queries;
