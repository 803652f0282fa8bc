//! Prediction of protein complexes in a protein–protein interaction network.
//!
//! The library fuses topological graph structure with functional similarity
//! derived from a Gene-Ontology term hierarchy, then extracts cohesive,
//! minimally redundant modules.  All real-valued scores are carried as
//! fixed-point integers or as exact integer ratios (see [`fixed`]), so every
//! computation is deterministic and verified.

pub mod bimap;
pub mod cen;
pub mod dag;
pub mod errors;
pub mod eva;
pub mod fixed;
pub mod graph;
pub mod matrix;
pub mod options;
pub mod pcegs;
pub mod union_find;
