//! Candidate generation, grouping and result assembly.

pub mod completeness;
pub mod disjoint_set;
pub mod duplicate;
pub mod graph;
pub mod theorems;
pub mod lsh;
pub mod result_theorems;
