//! Near-duplicate image detection: fingerprints, similarity scores, a banded
//! candidate index and union-find grouping, with machine-checked contracts.

pub mod types;
pub mod utils;
pub mod algorithms;
pub mod detection;
pub mod api;
