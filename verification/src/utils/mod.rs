//! Helpers for text, files, fingerprint strings and pixel buffers.

pub mod arith;
pub mod ranking;
pub mod text;
pub mod file_utils;
pub mod hamming;
pub mod hash_utils;
pub mod image_utils;
