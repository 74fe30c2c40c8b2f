//! Oriented FAST keypoints with rotated BRIEF descriptors: detection,
//! description, the payload codec and descriptor matching.

pub mod fast;
pub mod codec;
pub mod matching;
pub mod describe;
