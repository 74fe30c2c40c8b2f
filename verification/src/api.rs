//! The shapes of requests and answers.

use vstd::prelude::*;
use vstd::string::StringExecFns;
use crate::types::{DetectionError, DuplicateDetectionRequest, HashAlgorithm};

verus! {

/// The largest similarity threshold, in percent.
pub const MAX_THRESHOLD: u32 = 100;

/// What a detection run would work on.
#[derive(Debug, Clone)]
pub struct DetectionStats {
    /// The number of images found.
    pub image_count: usize,
    /// The number of folders searched.
    pub folder_count: usize,
    /// The name of the algorithm.
    pub algorithm: String,
    /// The similarity threshold in percent.
    pub similarity_threshold: u32,
}

/// What a folder holds.
#[derive(Debug, Clone, Copy, PartialEq, Eq, Structural)]
pub struct FolderStats {
    /// The number of files.
    pub total_files: usize,
    /// The number of image files.
    pub image_count: usize,
    /// The number of folders, the folder itself included.
    pub folder_count: usize,
}

/// `n + 1`, or `usize::MAX` where that does not fit.
pub open spec fn bump(n: usize) -> usize {
    if n < usize::MAX {
        (n + 1) as usize
    } else {
        n
    }
}

impl FolderStats {
    /// The statistics of a folder before any of its entries is counted: the
    /// folder itself, and nothing else.
    pub fn new() -> (stats: FolderStats)
        ensures
            stats == (FolderStats { total_files: 0, image_count: 0, folder_count: 1 }),
    {
        FolderStats { total_files: 0, image_count: 0, folder_count: 1 }
    }

    /// Counts one file, and counts it as an image if it is one.
    pub fn record_file(&mut self, is_image: bool)
        ensures
            final(self).total_files == bump(old(self).total_files),
            final(self).image_count == if is_image {
                bump(old(self).image_count)
            } else {
                old(self).image_count
            },
            final(self).folder_count == old(self).folder_count,
    {
        if self.total_files < usize::MAX {
            self.total_files = self.total_files + 1;
        }
        if is_image && self.image_count < usize::MAX {
            self.image_count = self.image_count + 1;
        }
    }

    /// Counts one subfolder.
    pub fn record_folder(&mut self)
        ensures
            final(self).folder_count == bump(old(self).folder_count),
            final(self).total_files == old(self).total_files,
            final(self).image_count == old(self).image_count,
    {
        if self.folder_count < usize::MAX {
            self.folder_count = self.folder_count + 1;
        }
    }
}

/// Returns the names of the supported algorithms: exact, average,
/// difference, perceptual and keypoint, in that order.
pub fn get_supported_algorithms() -> (names: Vec<String>)
    ensures
        names@.len() == 5,
        names@[0]@ == HashAlgorithm::Exact.spec_name(),
        names@[1]@ == HashAlgorithm::Average.spec_name(),
        names@[2]@ == HashAlgorithm::Difference.spec_name(),
        names@[3]@ == HashAlgorithm::Perceptual.spec_name(),
        names@[4]@ == HashAlgorithm::ORB.spec_name(),
{
    let mut names: Vec<String> = Vec::new();
    names.push(String::from_str(HashAlgorithm::Exact.name()));
    names.push(String::from_str(HashAlgorithm::Average.name()));
    names.push(String::from_str(HashAlgorithm::Difference.name()));
    names.push(String::from_str(HashAlgorithm::Perceptual.name()));
    names.push(String::from_str(HashAlgorithm::ORB.name()));
    names
}

/// Checks a request: a threshold above 100 percent is invalid input.
pub fn validate_request(req: &DuplicateDetectionRequest) -> (result: Result<(), DetectionError>)
    ensures
        result is Err <==> req.similarity_threshold > 100,
        result is Err ==> result->Err_0 == DetectionError::InvalidInput,
{
    if req.similarity_threshold > MAX_THRESHOLD {
        Err(DetectionError::InvalidInput)
    } else {
        Ok(())
    }
}

/// Describes what a request would work on, given the number of images found
/// below its folders.
pub fn get_detection_stats(req: &DuplicateDetectionRequest, image_count: usize) -> (stats:
    DetectionStats)
    ensures
        stats.image_count == image_count,
        stats.folder_count == req.folder_paths@.len(),
        stats.algorithm@ == req.algorithm.spec_name(),
        stats.similarity_threshold == req.similarity_threshold,
{
    DetectionStats {
        image_count,
        folder_count: req.folder_paths.len(),
        algorithm: String::from_str(req.algorithm.name()),
        similarity_threshold: req.similarity_threshold,
    }
}

} // verus!
