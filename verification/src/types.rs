//! Plain data shared by every stage of the detection pipeline.

use vstd::prelude::*;

pub mod compact_hash;

verus! {

/// The fingerprint algorithms that the library knows.
#[derive(Debug, Clone, Copy, PartialEq, Eq, Structural)]
pub enum HashAlgorithm {
    /// SHA-256 of the decoded pixel bytes.
    Exact,
    /// Average hash over an 8x8 grayscale thumbnail.
    Average,
    /// Difference hash over a 9x8 grayscale thumbnail.
    Difference,
    /// Perceptual hash from the low frequencies of a 2-D cosine transform.
    Perceptual,
    /// Oriented FAST keypoints with rotated BRIEF descriptors.
    ORB,
}

impl HashAlgorithm {
    /// The display name of the algorithm, as a sequence of characters.
    pub open spec fn spec_name(self) -> Seq<char> {
        match self {
            HashAlgorithm::Exact => "精确哈希"@,
            HashAlgorithm::Average => "均值哈希"@,
            HashAlgorithm::Difference => "差值哈希"@,
            HashAlgorithm::Perceptual => "感知哈希"@,
            HashAlgorithm::ORB => "ORB特征"@,
        }
    }

    /// Returns the display name of the algorithm.
    pub fn name(&self) -> (name: &'static str)
        ensures
            name@ == self.spec_name(),
    {
        match self {
            HashAlgorithm::Exact => "精确哈希",
            HashAlgorithm::Average => "均值哈希",
            HashAlgorithm::Difference => "差值哈希",
            HashAlgorithm::Perceptual => "感知哈希",
            HashAlgorithm::ORB => "ORB特征",
        }
    }

    /// True for the algorithm that compares keypoint descriptors rather than
    /// fixed-length bit strings.
    pub fn is_feature_based(&self) -> (b: bool)
        ensures
            b == (*self == HashAlgorithm::ORB),
    {
        matches!(self, HashAlgorithm::ORB)
    }
}

/// What is known of one image of a duplicate group.
#[derive(Debug, Clone)]
pub struct ImageInfo {
    /// Path of the image file.
    pub path: String,
    /// The fingerprint text.
    pub hash: String,
    /// Width of the image.
    pub width: u32,
    /// Height of the image.
    pub height: u32,
    /// Size of the file in bytes.
    pub size_bytes: u64,
    /// Creation time, seconds since the epoch as decimal text.
    pub created_at: String,
    /// Modification time, seconds since the epoch as decimal text.
    pub modified_at: String,
}

/// What `ImageInfo` holds, as plain values.
pub struct ImageInfoModel {
    pub path: Seq<char>,
    pub hash: Seq<char>,
    pub width: u32,
    pub height: u32,
    pub size_bytes: u64,
    pub created_at: Seq<char>,
    pub modified_at: Seq<char>,
}

impl View for ImageInfo {
    type V = ImageInfoModel;

    open spec fn view(&self) -> ImageInfoModel {
        ImageInfoModel {
            path: self.path@,
            hash: self.hash@,
            width: self.width,
            height: self.height,
            size_bytes: self.size_bytes,
            created_at: self.created_at@,
            modified_at: self.modified_at@,
        }
    }
}

/// Size and time stamps of a file.
#[derive(Debug, Clone)]
pub struct FileMetadata {
    /// Size of the file in bytes.
    pub size_bytes: u64,
    /// Creation time, seconds since the epoch as decimal text.
    pub created_at: String,
    /// Modification time, seconds since the epoch as decimal text.
    pub modified_at: String,
}

/// A group of images that are duplicates of one another, directly or through
/// other members of the group.
#[derive(Debug, Clone)]
pub struct DuplicateGroup {
    /// The images of the group, at least two.
    pub images: Vec<ImageInfo>,
    /// The similarity threshold, in percent, under which the group was
    /// formed.
    pub similarity_threshold: u32,
}

/// A request for the fingerprint of one image.
#[derive(Debug, Clone)]
pub struct HashRequest {
    /// Path of the image file.
    pub path: String,
    /// The algorithm to use.
    pub algorithm: HashAlgorithm,
}

/// A request for the similarity of two fingerprints.
#[derive(Debug, Clone)]
pub struct SimilarityRequest {
    /// The first fingerprint.
    pub hash1: String,
    /// The second fingerprint.
    pub hash2: String,
    /// The algorithm that made both.
    pub algorithm: HashAlgorithm,
}

/// A request to find the duplicates below a list of folders.
#[derive(Debug, Clone)]
pub struct DuplicateDetectionRequest {
    /// The folders to search.
    pub folder_paths: Vec<String>,
    /// The algorithm to use.
    pub algorithm: HashAlgorithm,
    /// The similarity threshold in percent, from 0 to 100.
    pub similarity_threshold: u32,
    /// Whether to search subfolders too.
    pub recursive: bool,
}

/// A fingerprint together with the dimensions of the image it was made from.
#[derive(Debug, Clone)]
pub struct HashResult {
    /// The fingerprint text.
    pub hash: String,
    /// Width of the image as decoded.
    pub width: u32,
    /// Height of the image as decoded.
    pub height: u32,
}

/// The ways in which a detection request, or one step of it, can fail.
#[derive(Debug, Clone, Copy, PartialEq, Eq, Structural)]
pub enum DetectionError {
    /// A file could not be opened, decoded, or its metadata read.
    IoError,
    /// A folder does not exist or is no directory, or the threshold is out of
    /// range.
    InvalidInput,
    /// The image is smaller than the keypoint detector accepts.
    ImageTooSmall,
    /// The keypoint detector found no keypoint.
    NoFeatures,
    /// A keypoint payload is malformed: bad Base64, truncated, or its count
    /// does not fit the bytes that follow.
    CodecError,
    /// An internal invariant does not hold, such as path and fingerprint lists
    /// of different lengths.
    InternalError,
}

impl DetectionError {
    /// A short description of the error, as a sequence of characters.
    pub open spec fn spec_message(self) -> Seq<char> {
        match self {
            DetectionError::IoError => "file cannot be opened, decoded or inspected"@,
            DetectionError::InvalidInput => "invalid folder or threshold"@,
            DetectionError::ImageTooSmall => "image too small"@,
            DetectionError::NoFeatures => "no keypoints detected"@,
            DetectionError::CodecError => "feature data truncated/invalid"@,
            DetectionError::InternalError => "internal invariant violated"@,
        }
    }

    /// Returns a short description of the error.
    pub fn message(&self) -> (text: &'static str)
        ensures
            text@ == self.spec_message(),
    {
        match self {
            DetectionError::IoError => "file cannot be opened, decoded or inspected",
            DetectionError::InvalidInput => "invalid folder or threshold",
            DetectionError::ImageTooSmall => "image too small",
            DetectionError::NoFeatures => "no keypoints detected",
            DetectionError::CodecError => "feature data truncated/invalid",
            DetectionError::InternalError => "internal invariant violated",
        }
    }
}

} // verus!
