//! The integer steps of keypoint description: selection of the strongest
//! keypoints, the intensity moments that give a keypoint its orientation,
//! and the binary tests of the descriptor.

use vstd::prelude::*;
use crate::algorithms::orb::fast::{
    all_corners, detect_fast_keypoints, is_capped, scores_of, KeyPoint,
};
use crate::types::DetectionError;
use crate::utils::image_utils::GrayImage;
use crate::utils::ranking::{is_top_selection, top_by_key};

verus! {

/// The threshold of the corner test.
pub const FAST_THRESHOLD: u8 = 20;

/// The most corners that detection keeps.
pub const MAX_KEYPOINTS: usize = 500;

/// The most keypoints that a fingerprint describes.
pub const MAX_DESCRIBED: usize = 50;

/// The radius of the disk over which the moments are taken.
pub const MOMENT_RADIUS: i32 = 7;

/// The number of binary tests of a descriptor.
pub const BRIEF_PATTERN_SIZE: usize = 256;

/// The two sample points of one binary test, in image coordinates.
#[derive(Debug, Clone, Copy, PartialEq, Eq, Structural)]
pub struct SamplePair {
    /// Column of the first point.
    pub x1: i32,
    /// Row of the first point.
    pub y1: i32,
    /// Column of the second point.
    pub x2: i32,
    /// Row of the second point.
    pub y2: i32,
}

/// True if `kept` lists the `count` highest-scoring keypoints of `found`
/// (all of them if there are fewer), highest first, equal scores in their
/// given order.
pub open spec fn is_strongest(found: Seq<KeyPoint>, count: nat, kept: Seq<KeyPoint>) -> bool {
    exists|order: Seq<usize>|
        #![auto]
        is_top_selection(scores_of(found), count, order) && kept == Seq::new(
            order.len(),
            |p: int| found[order[p] as int],
        )
}

/// Returns the `count` highest-scoring keypoints, highest first.
pub fn strongest_keypoints(found: &Vec<KeyPoint>, count: usize) -> (kept: Vec<KeyPoint>)
    ensures
        is_strongest(found@, count as nat, kept@),
        kept@.len() == if count <= found@.len() {
            count as nat
        } else {
            found@.len()
        },
{
    let mut keys: Vec<u64> = Vec::new();
    let mut i: usize = 0;
    while i < found.len()
        invariant
            i <= found@.len(),
            keys@.len() == i,
            forall|j: int| 0 <= j < i ==> keys@[j] == scores_of(found@)[j],
        decreases found@.len() - i,
    {
        keys.push(found[i].score as u64);
        i += 1;
    }
    assert(keys@ =~= scores_of(found@));
    let order = top_by_key(&keys, count);
    let mut kept: Vec<KeyPoint> = Vec::new();
    let mut p: usize = 0;
    while p < order.len()
        invariant
            p <= order@.len(),
            is_top_selection(keys@, count as nat, order@),
            keys@.len() == found@.len(),
            kept@.len() == p,
            forall|q: int| 0 <= q < p ==> kept@[q] == found@[order@[q] as int],
        decreases order@.len() - p,
    {
        kept.push(found[order[p]]);
        p += 1;
    }
    assert(kept@ =~= Seq::new(order@.len(), |p: int| found@[order@[p] as int]));
    kept
}

/// Finds the keypoints that a fingerprint describes: the corners of the
/// image, capped at `max_points` by score, and of those the `keep`
/// strongest.
///
/// An image narrower or lower than twelve pixels is too small; an image in
/// which detection leaves no corner has no features.
pub fn orb_keypoints(img: &GrayImage, threshold: u8, max_points: usize, keep: usize) -> (result:
    Result<Vec<KeyPoint>, DetectionError>)
    ensures
        (result is Err && result->Err_0 == DetectionError::ImageTooSmall) <==> (img.spec_width() < 12
            || img.spec_height() < 12),
        (result is Err && result->Err_0 == DetectionError::NoFeatures) <==> (img.spec_width() >= 12
            && img.spec_height() >= 12 && (all_corners(img, threshold).len() == 0 || max_points
            == 0)),
        result is Err ==> result->Err_0 == DetectionError::ImageTooSmall || result->Err_0
            == DetectionError::NoFeatures,
        result is Ok ==> exists|found: Seq<KeyPoint>|
            #[trigger] is_capped(all_corners(img, threshold), max_points as nat, found)
                && is_strongest(found, keep as nat, result->Ok_0@),
{
    let found = match detect_fast_keypoints(img, threshold, max_points) {
        Ok(found) => found,
        Err(e) => {
            return Err(e);
        },
    };
    proof {
        let all = all_corners(img, threshold);
        if all.len() > max_points {
            let order = choose|order: Seq<usize>|
                #![auto]
                is_top_selection(scores_of(all), max_points as nat, order) && found@ == Seq::new(
                    order.len(),
                    |p: int| all[order[p] as int],
                );
            assert(found@.len() == max_points);
        }
    }
    if found.len() == 0 {
        return Err(DetectionError::NoFeatures);
    }
    Ok(strongest_keypoints(&found, keep))
}

/// The offset in columns of window position `n`: the window is the square
/// of side 15 round the keypoint, row by row.
pub open spec fn window_dx(n: int) -> int {
    n % 15 - 7
}

/// The offset in rows of window position `n`.
pub open spec fn window_dy(n: int) -> int {
    n / 15 - 7
}

/// True if window position `n` round `(x, y)` counts towards the moments: it
/// lies in the disk of radius 7 and inside the image.
pub open spec fn in_moment_disk(img: &GrayImage, x: int, y: int, n: int) -> bool {
    window_dx(n) * window_dx(n) + window_dy(n) * window_dy(n) <= 49 && img.contains(
        x + window_dx(n),
        y + window_dy(n),
    )
}

/// The intensity at window position `n` round `(x, y)`, or zero where that
/// position does not count.
pub open spec fn window_intensity(img: &GrayImage, x: int, y: int, n: int) -> int {
    if in_moment_disk(img, x, y, n) {
        img.pixel_at(x + window_dx(n), y + window_dy(n)) as int
    } else {
        0
    }
}

/// The first moment in x over the first `n` window positions: the sum of
/// `dx * intensity`.
pub open spec fn moment_x(img: &GrayImage, x: int, y: int, n: nat) -> int
    decreases n,
{
    if n == 0 {
        0
    } else {
        moment_x(img, x, y, (n - 1) as nat) + window_dx(n - 1) * window_intensity(img, x, y, n - 1)
    }
}

/// The first moment in y over the first `n` window positions: the sum of
/// `dy * intensity`.
pub open spec fn moment_y(img: &GrayImage, x: int, y: int, n: nat) -> int
    decreases n,
{
    if n == 0 {
        0
    } else {
        moment_y(img, x, y, (n - 1) as nat) + window_dy(n - 1) * window_intensity(img, x, y, n - 1)
    }
}

/// Computes the first moments of the intensity over the disk of radius 7
/// round `(x, y)`, clipped to the image: `m10` is the sum of `dx *
/// intensity`, `m01` the sum of `dy * intensity`. The orientation of the
/// keypoint is the angle of the vector `(m10, m01)`.
pub fn keypoint_moments(img: &GrayImage, x: u32, y: u32) -> (m: (i32, i32))
    ensures
        m.0 == moment_x(img, x as int, y as int, 225),
        m.1 == moment_y(img, x as int, y as int, 225),
{
    let width = img.width() as i64;
    let height = img.height() as i64;
    let mut m10: i32 = 0;
    let mut m01: i32 = 0;
    let mut n: i32 = 0;
    while n < 225
        invariant
            0 <= n <= 225,
            width == img.spec_width(),
            height == img.spec_height(),
            m10 == moment_x(img, x as int, y as int, n as nat),
            m01 == moment_y(img, x as int, y as int, n as nat),
            -1785 * n <= m10 <= 1785 * n,
            -1785 * n <= m01 <= 1785 * n,
        decreases 225 - n,
    {
        let dx = n % 15 - 7;
        let dy = n / 15 - 7;
        let px = x as i64 + dx as i64;
        let py = y as i64 + dy as i64;
        let mut intensity: i32 = 0;
        assert(0 <= dx * dx <= 49 && 0 <= dy * dy <= 49) by (nonlinear_arith)
            requires
                -7 <= dx <= 7,
                -7 <= dy <= 7,
        ;
        if dx * dx + dy * dy <= 49 && 0 <= px && px < width && 0 <= py && py < height {
            intensity = img.get_pixel(px as u32, py as u32) as i32;
        }
        assert(intensity == window_intensity(img, x as int, y as int, n as int));
        assert(-1785 <= dx * intensity <= 1785 && -1785 <= dy * intensity <= 1785)
            by (nonlinear_arith)
            requires
                -7 <= dx <= 7,
                -7 <= dy <= 7,
                0 <= intensity <= 255,
        ;
        m10 = m10 + dx * intensity;
        m01 = m01 + dy * intensity;
        n += 1;
    }
    (m10, m01)
}

/// The outcome of one binary test: set if both sample points lie inside the
/// image and the first is darker than the second.
pub open spec fn brief_bit(img: &GrayImage, pair: SamplePair) -> bool {
    img.contains(pair.x1 as int, pair.y1 as int) && img.contains(pair.x2 as int, pair.y2 as int)
        && img.pixel_at(pair.x1 as int, pair.y1 as int) < img.pixel_at(
        pair.x2 as int,
        pair.y2 as int,
    )
}

/// Bit `i` of a descriptor: bit `i % 8` of byte `i / 8`.
pub open spec fn descriptor_bit(descriptor: Seq<u8>, i: int) -> bool {
    (descriptor[i / 8] >> ((i % 8) as u8)) & 1 == 1
}

/// Setting bit `k` of a byte sets that bit and leaves the others.
pub proof fn lemma_set_bit(byte: u8, k: u8, j: u8)
    requires
        k < 8,
        j < 8,
    ensures
        ((byte | (1u8 << k)) >> j) & 1 == if j == k {
            1u8
        } else {
            (byte >> j) & 1
        },
{
    assert(((byte | (1u8 << k)) >> j) & 1 == if j == k {
        1u8
    } else {
        (byte >> j) & 1
    }) by (bit_vector)
        requires
            k < 8,
            j < 8,
    ;
}

/// A zero byte has no bit set.
pub proof fn lemma_zero_bits(j: u8)
    requires
        j < 8,
    ensures
        (0u8 >> j) & 1 == 0,
{
    assert((0u8 >> j) & 1 == 0) by (bit_vector)
        requires
            j < 8,
    ;
}

/// Runs one binary test.
fn run_test(img: &GrayImage, pair: &SamplePair) -> (bit: bool)
    ensures
        bit == brief_bit(img, *pair),
{
    let width = img.width() as i64;
    let height = img.height() as i64;
    let x1 = pair.x1 as i64;
    let y1 = pair.y1 as i64;
    let x2 = pair.x2 as i64;
    let y2 = pair.y2 as i64;
    if 0 <= x1 && x1 < width && 0 <= y1 && y1 < height && 0 <= x2 && x2 < width && 0 <= y2 && y2
        < height {
        img.get_pixel(pair.x1 as u32, pair.y1 as u32) < img.get_pixel(pair.x2 as u32, pair.y2 as u32)
    } else {
        false
    }
}

/// Computes a descriptor from 256 pairs of sample points: bit `i` is set if
/// both points of pair `i` lie inside the image and the first is darker than
/// the second.
pub fn brief_descriptor(img: &GrayImage, pairs: &Vec<SamplePair>) -> (descriptor: [u8; 32])
    requires
        pairs@.len() == 256,
    ensures
        forall|i: int| 0 <= i < 256 ==> #[trigger] descriptor_bit(descriptor@, i) == brief_bit(img, pairs@[i]),
{
    let mut descriptor = [0u8;32];
    proof {
        assert forall|i: int| 0 <= i < 256 implies !#[trigger] descriptor_bit(descriptor@, i) by {
            lemma_zero_bits((i % 8) as u8);
        }
    }
    let mut i: usize = 0;
    while i < BRIEF_PATTERN_SIZE
        invariant
            i <= 256,
            pairs@.len() == 256,
            forall|j: int| 0 <= j < i ==> #[trigger] descriptor_bit(descriptor@, j) == brief_bit(img, pairs@[j]),
            forall|j: int| i <= j < 256 ==> !#[trigger] descriptor_bit(descriptor@, j),
        decreases 256 - i,
    {
        if run_test(img, &pairs[i]) {
            let ghost before = descriptor@;
            let byte = descriptor[i / 8];
            let k = (i % 8) as u8;
            descriptor[i / 8] = byte | (1u8 << k);
            proof {
                assert forall|j: int| 0 <= j < 256 implies #[trigger] descriptor_bit(descriptor@, j)
                    == (j == i || descriptor_bit(before, j)) by {
                    if j / 8 == i / 8 {
                        lemma_set_bit(byte, k, (j % 8) as u8);
                    }
                }
            }
        }
        i += 1;
    }
    descriptor
}

} // verus!
