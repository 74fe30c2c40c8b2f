//! The FAST-9 corner detector on the 16-point ring of radius 3.

use vstd::prelude::*;
use crate::types::DetectionError;
use crate::utils::image_utils::GrayImage;
use crate::utils::ranking::{is_top_selection, top_by_key};

verus! {

/// The radius of the ring around a candidate pixel.
pub const RING_RADIUS: u32 = 3;

/// The smallest width and height that the detector accepts.
pub const MIN_IMAGE_SIDE: u32 = 12;

/// The number of contiguous ring points that make a corner.
pub const ARC_LENGTH: usize = 9;

/// A detected corner.
#[derive(Debug, Clone, Copy, PartialEq, Eq, Structural)]
pub struct KeyPoint {
    /// Column of the corner.
    pub x: u32,
    /// Row of the corner.
    pub y: u32,
    /// Sum over the ring of the absolute difference to the centre: sixteen
    /// times the mean absolute difference, so it orders corners as the mean
    /// does.
    pub score: u32,
}

/// The offset of ring point `k` from the centre, clockwise from north.
pub open spec fn ring_offset(k: int) -> (int, int) {
    if k == 0 {
        (0, -3)
    } else if k == 1 {
        (1, -3)
    } else if k == 2 {
        (2, -2)
    } else if k == 3 {
        (3, -1)
    } else if k == 4 {
        (3, 0)
    } else if k == 5 {
        (3, 1)
    } else if k == 6 {
        (2, 2)
    } else if k == 7 {
        (1, 3)
    } else if k == 8 {
        (0, 3)
    } else if k == 9 {
        (-1, 3)
    } else if k == 10 {
        (-2, 2)
    } else if k == 11 {
        (-3, 1)
    } else if k == 12 {
        (-3, 0)
    } else if k == 13 {
        (-3, -1)
    } else if k == 14 {
        (-2, -2)
    } else {
        (-1, -3)
    }
}

/// The sixteen intensities on the ring around `(x, y)`, clockwise from north.
pub open spec fn ring_at(img: &GrayImage, x: int, y: int) -> Seq<u8> {
    Seq::new(16, |k: int| img.pixel_at(x + ring_offset(k).0, y + ring_offset(k).1))
}

/// For each ring point, whether it is brighter than the centre by more than
/// the threshold.
pub open spec fn brighter_flags(ring: Seq<u8>, center: u8, threshold: u8) -> Seq<bool> {
    Seq::new(16, |k: int| ring[k] > center + threshold)
}

/// For each ring point, whether it is darker than the centre by more than the
/// threshold.
pub open spec fn darker_flags(ring: Seq<u8>, center: u8, threshold: u8) -> Seq<bool> {
    Seq::new(16, |k: int| ring[k] < center - threshold)
}

/// How many of the north, east, south and west ring points are flagged.
pub open spec fn compass_count(flags: Seq<bool>) -> int {
    (if flags[0] { 1int } else { 0 }) + (if flags[4] { 1int } else { 0 }) + (if flags[8] { 1int } else { 0 })
        + (if flags[12] { 1int } else { 0 })
}

/// True if nine ring points in a row are flagged, starting at `start` and
/// wrapping round the ring.
pub open spec fn arc_from(flags: Seq<bool>, start: int) -> bool {
    forall|j: int| 0 <= j < 9 ==> flags[#[trigger] ((start + j) % 16)]
}

/// True if some nine contiguous ring points are all flagged.
pub open spec fn has_arc(flags: Seq<bool>) -> bool {
    exists|start: int| 0 <= start < 16 && #[trigger] arc_from(flags, start)
}

/// True if a centre of intensity `center` with the given ring is a corner: at
/// least three of the four compass points agree in being brighter, or in being
/// darker, and nine contiguous ring points satisfy that same inequality.
pub open spec fn is_corner_ring(ring: Seq<u8>, center: u8, threshold: u8) -> bool {
    ||| compass_count(brighter_flags(ring, center, threshold)) >= 3 && has_arc(
        brighter_flags(ring, center, threshold),
    )
    ||| compass_count(darker_flags(ring, center, threshold)) >= 3 && has_arc(
        darker_flags(ring, center, threshold),
    )
}

/// The absolute difference of two intensities.
pub open spec fn abs_diff(a: u8, b: u8) -> int {
    if a >= b {
        a - b
    } else {
        b - a
    }
}

/// The sum of the absolute differences between the centre and the first `n`
/// ring points.
pub open spec fn ring_response(ring: Seq<u8>, center: u8, n: nat) -> int
    decreases n,
{
    if n == 0 {
        0
    } else {
        ring_response(ring, center, (n - 1) as nat) + abs_diff(ring[n - 1], center)
    }
}

/// True if `(x, y)` has the whole ring inside the image.
pub open spec fn ring_fits(img: &GrayImage, x: int, y: int) -> bool {
    3 <= x < img.spec_width() - 3 && 3 <= y < img.spec_height() - 3
}

/// True if the pixel at `(x, y)` is a corner.
pub open spec fn is_corner(img: &GrayImage, x: int, y: int, threshold: u8) -> bool {
    is_corner_ring(ring_at(img, x, y), img.pixel_at(x, y), threshold)
}

/// The keypoint that a corner at `(x, y)` yields.
pub open spec fn keypoint_at(img: &GrayImage, x: int, y: int) -> KeyPoint {
    KeyPoint {
        x: x as u32,
        y: y as u32,
        score: ring_response(ring_at(img, x, y), img.pixel_at(x, y), 16) as u32,
    }
}

/// The corners of row `y` in columns `3 .. x_end`, left to right.
pub open spec fn row_corners(img: &GrayImage, threshold: u8, y: int, x_end: int) -> Seq<KeyPoint>
    decreases x_end,
{
    if x_end <= 3 {
        Seq::empty()
    } else if is_corner(img, x_end - 1, y, threshold) {
        row_corners(img, threshold, y, x_end - 1).push(keypoint_at(img, x_end - 1, y))
    } else {
        row_corners(img, threshold, y, x_end - 1)
    }
}

/// The corners of rows `3 .. y_end`, row by row, each row left to right.
pub open spec fn corners_above(img: &GrayImage, threshold: u8, y_end: int) -> Seq<KeyPoint>
    decreases y_end,
{
    if y_end <= 3 {
        Seq::empty()
    } else {
        corners_above(img, threshold, y_end - 1) + row_corners(
            img,
            threshold,
            y_end - 1,
            img.spec_width() - 3,
        )
    }
}

/// Every corner of the image whose ring lies inside it, in scan order.
pub open spec fn all_corners(img: &GrayImage, threshold: u8) -> Seq<KeyPoint> {
    corners_above(img, threshold, img.spec_height() - 3)
}

/// The scores of a list of keypoints.
pub open spec fn scores_of(kps: Seq<KeyPoint>) -> Seq<u64> {
    Seq::new(kps.len(), |i: int| kps[i].score as u64)
}

/// True if `kept` is what remains of `found` under a cap of `max_points`:
/// all of it if it fits, else the `max_points` highest-scoring keypoints,
/// highest first, equal scores in the order in which they were found.
pub open spec fn is_capped(found: Seq<KeyPoint>, max_points: nat, kept: Seq<KeyPoint>) -> bool {
    if found.len() <= max_points {
        kept == found
    } else {
        exists|order: Seq<usize>|
            #![auto]
            is_top_selection(scores_of(found), max_points, order) && kept == Seq::new(
                order.len(),
                |p: int| found[order[p] as int],
            )
    }
}

/// The offset of ring point `k` from the centre.
fn ring_offset_exec(k: usize) -> (d: (i32, i32))
    requires
        k < 16,
    ensures
        d.0 == ring_offset(k as int).0,
        d.1 == ring_offset(k as int).1,
        -3 <= d.0 <= 3,
        -3 <= d.1 <= 3,
{
    if k == 0 {
        (0, -3)
    } else if k == 1 {
        (1, -3)
    } else if k == 2 {
        (2, -2)
    } else if k == 3 {
        (3, -1)
    } else if k == 4 {
        (3, 0)
    } else if k == 5 {
        (3, 1)
    } else if k == 6 {
        (2, 2)
    } else if k == 7 {
        (1, 3)
    } else if k == 8 {
        (0, 3)
    } else if k == 9 {
        (-1, 3)
    } else if k == 10 {
        (-2, 2)
    } else if k == 11 {
        (-3, 1)
    } else if k == 12 {
        (-3, 0)
    } else if k == 13 {
        (-3, -1)
    } else if k == 14 {
        (-2, -2)
    } else {
        (-1, -3)
    }
}

/// Returns the sixteen offsets of the ring, clockwise from north.
pub fn get_bresenham_circle_pattern() -> (pattern: Vec<(i32, i32)>)
    ensures
        pattern@.len() == 16,
        forall|k: int|
            0 <= k < 16 ==> (#[trigger] pattern@[k]).0 == ring_offset(k).0 && pattern@[k].1
                == ring_offset(k).1,
{
    let mut pattern: Vec<(i32, i32)> = Vec::new();
    let mut k: usize = 0;
    while k < 16
        invariant
            k <= 16,
            pattern@.len() == k,
            forall|j: int|
                0 <= j < k ==> (#[trigger] pattern@[j]).0 == ring_offset(j).0 && pattern@[j].1
                    == ring_offset(j).1,
        decreases 16 - k,
    {
        pattern.push(ring_offset_exec(k));
        k += 1;
    }
    pattern
}

/// Returns the sixteen ring points round a centre whose ring does not leave
/// the non-negative coordinates.
pub fn get_bresenham_circle(center_x: u32, center_y: u32) -> (points: Vec<(u32, u32)>)
    requires
        3 <= center_x <= u32::MAX - 3,
        3 <= center_y <= u32::MAX - 3,
    ensures
        points@.len() == 16,
        forall|k: int|
            0 <= k < 16 ==> (#[trigger] points@[k]).0 == center_x + ring_offset(k).0 && points@[k].1
                == center_y + ring_offset(k).1,
{
    let mut points: Vec<(u32, u32)> = Vec::new();
    let mut k: usize = 0;
    while k < 16
        invariant
            k <= 16,
            3 <= center_x <= u32::MAX - 3,
            3 <= center_y <= u32::MAX - 3,
            points@.len() == k,
            forall|j: int|
                0 <= j < k ==> (#[trigger] points@[j]).0 == center_x + ring_offset(j).0
                    && points@[j].1 == center_y + ring_offset(j).1,
        decreases 16 - k,
    {
        let d = ring_offset_exec(k);
        points.push(((center_x as i64 + d.0 as i64) as u32, (center_y as i64 + d.1 as i64) as u32));
        k += 1;
    }
    points
}

/// Reads the sixteen ring intensities around `(x, y)`.
pub fn read_ring(img: &GrayImage, x: u32, y: u32) -> (ring: Vec<u8>)
    requires
        ring_fits(img, x as int, y as int),
    ensures
        ring@ == ring_at(img, x as int, y as int),
{
    let mut ring: Vec<u8> = Vec::new();
    let mut k: usize = 0;
    while k < 16
        invariant
            k <= 16,
            ring_fits(img, x as int, y as int),
            ring@.len() == k,
            forall|j: int| 0 <= j < k ==> ring@[j] == ring_at(img, x as int, y as int)[j],
        decreases 16 - k,
    {
        let d = ring_offset_exec(k);
        let px = (x as i64 + d.0 as i64) as u32;
        let py = (y as i64 + d.1 as i64) as u32;
        ring.push(img.get_pixel(px, py));
        k += 1;
    }
    assert(ring@ =~= ring_at(img, x as int, y as int));
    ring
}

/// Tells whether some nine contiguous flags, wrapping round, are all set.
pub fn find_arc(flags: &Vec<bool>) -> (found: bool)
    requires
        flags@.len() == 16,
    ensures
        found == has_arc(flags@),
{
    let mut start: usize = 0;
    while start < 16
        invariant
            start <= 16,
            flags@.len() == 16,
            forall|s: int| 0 <= s < start ==> !#[trigger] arc_from(flags@, s),
        decreases 16 - start,
    {
        let mut j: usize = 0;
        while j < 9 && flags[(start + j) % 16]
            invariant
                j <= 9,
                start < 16,
                flags@.len() == 16,
                forall|i: int| 0 <= i < j ==> flags@[#[trigger] ((start + i) % 16)],
            decreases 9 - j,
        {
            j += 1;
        }
        if j == 9 {
            assert(arc_from(flags@, start as int));
            return true;
        }
        assert(!flags@[(start + j) % 16]);
        assert(!arc_from(flags@, start as int));
        start += 1;
    }
    false
}

/// Counts the set flags among the north, east, south and west ring points.
fn count_compass(flags: &Vec<bool>) -> (count: u8)
    requires
        flags@.len() == 16,
    ensures
        count == compass_count(flags@),
{
    let mut count: u8 = 0;
    if flags[0] {
        count += 1;
    }
    if flags[4] {
        count += 1;
    }
    if flags[8] {
        count += 1;
    }
    if flags[12] {
        count += 1;
    }
    count
}

/// Decides whether a centre with the given ring is a corner.
pub fn corner_test(ring: &Vec<u8>, center: u8, threshold: u8) -> (corner: bool)
    requires
        ring@.len() == 16,
    ensures
        corner == is_corner_ring(ring@, center, threshold),
{
    let mut brighter: Vec<bool> = Vec::new();
    let mut darker: Vec<bool> = Vec::new();
    let mut k: usize = 0;
    while k < 16
        invariant
            k <= 16,
            ring@.len() == 16,
            brighter@.len() == k,
            darker@.len() == k,
            forall|j: int| 0 <= j < k ==> brighter@[j] == brighter_flags(ring@, center, threshold)[j],
            forall|j: int| 0 <= j < k ==> darker@[j] == darker_flags(ring@, center, threshold)[j],
        decreases 16 - k,
    {
        let p = ring[k] as i32;
        brighter.push(p > center as i32 + threshold as i32);
        darker.push(p < center as i32 - threshold as i32);
        k += 1;
    }
    assert(brighter@ =~= brighter_flags(ring@, center, threshold));
    assert(darker@ =~= darker_flags(ring@, center, threshold));
    if count_compass(&brighter) >= 3 && find_arc(&brighter) {
        return true;
    }
    count_compass(&darker) >= 3 && find_arc(&darker)
}

/// Sums the absolute differences between the centre and the ring.
pub fn corner_response(ring: &Vec<u8>, center: u8) -> (score: u32)
    requires
        ring@.len() == 16,
    ensures
        score == ring_response(ring@, center, 16),
        score <= 16 * 255,
{
    let mut score: u32 = 0;
    let mut k: usize = 0;
    while k < 16
        invariant
            k <= 16,
            ring@.len() == 16,
            score == ring_response(ring@, center, k as nat),
            score <= 255 * k,
        decreases 16 - k,
    {
        let p = ring[k];
        let d = if p >= center {
            p - center
        } else {
            center - p
        };
        score = score + d as u32;
        k += 1;
    }
    score
}

/// Finds the corners of an image.
///
/// Images narrower or lower than twelve pixels are rejected. Otherwise every
/// pixel whose ring lies inside the image is tested, row by row, and the
/// corners are returned in that order; if there are more than `max_points`,
/// only the `max_points` highest-scoring are returned, highest first, equal
/// scores in scan order.
pub fn detect_fast_keypoints(img: &GrayImage, threshold: u8, max_points: usize) -> (result: Result<
    Vec<KeyPoint>,
    DetectionError,
>)
    ensures
        result is Err <==> img.spec_width() < 12 || img.spec_height() < 12,
        result is Err ==> result->Err_0 == DetectionError::ImageTooSmall,
        result is Ok ==> is_capped(all_corners(img, threshold), max_points as nat, result->Ok_0@),
{
    let width = img.width();
    let height = img.height();
    if width < MIN_IMAGE_SIDE || height < MIN_IMAGE_SIDE {
        return Err(DetectionError::ImageTooSmall);
    }
    let mut found: Vec<KeyPoint> = Vec::new();
    let mut y: u32 = RING_RADIUS;
    while y < height - RING_RADIUS
        invariant
            width == img.spec_width(),
            height == img.spec_height(),
            width >= 12,
            height >= 12,
            3 <= y <= height - 3,
            found@ == corners_above(img, threshold, y as int),
        decreases height - y,
    {
        let ghost above = found@;
        let mut x: u32 = RING_RADIUS;
        while x < width - RING_RADIUS
            invariant
                width == img.spec_width(),
                height == img.spec_height(),
                width >= 12,
                3 <= y < height - 3,
                3 <= x <= width - 3,
                found@ == above + row_corners(img, threshold, y as int, x as int),
            decreases width - x,
        {
            let center = img.get_pixel(x, y);
            let ring = read_ring(img, x, y);
            if corner_test(&ring, center, threshold) {
                let score = corner_response(&ring, center);
                found.push(KeyPoint { x, y, score });
                assert(found@ =~= above + row_corners(img, threshold, y as int, x as int + 1));
            }
            x += 1;
        }
        y += 1;
    }
    if found.len() <= max_points {
        return Ok(found);
    }
    let mut keys: Vec<u64> = Vec::new();
    let mut i: usize = 0;
    while i < found.len()
        invariant
            i <= found@.len(),
            keys@.len() == i,
            forall|j: int| 0 <= j < i ==> keys@[j] == scores_of(found@)[j],
        decreases found@.len() - i,
    {
        keys.push(found[i].score as u64);
        i += 1;
    }
    assert(keys@ =~= scores_of(found@));
    let order = top_by_key(&keys, max_points);
    let mut kept: Vec<KeyPoint> = Vec::new();
    let mut p: usize = 0;
    while p < order.len()
        invariant
            p <= order@.len(),
            is_top_selection(keys@, max_points as nat, order@),
            keys@.len() == found@.len(),
            kept@.len() == p,
            forall|q: int| 0 <= q < p ==> kept@[q] == found@[order@[q] as int],
        decreases order@.len() - p,
    {
        kept.push(found[order[p]]);
        p += 1;
    }
    assert(kept@ =~= Seq::new(order@.len(), |p: int| found@[order@[p] as int]));
    Ok(kept)
}

} // verus!
