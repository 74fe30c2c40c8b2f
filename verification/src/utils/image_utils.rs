//! Pixel buffers and the integer steps of the thumbnail fingerprints.

use vstd::prelude::*;
use vstd::string::StringSliceAdditionalSpecFns;
use crate::utils::arith::{lemma_mul_u32, lemma_pixel_index};
use crate::utils::text::{bit_char, push_bit};

verus! {

/// An 8-bit RGB image: `height` rows of `width` pixels, three bytes each.
#[derive(Debug)]
pub struct RgbImage {
    width: u32,
    height: u32,
    data: Vec<u8>,
}

/// An 8-bit grayscale image: `height` rows of `width` pixels, one byte each.
#[derive(Debug)]
pub struct GrayImage {
    width: u32,
    height: u32,
    data: Vec<u8>,
}

impl RgbImage {
    #[verifier::type_invariant]
    spec fn well_formed(&self) -> bool {
        self.data@.len() == 3 * (self.width * self.height)
    }

    /// The number of pixels in a row.
    pub closed spec fn spec_width(&self) -> u32 {
        self.width
    }

    /// The number of rows.
    pub closed spec fn spec_height(&self) -> u32 {
        self.height
    }

    /// The pixel bytes, row by row, red, green and blue of each pixel in turn.
    pub closed spec fn bytes(&self) -> Seq<u8> {
        self.data@
    }

    /// Wraps a buffer of RGB bytes. Returns `None` unless the buffer holds
    /// exactly `3 * width * height` bytes.
    pub fn from_raw(width: u32, height: u32, data: Vec<u8>) -> (img: Option<RgbImage>)
        ensures
            img is Some <==> data@.len() == 3 * (width * height),
            img is Some ==> img->0.spec_width() == width && img->0.spec_height() == height
                && img->0.bytes() == data@,
    {
        proof {
            lemma_mul_u32(width as int, height as int);
        }
        let pixels: u128 = (width as u128) * (height as u128);
        let expected: u128 = 3u128 * pixels;
        if data.len() as u128 == expected {
            Some(RgbImage { width, height, data })
        } else {
            None
        }
    }

    /// The number of pixels in a row.
    #[verifier::when_used_as_spec(spec_width)]
    pub fn width(&self) -> (w: u32)
        ensures
            w == self.spec_width(),
    {
        self.width
    }

    /// The number of rows.
    #[verifier::when_used_as_spec(spec_height)]
    pub fn height(&self) -> (h: u32)
        ensures
            h == self.spec_height(),
    {
        self.height
    }

    /// The pixel bytes.
    pub fn as_raw(&self) -> (data: &Vec<u8>)
        ensures
            data@ == self.bytes(),
            data@.len() == 3 * (self.spec_width() * self.spec_height()),
    {
        proof {
            use_type_invariant(self);
        }
        &self.data
    }
}

impl GrayImage {
    #[verifier::type_invariant]
    spec fn well_formed(&self) -> bool {
        self.data@.len() == self.width * self.height
    }

    /// The number of pixels in a row.
    pub closed spec fn spec_width(&self) -> u32 {
        self.width
    }

    /// The number of rows.
    pub closed spec fn spec_height(&self) -> u32 {
        self.height
    }

    /// The intensities, row by row.
    pub closed spec fn pixels(&self) -> Seq<u8> {
        self.data@
    }

    /// The intensity in column `x` of row `y`.
    pub open spec fn pixel_at(&self, x: int, y: int) -> u8 {
        self.pixels()[y * self.spec_width() + x]
    }

    /// True if column `x` of row `y` lies inside the image.
    pub open spec fn contains(&self, x: int, y: int) -> bool {
        0 <= x < self.spec_width() && 0 <= y < self.spec_height()
    }

    /// Wraps a buffer of intensities. Returns `None` unless the buffer holds
    /// exactly `width * height` bytes.
    pub fn from_raw(width: u32, height: u32, data: Vec<u8>) -> (img: Option<GrayImage>)
        ensures
            img is Some <==> data@.len() == width * height,
            img is Some ==> img->0.spec_width() == width && img->0.spec_height() == height
                && img->0.pixels() == data@,
    {
        proof {
            lemma_mul_u32(width as int, height as int);
        }
        let expected: u64 = (width as u64) * (height as u64);
        if data.len() as u64 == expected {
            Some(GrayImage { width, height, data })
        } else {
            None
        }
    }

    /// The number of pixels in a row.
    #[verifier::when_used_as_spec(spec_width)]
    pub fn width(&self) -> (w: u32)
        ensures
            w == self.spec_width(),
    {
        self.width
    }

    /// The number of rows.
    #[verifier::when_used_as_spec(spec_height)]
    pub fn height(&self) -> (h: u32)
        ensures
            h == self.spec_height(),
    {
        self.height
    }

    /// The intensities, row by row.
    pub fn as_raw(&self) -> (data: &Vec<u8>)
        ensures
            data@ == self.pixels(),
            data@.len() == self.spec_width() * self.spec_height(),
    {
        proof {
            use_type_invariant(self);
        }
        &self.data
    }

    /// The intensity in column `x` of row `y`.
    pub fn get_pixel(&self, x: u32, y: u32) -> (p: u8)
        requires
            self.contains(x as int, y as int),
        ensures
            p == self.pixel_at(x as int, y as int),
    {
        proof {
            use_type_invariant(self);
            lemma_pixel_index(x as int, y as int, self.width as int, self.height as int);
            lemma_mul_u32(y as int, self.width as int);
        }
        let idx: u64 = (y as u64) * (self.width as u64) + (x as u64);
        assert(idx < self.data.len());
        self.data[idx as usize]
    }
}

/// Resamples an image to exactly `width` by `height` pixels, without keeping
/// the aspect ratio.
///
/// Wraps `image::DynamicImage::resize_exact` with the `Lanczos3` filter, which
/// returns an image of the requested dimensions, three bytes to the pixel.
/// The two bounds keep the output buffer and the intermediate buffer of the
/// resampler (four 32-bit channels per pixel, `height` rows of the source
/// width) within what a `Vec` can hold. Nothing is claimed of the resampled
/// intensities. This contract is assumed, not proved.
#[verifier::external_body]
pub fn resize_image(img: &RgbImage, width: u32, height: u32) -> (out: RgbImage)
    requires
        3 * width * height <= isize::MAX,
        16 * img.spec_width() * height <= isize::MAX,
    ensures
        out.spec_width() == width,
        out.spec_height() == height,
        out.bytes().len() == 3 * (width * height),
{
    let src = image::RgbImage::from_raw(img.width, img.height, img.data.clone()).unwrap();
    let out = image::DynamicImage::ImageRgb8(src).resize_exact(
        width,
        height,
        image::imageops::FilterType::Lanczos3,
    );
    RgbImage { width, height, data: out.into_rgb8().into_raw() }
}

/// Converts an image to 8-bit luma.
///
/// Wraps `image::DynamicImage::to_luma8`, which returns a grayscale copy with
/// the dimensions of its source, one byte to the pixel. Nothing is claimed of
/// the intensities. This contract is assumed, not proved.
#[verifier::external_body]
pub fn to_grayscale(img: &RgbImage) -> (out: GrayImage)
    ensures
        out.spec_width() == img.spec_width(),
        out.spec_height() == img.spec_height(),
        out.pixels().len() == img.spec_width() * img.spec_height(),
{
    let src = image::RgbImage::from_raw(img.width, img.height, img.data.clone()).unwrap();
    let out = image::DynamicImage::ImageRgb8(src).to_luma8();
    GrayImage { width: img.width, height: img.height, data: out.into_raw() }
}

/// The sum of a sequence of intensities.
pub open spec fn intensity_sum(s: Seq<u8>) -> int
    decreases s.len(),
{
    if s.len() == 0 {
        0
    } else {
        intensity_sum(s.drop_last()) + s.last()
    }
}

/// The arithmetic mean of a non-empty sequence of intensities, rounded down.
pub open spec fn mean_intensity(s: Seq<u8>) -> int {
    intensity_sum(s) / (s.len() as int)
}

/// One character per intensity: `'1'` where it exceeds `threshold`, else `'0'`.
pub open spec fn threshold_bits(s: Seq<u8>, threshold: u8) -> Seq<char> {
    Seq::new(s.len(), |i: int| bit_char(s[i] > threshold))
}

/// Returns the mean intensity of a non-empty image, rounded down.
pub fn average_pixel_value(img: &GrayImage) -> (mean: u8)
    requires
        img.pixels().len() > 0,
    ensures
        mean == mean_intensity(img.pixels()),
{
    let data = img.as_raw();
    let n = data.len();
    let mut sum: u128 = 0;
    let mut i: usize = 0;
    while i < n
        invariant
            n == data@.len(),
            i <= n,
            sum == intensity_sum(data@.subrange(0, i as int)),
            sum <= 255 * i,
        decreases n - i,
    {
        assert(data@.subrange(0, i as int + 1).drop_last() =~= data@.subrange(0, i as int));
        sum = sum + data[i] as u128;
        i += 1;
    }
    assert(data@.subrange(0, n as int) =~= data@);
    let mean = sum / (n as u128);
    assert(mean <= 255) by (nonlinear_arith)
        requires
            mean == sum / (n as u128),
            sum <= 255 * n,
            n > 0,
    ;
    mean as u8
}

/// Returns one character per pixel, row by row: `'1'` where the intensity
/// exceeds `threshold`, else `'0'`.
pub fn generate_bits_from_threshold(img: &GrayImage, threshold: u8) -> (bits: String)
    ensures
        bits@ == threshold_bits(img.pixels(), threshold),
{
    let data = img.as_raw();
    let n = data.len();
    let mut bits = String::new();
    let mut i: usize = 0;
    while i < n
        invariant
            n == data@.len(),
            i <= n,
            bits@ == threshold_bits(data@.subrange(0, i as int), threshold),
        decreases n - i,
    {
        push_bit(&mut bits, data[i] > threshold);
        i += 1;
        assert(bits@ =~= threshold_bits(data@.subrange(0, i as int), threshold));
    }
    assert(data@.subrange(0, n as int) =~= data@);
    bits
}

/// The byte that packs up to eight characters of a bit string, the first
/// character in the highest bit: bit `7 - k` is set where character `k` is
/// `'1'`.
pub open spec fn packed_byte(chunk: Seq<u8>, n: nat) -> u8
    decreases n,
{
    if n == 0 {
        0
    } else if chunk[n - 1] == 0x31 {
        packed_byte(chunk, (n - 1) as nat) | (1u8 << ((8 - n) as u8))
    } else {
        packed_byte(chunk, (n - 1) as nat)
    }
}

/// The bytes of text from `8 * c` up to the next multiple of eight, or the
/// end.
pub open spec fn chunk_at(bytes: Seq<u8>, c: int) -> Seq<u8> {
    bytes.subrange(
        8 * c,
        if 8 * c + 8 <= bytes.len() {
            8 * c + 8
        } else {
            bytes.len() as int
        },
    )
}

/// The bytes that pack a bit string, eight characters to a byte; the last
/// byte may pack fewer.
pub open spec fn packed_bits(bytes: Seq<u8>) -> Seq<u8> {
    Seq::new(
        ((bytes.len() + 7) / 8) as nat,
        |c: int| packed_byte(chunk_at(bytes, c), chunk_at(bytes, c).len()),
    )
}

/// Packs a bit string into bytes, eight characters to a byte, the first
/// character of each eight in the highest bit. Every character other than
/// `'1'` counts as zero.
pub fn bits_to_bytes(bits: &str) -> (bytes: Vec<u8>)
    ensures
        bytes@ == packed_bits(bits.spec_bytes()),
{
    let text = bits.as_bytes();
    let n = text.len();
    let mut bytes: Vec<u8> = Vec::new();
    let mut start: usize = 0;
    while start < n
        invariant
            n == text@.len(),
            text@ == bits.spec_bytes(),
            start <= n,
            start == bytes@.len() * 8 || start == n,
            bytes@.len() == (start + 7) / 8,
            forall|c: int|
                0 <= c < bytes@.len() ==> bytes@[c] == packed_byte(
                    chunk_at(text@, c),
                    chunk_at(text@, c).len(),
                ),
        decreases n - start,
    {
        let end = if n - start >= 8 {
            start + 8
        } else {
            n
        };
        let ghost c = bytes@.len() as int;
        let ghost chunk = chunk_at(text@, c);
        assert(chunk =~= text@.subrange(start as int, end as int));
        let mut acc: u8 = 0;
        let mut k: usize = 0;
        while k < end - start
            invariant
                start < end <= n,
                end - start <= 8,
                n == text@.len(),
                k <= end - start,
                chunk == text@.subrange(start as int, end as int),
                acc == packed_byte(chunk, k as nat),
            decreases end - start - k,
        {
            if text[start + k] == 0x31u8 {
                acc = acc | (1u8 << ((7 - k) as u8));
            }
            k += 1;
        }
        bytes.push(acc);
        start = end;
    }
    assert(bytes@ =~= packed_bits(text@));
    bytes
}

/// One character per value, row by row: `'1'` where the value exceeds
/// `threshold`, else `'0'`.
pub open spec fn matrix_bits(rows: Seq<Vec<i64>>, threshold: i64, n: nat) -> Seq<char>
    decreases n,
{
    if n == 0 {
        Seq::empty()
    } else {
        matrix_bits(rows, threshold, (n - 1) as nat) + Seq::new(
            rows[n - 1]@.len(),
            |i: int| bit_char(rows[n - 1]@[i] > threshold),
        )
    }
}

/// Thresholds a matrix of integers: one character per entry, row by row,
/// `'1'` where the entry exceeds `threshold`.
///
/// Entries that stand for floating-point coefficients are expected as
/// integers that order as the coefficients do.
pub fn threshold_matrix(matrix: &Vec<Vec<i64>>, threshold: i64) -> (bits: String)
    ensures
        bits@ == matrix_bits(matrix@, threshold, matrix@.len()),
{
    let mut bits = String::new();
    let mut y: usize = 0;
    while y < matrix.len()
        invariant
            y <= matrix@.len(),
            bits@ == matrix_bits(matrix@, threshold, y as nat),
        decreases matrix@.len() - y,
    {
        let row = &matrix[y];
        let ghost before = bits@;
        let mut x: usize = 0;
        while x < row.len()
            invariant
                x <= row@.len(),
                bits@ == before + Seq::new(x as nat, |i: int| bit_char(row@[i] > threshold)),
            decreases row@.len() - x,
        {
            push_bit(&mut bits, row[x] > threshold);
            assert(bits@ =~= before + Seq::new(
                (x + 1) as nat,
                |i: int| bit_char(row@[i] > threshold),
            ));
            x += 1;
        }
        y += 1;
    }
    bits
}

} // verus!
