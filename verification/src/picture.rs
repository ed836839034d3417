//! Pixels: reading an image file, and what is measured in it.
use image::{DynamicImage, ImageError};
use std::path::Path;

use vstd::prelude::*;

use crate::record::{AnalyzedImage, CacheRecord, RecordView};

verus! {

/// `image::DynamicImage`, carried as it is.
#[verifier::external_type_specification]
#[verifier::external_body]
pub struct ExDynamicImage(DynamicImage);

/// `image::ImageError`, carried as it is.
#[verifier::external_type_specification]
#[verifier::external_body]
pub struct ExImageError(ImageError);

/// What an image holds: its width, its height, and then its colour type, its colour space
/// and its samples, all as numbers.
pub uninterp spec fn image_contents(image: &DynamicImage) -> Seq<int>;

/// Whether reading a file with this path and these bytes can come out this way with the
/// decoders of the `image` crate: as an image, or as none.
pub uninterp spec fn decodes_to(
    path: Seq<char>,
    content: Seq<u8>,
    image: Option<Seq<int>>,
) -> bool;

/// What `DynamicImage::resize_exact` makes of an image, with the triangle filter.
pub uninterp spec fn resized_exactly(image: Seq<int>, width: u32, height: u32) -> Seq<int>;

/// What `DynamicImage::resize` makes of an image, with the triangle filter.
pub uninterp spec fn resized_within(image: Seq<int>, width: u32, height: u32) -> Seq<int>;

/// The samples of what `DynamicImage::to_luma8` makes of an image, row by row.
pub uninterp spec fn luma_samples(image: Seq<int>) -> Seq<u8>;

/// An image of 8-bit brightness samples, row by row from the top.
#[derive(Debug)]
pub struct GrayImage {
    pub width: u32,
    pub height: u32,
    pub samples: Vec<u8>,
}

/// `ImageReader::decode` reads an image from the bytes of a file, in the format that the
/// bytes show, or else in the one that the extension of the path shows. A process can add
/// decoders of its own, so it is only stated that what comes out, an image or a refusal, is
/// one of the ways in which reading these bytes under this path can come out.
#[verifier::external_body]
fn decode(path: &str, content: &[u8]) -> (image: Result<DynamicImage, ImageError>)
    ensures
        decodes_to(
            path@,
            content@,
            match image {
                Ok(image) => Some(image_contents(&image)),
                Err(_) => None,
            },
        ),
{
    let mut reader = image::ImageReader::new(std::io::Cursor::new(content));
    if let Ok(format) = image::ImageFormat::from_path(Path::new(path)) {
        reader.set_format(format);
    }
    reader.with_guessed_format()?.decode()
}

/// `DynamicImage::dimensions` gives the width and the height.
#[verifier::external_body]
fn dimensions(image: &DynamicImage) -> (size: (u32, u32))
    ensures
        size.0 == image_contents(image)[0],
        size.1 == image_contents(image)[1],
{
    image::GenericImageView::dimensions(image)
}

/// `DynamicImage::resize_exact`, with the triangle filter, gives an image of exactly the
/// size asked for. On the way it makes an image as wide as the old and as high as the new,
/// of 16 bytes per pixel; one that no allocation can hold is left out. The weights of the
/// filter are computed in single precision, and the sizes asked for are small enough for
/// them never to vanish all at once.
#[verifier::external_body]
fn resize_exact(image: &DynamicImage, width: u32, height: u32) -> (resized: DynamicImage)
    requires
        width <= 640,
        height <= 640,
        image_contents(image)[0] * height * 16 <= isize::MAX,
    ensures
        image_contents(&resized) == resized_exactly(image_contents(image), width, height),
        image_contents(&resized)[0] == width,
        image_contents(&resized)[1] == height,
{
    image.resize_exact(width, height, image::imageops::FilterType::Triangle)
}

/// How many pixels `DynamicImage::resize` makes on the way, at most: as many columns as the
/// old image has, and as many rows as the new one. The new height is rounded, and one at
/// least, so it exceeds the exact one by a row at most.
pub open spec fn fitting_pixels(old_width: int, old_height: int, width: int, height: int) -> int {
    old_width + if old_width * height <= old_height * width {
        old_width * height
    } else {
        old_height * width
    }
}

/// `DynamicImage::resize`, with the triangle filter, gives an image of the same shape that
/// fits the size asked for, and has one pixel at least. What it makes on the way takes 16
/// bytes per pixel; one that no allocation can hold is left out. The sizes asked for are
/// small, for the reason that `resize_exact` gives.
#[verifier::external_body]
fn resize_within(image: &DynamicImage, width: u32, height: u32) -> (resized: DynamicImage)
    requires
        0 < width <= 640,
        0 < height <= 640,
        fitting_pixels(
            image_contents(image)[0],
            image_contents(image)[1],
            width as int,
            height as int,
        ) * 16 <= isize::MAX,
    ensures
        image_contents(&resized) == resized_within(image_contents(image), width, height),
        1 <= image_contents(&resized)[0] <= width,
        1 <= image_contents(&resized)[1] <= height,
{
    image.resize(width, height, image::imageops::FilterType::Triangle)
}

/// `DynamicImage::to_luma8` gives the brightness of every pixel, in an image of the same
/// size. Its buffer holds a sample for every pixel, row by row.
#[verifier::external_body]
fn to_luma8(image: &DynamicImage) -> (gray: GrayImage)
    ensures
        gray.width == image_contents(image)[0],
        gray.height == image_contents(image)[1],
        gray.samples@ == luma_samples(image_contents(image)),
        gray.samples@.len() >= gray.width * gray.height,
{
    let luma = image.to_luma8();
    GrayImage { width: luma.width(), height: luma.height(), samples: luma.into_raw() }
}

/// The width of the image from which a perceptual hash is taken.
pub const HASH_WIDTH: u32 = 9;

/// The height of the image from which a perceptual hash is taken.
pub const HASH_HEIGHT: u32 = 8;

/// The greatest width and height of the image in which blur is measured.
pub const BLUR_SIZE: u32 = 640;

/// Whether there is room to resize an image for its perceptual hash: for its columns, eight
/// rows of 16 bytes each.
pub open spec fn has_room_for_hash(image: Seq<int>) -> bool {
    image[0] * 128 <= isize::MAX
}

/// Whether there is room to resize an image for its blur.
pub open spec fn has_room_for_blur(image: Seq<int>) -> bool {
    fitting_pixels(image[0], image[1], BLUR_SIZE as int, BLUR_SIZE as int) * 16 <= isize::MAX
}

/// Whether there is room for every measurement that is asked for.
pub open spec fn is_resizable(image: Seq<int>, include_blur_score: bool) -> bool {
    has_room_for_hash(image) && (include_blur_score ==> has_room_for_blur(image))
}

/// Whether a bit of a number is set.
pub open spec fn bit(bits: u64, k: u64) -> bool {
    (bits >> k) & 1 == 1
}

/// Whether the brightness falls from one of the 64 places to the next on its right. There
/// are eight such places in each row of nine samples.
pub open spec fn falls(samples: Seq<u8>, k: int) -> bool {
    samples[k / 8 * 9 + k % 8] > samples[k / 8 * 9 + k % 8 + 1]
}

/// Whether a hash has a bit set exactly where the brightness falls.
pub open spec fn is_gradient_hash(samples: Seq<u8>, hash: u64) -> bool {
    forall|k: u64| k < 64 ==> (#[trigger] bit(hash, k) <==> falls(samples, k as int))
}

/// How far the brightness at a place is from that of its four neighbours, taken together.
pub open spec fn contrast(samples: Seq<u8>, width: int, x: int, y: int) -> nat {
    let around = samples[y * width + x - 1] + samples[y * width + x + 1] + samples[(y - 1) * width
        + x] + samples[(y + 1) * width + x];
    let four = 4 * samples[y * width + x];
    if around >= four {
        (around - four) as nat
    } else {
        (four - around) as nat
    }
}

/// The contrasts along one row, its two ends left out.
pub open spec fn row_contrasts(samples: Seq<u8>, width: int, y: int) -> Seq<u32> {
    Seq::new((width - 2) as nat, |k: int| contrast(samples, width, k + 1, y) as u32)
}

/// The contrasts along the rows from the second up to the given one.
pub open spec fn rows_contrasts(samples: Seq<u8>, width: int, rows: nat) -> Seq<u32>
    decreases rows,
{
    if rows == 0 {
        Seq::empty()
    } else {
        rows_contrasts(samples, width, (rows - 1) as nat) + row_contrasts(
            samples,
            width,
            rows as int,
        )
    }
}

/// The contrasts at all places but those of the outermost rows and columns, row by row. An
/// image without such places has none.
pub open spec fn all_contrasts(samples: Seq<u8>, width: int, height: int) -> Seq<u32> {
    if width < 3 || height < 3 {
        Seq::empty()
    } else {
        rows_contrasts(samples, width, (height - 2) as nat)
    }
}

/// Whether there is room for every measurement of an image that is asked for.
pub fn can_resize(image: &DynamicImage, include_blur_score: bool) -> (resizable: bool)
    ensures
        resizable == is_resizable(image_contents(image), include_blur_score),
        0 <= image_contents(image)[0] <= u32::MAX,
        0 <= image_contents(image)[1] <= u32::MAX,
{
    let (width, height): (u32, u32) = dimensions(image);
    let limit: u64 = isize::MAX as u64;
    let smaller: u64 = if width <= height {
        width as u64
    } else {
        height as u64
    };
    let room_for_hash: bool = width as u64 * 128 <= limit;
    let room_for_blur: bool = (width as u64 + smaller * 640) * 16 <= limit;
    room_for_hash && (!include_blur_score || room_for_blur)
}

proof fn lemma_set_bit(bits: u64, k: u64)
    requires
        k < 64,
    ensures
        forall|j: u64|
            j < 64 ==> #[trigger] bit(bits | (1u64 << k), j) == (bit(bits, j) || j == k),
{
    assert forall|j: u64| j < 64 implies #[trigger] bit(bits | (1u64 << k), j) == (bit(bits, j) || j
        == k) by {
        assert((((bits | (1u64 << k)) >> j) & 1 == 1) == (((bits >> j) & 1 == 1) || j == k))
            by (bit_vector)
            requires
                j < 64,
                k < 64,
        ;
    }
}

/// The perceptual hash of an image of nine by eight samples: a bit for each place where the
/// brightness falls.
pub fn gradient_hash(gray: &GrayImage) -> (hash: u64)
    requires
        gray.width == HASH_WIDTH,
        gray.height == HASH_HEIGHT,
        gray.samples@.len() >= 72,
    ensures
        is_gradient_hash(gray.samples@, hash),
{
    let mut hash: u64 = 0;
    assert forall|k: u64| k < 64 implies !(#[trigger] bit(0, k)) by {
        assert((0u64 >> k) & 1 == 0) by (bit_vector)
            requires
                k < 64,
        ;
    }
    let mut k: u64 = 0;
    while k < 64
        invariant
            k <= 64,
            gray.samples@.len() >= 72,
            forall|j: u64|
                j < 64 ==> (#[trigger] bit(hash, j) <==> j < k && falls(gray.samples@, j as int)),
        decreases 64 - k,
    {
        let place: usize = (k / 8 * 9 + k % 8) as usize;
        let left: u8 = gray.samples[place];
        let right: u8 = gray.samples[place + 1];
        if left > right {
            proof {
                lemma_set_bit(hash, k);
            }
            hash = hash | (1u64 << k);
        }
        k = k + 1;
    }
    hash
}

/// The perceptual hash of an image.
pub fn calculate_perceptual_hash(image: &DynamicImage) -> (hash: u64)
    requires
        has_room_for_hash(image_contents(image)),
    ensures
        is_gradient_hash(
            luma_samples(resized_exactly(image_contents(image), HASH_WIDTH, HASH_HEIGHT)),
            hash,
        ),
{
    let small: DynamicImage = resize_exact(image, HASH_WIDTH, HASH_HEIGHT);
    let gray: GrayImage = to_luma8(&small);
    gradient_hash(&gray)
}

/// The contrasts in an image.
pub fn contrasts(gray: &GrayImage) -> (values: Vec<u32>)
    requires
        gray.samples@.len() >= gray.width * gray.height,
    ensures
        values@ == all_contrasts(gray.samples@, gray.width as int, gray.height as int),
{
    let mut values: Vec<u32> = Vec::new();
    if gray.width < 3 || gray.height < 3 {
        return values;
    }
    let width: usize = gray.width as usize;
    let height: usize = gray.height as usize;
    let ghost samples = gray.samples@;
    assert(samples.len() == gray.samples.len());
    let mut y: usize = 1;
    while y < height - 1
        invariant
            width == gray.width,
            height == gray.height,
            width >= 3,
            height >= 3,
            1 <= y <= height - 1,
            samples == gray.samples@,
            samples.len() >= width * height,
            samples.len() <= usize::MAX,
            values@ == rows_contrasts(samples, width as int, (y - 1) as nat),
        decreases height - y,
    {
        let ghost before = values@;
        let ghost row = row_contrasts(samples, width as int, y as int);
        let mut x: usize = 1;
        assert(row.take(0) =~= Seq::empty());
        while x < width - 1
            invariant
                width == gray.width,
                height == gray.height,
                width >= 3,
                height >= 3,
                1 <= y < height - 1,
                1 <= x <= width - 1,
                samples == gray.samples@,
                samples.len() >= width * height,
                samples.len() <= usize::MAX,
                row == row_contrasts(samples, width as int, y as int),
                values@ == before + row.take(x - 1),
            decreases width - x,
        {
            proof {
                assert((y + 1) * width + x < width * height && (y - 1) * width >= 0 && (y - 1)
                    * width + width == y * width && y * width + width == (y + 1) * width)
                    by (nonlinear_arith)
                    requires
                        1 <= y < height - 1,
                        1 <= x < width - 1,
                ;
            }
            let here: usize = y * width + x;
            let center: u32 = 4 * (gray.samples[here] as u32);
            let around: u32 = gray.samples[here - 1] as u32 + gray.samples[here + 1] as u32
                + gray.samples[here - width] as u32 + gray.samples[here + width] as u32;
            let value: u32 = if around >= center {
                around - center
            } else {
                center - around
            };
            assert(value == contrast(samples, width as int, x as int, y as int));
            values.push(value);
            proof {
                assert(row.take(x as int) =~= row.take(x - 1).push(row[x - 1]));
                assert(values@ =~= before + row.take(x as int));
            }
            x = x + 1;
        }
        assert(row.take(x - 1) =~= row);
        y = y + 1;
    }
    values
}

/// The contrasts in an image, after it was made to fit the size in which blur is measured.
/// The blur score is the variance of these values, or zero where there are none.
pub fn blur_values(image: &DynamicImage) -> (values: Vec<u32>)
    requires
        has_room_for_blur(image_contents(image)),
    ensures
        values@ == blur_values_of(image_contents(image)),
{
    let fitted: DynamicImage = resize_within(image, BLUR_SIZE, BLUR_SIZE);
    let gray: GrayImage = to_luma8(&fitted);
    contrasts(&gray)
}

/// The contrasts in an image, after it was made to fit the size in which blur is measured.
pub open spec fn blur_values_of(image: Seq<int>) -> Seq<u32> {
    let fitted = resized_within(image, BLUR_SIZE, BLUR_SIZE);
    all_contrasts(luma_samples(fitted), fitted[0], fitted[1])
}

/// A perceptual hash is settled by the samples it was taken from.
pub proof fn law_gradient_hash_is_unique(samples: Seq<u8>, left: u64, right: u64)
    requires
        is_gradient_hash(samples, left),
        is_gradient_hash(samples, right),
    ensures
        left == right,
{
    lemma_same_from(left, right, 0);
    assert(left >> 0u64 == left) by (bit_vector);
    assert(right >> 0u64 == right) by (bit_vector);
}

proof fn lemma_same_from(left: u64, right: u64, k: u64)
    requires
        k <= 63,
        forall|j: u64| j < 64 ==> (#[trigger] bit(left, j) <==> bit(right, j)),
    ensures
        left >> k == right >> k,
    decreases 63 - k,
{
    assert(bit(left, k) <==> bit(right, k));
    if k == 63 {
        assert(left >> 63u64 == right >> 63u64) by (bit_vector)
            requires
                ((left >> 63u64) & 1 == 1) == ((right >> 63u64) & 1 == 1),
        ;
    } else {
        let next = (k + 1) as u64;
        lemma_same_from(left, right, next);
        assert(left >> k == right >> k) by (bit_vector)
            requires
                k < 63,
                next == k + 1,
                left >> next == right >> next,
                ((left >> k) & 1 == 1) == ((right >> k) & 1 == 1),
        ;
    }
}

/// An image in one brightness has no contrast anywhere.
pub proof fn law_plain_image_has_no_contrast(
    samples: Seq<u8>,
    width: nat,
    height: nat,
    brightness: u8,
)
    requires
        samples.len() >= width * height,
        forall|i: int| 0 <= i < samples.len() ==> (#[trigger] samples[i]) == brightness,
    ensures
        forall|k: int|
            0 <= k < all_contrasts(samples, width as int, height as int).len() ==> (
            #[trigger] all_contrasts(samples, width as int, height as int)[k]) == 0,
{
    if width >= 3 && height >= 3 {
        lemma_plain_rows(samples, width, height, brightness, (height - 2) as nat);
    }
}

proof fn lemma_plain_rows(
    samples: Seq<u8>,
    width: nat,
    height: nat,
    brightness: u8,
    rows: nat,
)
    requires
        samples.len() >= width * height,
        forall|i: int| 0 <= i < samples.len() ==> (#[trigger] samples[i]) == brightness,
        width >= 3,
        rows <= height - 2,
    ensures
        forall|k: int|
            0 <= k < rows_contrasts(samples, width as int, rows).len() ==> (
            #[trigger] rows_contrasts(samples, width as int, rows)[k]) == 0,
    decreases rows,
{
    if rows > 0 {
        lemma_plain_rows(samples, width, height, brightness, (rows - 1) as nat);
        let before = rows_contrasts(samples, width as int, (rows - 1) as nat);
        let row = row_contrasts(samples, width as int, rows as int);
        let all = rows_contrasts(samples, width as int, rows);
        assert forall|k: int| 0 <= k < all.len() implies (#[trigger] all[k]) == 0 by {
            if k < before.len() {
                assert(all[k] == before[k]);
            } else {
                let x = k - before.len() + 1;
                assert(all[k] == row[x - 1]);
                assert((rows + 1) * width + x < width * height && (rows - 1) * width >= 0 && (rows
                    - 1) * width + width == rows * width && rows * width + width == (rows + 1)
                    * width) by (nonlinear_arith)
                    requires
                        1 <= rows <= height - 2,
                        1 <= x < width - 1,
                ;
            }
        }
    }
}

/// An image in one brightness has a hash without set bits.
pub proof fn law_plain_image_has_zero_hash(samples: Seq<u8>, brightness: u8)
    requires
        samples.len() >= 72,
        forall|i: int| 0 <= i < samples.len() ==> (#[trigger] samples[i]) == brightness,
    ensures
        is_gradient_hash(samples, 0),
{
    assert forall|k: u64| k < 64 implies (#[trigger] bit(0, k) <==> falls(samples, k as int)) by {
        assert((0u64 >> k) & 1 == 0) by (bit_vector)
            requires
                k < 64,
        ;
    }
}

/// The size of a file and the time of its last change, in seconds.
#[derive(Debug, Clone, Copy)]
pub struct FileFacts {
    pub size_bytes: u64,
    pub modified_at: u64,
}

/// Why an image could not be measured.
#[derive(Debug, Clone, Copy, PartialEq, Eq, Structural)]
pub enum AnalyzeError {
    /// The file holds no image that can be read.
    Undecodable,
    /// The image is too wide to be resized on this machine.
    TooWide,
}

/// The time of the last change of a file, in seconds since the start of 1970, or zero where
/// it cannot be had or lies before.
pub fn modified_secs(since_epoch: Option<u64>) -> (seconds: u64)
    ensures
        seconds == match since_epoch {
            Some(seconds) => seconds,
            None => 0,
        },
{
    match since_epoch {
        Some(seconds) => seconds,
        None => 0,
    }
}

/// An image that was read, with room for every measurement that is asked for.
#[derive(Debug)]
pub struct ReadImage {
    image: DynamicImage,
    include_blur_score: bool,
}

impl ReadImage {
    #[verifier::type_invariant]
    spec fn has_room(&self) -> bool {
        is_resizable(image_contents(&self.image), self.include_blur_score)
    }

    /// What the image holds.
    pub closed spec fn contents(&self) -> Seq<int> {
        image_contents(&self.image)
    }

    /// Whether its blur is asked for.
    pub closed spec fn asks_for_blur(&self) -> bool {
        self.include_blur_score
    }

    /// The contrasts in the image, where its blur is asked for.
    pub fn blur_values(&self) -> (values: Option<Vec<u32>>)
        ensures
            match values {
                Some(values) => self.asks_for_blur() && values@ == blur_values_of(
                    self.contents(),
                ),
                None => !self.asks_for_blur(),
            },
    {
        proof {
            use_type_invariant(self);
        }
        if self.include_blur_score {
            Some(blur_values(&self.image))
        } else {
            None
        }
    }
}

/// Takes what came out of reading an image.
pub fn take_decoded(
    decoded: Result<DynamicImage, ImageError>,
    include_blur_score: bool,
) -> (outcome: Result<ReadImage, AnalyzeError>)
    ensures
        match (decoded, outcome) {
            (Ok(image), Ok(read)) => is_resizable(image_contents(&image), include_blur_score)
                && read.contents() == image_contents(&image) && read.asks_for_blur()
                == include_blur_score,
            (Ok(image), Err(error)) => !is_resizable(image_contents(&image), include_blur_score)
                && error == AnalyzeError::TooWide,
            (Err(_), Ok(_)) => false,
            (Err(_), Err(error)) => error == AnalyzeError::Undecodable,
        },
        usize::BITS == 64 ==> (outcome is Ok <==> decoded is Ok),
{
    match decoded {
        Ok(image) => {
            if can_resize(&image, include_blur_score) {
                Ok(ReadImage { image, include_blur_score })
            } else {
                Err(AnalyzeError::TooWide)
            }
        },
        Err(_) => Err(AnalyzeError::Undecodable),
    }
}

/// Reads the image that the bytes of a file hold. Whether they hold one is for the decoders
/// to say.
pub fn read_image(path: &str, content: &[u8], include_blur_score: bool) -> (outcome: Result<
    ReadImage,
    AnalyzeError,
>)
    ensures
        match outcome {
            Ok(read) => decodes_to(path@, content@, Some(read.contents())) && read.asks_for_blur()
                == include_blur_score,
            Err(AnalyzeError::TooWide) => exists|image: Seq<int>| #[trigger]
                decodes_to(path@, content@, Some(image)) && !is_resizable(
                    image,
                    include_blur_score,
                ),
            Err(AnalyzeError::Undecodable) => decodes_to(path@, content@, None),
        },
        usize::BITS == 64 ==> outcome != Err::<ReadImage, AnalyzeError>(AnalyzeError::TooWide),
{
    take_decoded(decode(path, content), include_blur_score)
}

/// Whether a record is what is measured in an image, with the score that its blur was given.
pub open spec fn is_measurement(
    path: Seq<char>,
    facts: FileFacts,
    content_hash: Seq<char>,
    blur_score: Option<u64>,
    image: Seq<int>,
    record: RecordView,
) -> bool {
    &&& record == RecordView {
        path,
        size_bytes: facts.size_bytes,
        modified_at: facts.modified_at,
        content_hash,
        width: image[0] as u32,
        height: image[1] as u32,
        blur_score,
        perceptual_hash: record.perceptual_hash,
    }
    &&& record.perceptual_hash matches Some(hash) && is_gradient_hash(
        luma_samples(resized_exactly(image, HASH_WIDTH, HASH_HEIGHT)),
        hash,
    )
}

/// Measures an image that was read. The score is the one that was made from its blur values,
/// and counts only where blur is asked for.
pub fn analyze_image(
    path: &str,
    facts: FileFacts,
    content_hash: &str,
    image: &ReadImage,
    score: u64,
) -> (analyzed: AnalyzedImage)
    ensures
        is_measurement(
            path@,
            facts,
            content_hash@,
            if image.asks_for_blur() {
                Some(score)
            } else {
                None
            },
            image.contents(),
            analyzed@,
        ),
{
    proof {
        use_type_invariant(image);
    }
    let (width, height): (u32, u32) = dimensions(&image.image);
    let mut record: CacheRecord = CacheRecord::basic(path, facts.size_bytes, facts.modified_at);
    record.content_hash = content_hash.to_string();
    record.width = width;
    record.height = height;
    record.blur_score = if image.include_blur_score {
        Some(score)
    } else {
        None
    };
    record.perceptual_hash = Some(calculate_perceptual_hash(&image.image));
    AnalyzedImage { record }
}

/// The bit of a hash for a column and a row is set exactly if the sample there is brighter
/// than its right neighbour in the same row.
pub proof fn law_hash_bit_is_set_where_brightness_falls(
    samples: Seq<u8>,
    hash: u64,
    x: u64,
    y: u64,
)
    requires
        is_gradient_hash(samples, hash),
        x < 8,
        y < 8,
    ensures
        (hash >> ((y * 8 + x) as u64)) & 1 == 1 <==> samples[y * 9 + x] > samples[y * 9 + x + 1],
{
    let k = (y * 8 + x) as u64;
    assert(k / 8 == y && k % 8 == x);
    assert(bit(hash, k) <==> falls(samples, k as int));
}

/// Changing one sample can change the bit of its own place and that of its left neighbour,
/// and no other. Raised above its right neighbour, it sets its own.
pub proof fn law_a_sample_counts_in_its_own_row(
    samples: Seq<u8>,
    column: int,
    row: int,
    value: u8,
    before: u64,
    after: u64,
)
    requires
        samples.len() >= 72,
        0 <= column < 9,
        0 <= row < 8,
        is_gradient_hash(samples, before),
        is_gradient_hash(samples.update(row * 9 + column, value), after),
    ensures
        forall|x: u64, y: u64|
            x < 8 && y < 8 && (y != row || (x != column && x + 1 != column)) ==> ((
            #[trigger] (before >> ((y * 8 + x) as u64)) & 1 == 1) <==> (after >> ((y * 8
                + x) as u64)) & 1 == 1),
        column < 8 && value > samples[row * 9 + column + 1] ==> (after >> ((row * 8
            + column) as u64)) & 1 == 1,
{
    let changed = samples.update(row * 9 + column, value);
    assert forall|x: u64, y: u64|
        x < 8 && y < 8 && (y != row || (x != column && x + 1 != column)) implies ((
    #[trigger] (before >> ((y * 8 + x) as u64)) & 1 == 1) <==> (after >> ((y * 8 + x) as u64)) & 1
        == 1) by {
        law_hash_bit_is_set_where_brightness_falls(samples, before, x, y);
        law_hash_bit_is_set_where_brightness_falls(changed, after, x, y);
    }
    if column < 8 {
        law_hash_bit_is_set_where_brightness_falls(changed, after, column as u64, row as u64);
    }
}

/// The contrasts of whole rows, place by place.
proof fn lemma_rows_entries(samples: Seq<u8>, width: int, rows: nat, x: int, y: int)
    requires
        width >= 3,
    ensures
        rows_contrasts(samples, width, rows).len() == rows * (width - 2),
        1 <= x < width - 1 && 1 <= y <= rows ==> (y - 1) * (width - 2) + (x - 1) < rows * (width
            - 2) && rows_contrasts(samples, width, rows)[(y - 1) * (width - 2) + (x - 1)]
            == contrast(samples, width, x, y) as u32,
    decreases rows,
{
    if rows > 0 {
        let less = (rows - 1) as nat;
        lemma_rows_entries(samples, width, less, x, y);
        let inner = width - 2;
        assert(rows * inner == less * inner + inner) by (nonlinear_arith)
            requires
                less == rows - 1,
        ;
        if 1 <= x < width - 1 && 1 <= y <= rows {
            assert((y - 1) * inner >= 0) by (nonlinear_arith)
                requires
                    y >= 1,
                    inner >= 1,
            ;
            if y == rows {
                assert((y - 1) * inner == less * inner);
                assert(rows_contrasts(samples, width, rows)[less * inner + (x - 1)]
                    == row_contrasts(samples, width, rows as int)[x - 1]);
            }
        }
    } else {
        assert(rows * (width - 2) == 0) by (nonlinear_arith)
            requires
                rows == 0,
        ;
    }
}

/// The contrasts of an image stand row by row, one for each place that has four neighbours:
/// the sum of the neighbours less four times the place, without its sign.
pub proof fn law_contrast_at_each_place(samples: Seq<u8>, width: int, height: int, x: int, y: int)
    requires
        width >= 3,
        height >= 3,
        1 <= x < width - 1,
        1 <= y < height - 1,
    ensures
        all_contrasts(samples, width, height).len() == (width - 2) * (height - 2),
        0 <= (y - 1) * (width - 2) + (x - 1) < (width - 2) * (height - 2),
        ({
            let difference = samples[y * width + x - 1] + samples[y * width + x + 1] + samples[(y
                - 1) * width + x] + samples[(y + 1) * width + x] - 4 * samples[y * width + x];
            all_contrasts(samples, width, height)[(y - 1) * (width - 2) + (x - 1)] == if difference
                >= 0 {
                difference
            } else {
                -difference
            }
        }),
{
    lemma_rows_entries(samples, width, (height - 2) as nat, x, y);
    assert((height - 2) * (width - 2) == (width - 2) * (height - 2)) by (nonlinear_arith);
    assert((y - 1) * (width - 2) >= 0) by (nonlinear_arith)
        requires
            y >= 1,
            width >= 3,
    ;
}

/// An image with fewer than three rows or columns has no contrasts.
pub proof fn law_small_image_has_no_contrasts(samples: Seq<u8>, width: int, height: int)
    requires
        width < 3 || height < 3,
    ensures
        all_contrasts(samples, width, height).len() == 0,
{
}

/// Blur is measured in the brightness of the image made to fit 640 by 640, all of it.
pub proof fn law_blur_is_measured_in_the_fitted_image(image: Seq<int>)
    ensures
        ({
            let fitted = resized_within(image, 640, 640);
            blur_values_of(image) == all_contrasts(luma_samples(fitted), fitted[0], fitted[1])
        }),
{
}

/// A measured record holds what is known of the file, the size of the image as it is, and the
/// hash of its brightness at nine by eight.
pub proof fn law_measurement_holds_every_field(
    path: Seq<char>,
    facts: FileFacts,
    content_hash: Seq<char>,
    blur_score: Option<u64>,
    image: Seq<int>,
    record: RecordView,
)
    requires
        is_measurement(path, facts, content_hash, blur_score, image, record),
    ensures
        record.path == path,
        record.size_bytes == facts.size_bytes,
        record.modified_at == facts.modified_at,
        record.content_hash == content_hash,
        record.width == image[0] as u32,
        record.height == image[1] as u32,
        record.blur_score == blur_score,
        record.perceptual_hash is Some,
        forall|x: u64, y: u64|
            x < 8 && y < 8 ==> ((#[trigger] (record.perceptual_hash->0 >> ((y * 8 + x) as u64)) & 1
                == 1) <==> luma_samples(resized_exactly(image, 9, 8))[y * 9 + x] > luma_samples(
                resized_exactly(image, 9, 8),
            )[y * 9 + x + 1]),
{
    let hash = record.perceptual_hash->0;
    let samples = luma_samples(resized_exactly(image, 9, 8));
    assert forall|x: u64, y: u64| x < 8 && y < 8 implies ((
    #[trigger] (hash >> ((y * 8 + x) as u64)) & 1 == 1) <==> samples[y * 9 + x] > samples[y * 9 + x
        + 1]) by {
        law_hash_bit_is_set_where_brightness_falls(samples, hash, x, y);
    }
}

/// There is room to measure an image if its rows and columns on the way take no more bytes
/// than an allocation can have: eight rows for the hash, and what fits 640 by 640 for blur.
pub proof fn law_room_for_measuring(image: Seq<int>, include_blur_score: bool)
    ensures
        is_resizable(image, include_blur_score) <==> image[0] * 8 * 16 <= isize::MAX && (
        include_blur_score ==> (image[0] + image[0] * 640) * 16 <= isize::MAX || (image[0]
            + image[1] * 640) * 16 <= isize::MAX),
        usize::BITS == 64 && 0 <= image[0] <= u32::MAX && 0 <= image[1] <= u32::MAX
            ==> is_resizable(image, include_blur_score),
{
}

} // verus!
