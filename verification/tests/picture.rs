//! Reading images and measuring them.
use std::io::Cursor;

use image::{DynamicImage, GrayImage as LumaImage, ImageFormat, Luma, Rgb, RgbImage};

use picture_cleaner::picture::{
    analyze_image, blur_values, calculate_perceptual_hash, can_resize, contrasts, gradient_hash,
    modified_secs, read_image, take_decoded, AnalyzeError, FileFacts, GrayImage, ReadImage,
};
use picture_cleaner::record::AnalyzedImage;

const FACTS: FileFacts = FileFacts { size_bytes: 11, modified_at: 22 };

fn gray(width: u32, height: u32, brightness: fn(u32, u32) -> u8) -> DynamicImage {
    DynamicImage::ImageLuma8(LumaImage::from_fn(width, height, |x, y| Luma([brightness(x, y)])))
}

fn png(image: &DynamicImage) -> Vec<u8> {
    let mut bytes: Vec<u8> = Vec::new();
    image.write_to(&mut Cursor::new(&mut bytes), ImageFormat::Png).unwrap();
    bytes
}

fn samples(width: u32, height: u32, samples: Vec<u8>) -> GrayImage {
    GrayImage { width, height, samples }
}

#[test]
fn the_hash_has_a_bit_for_each_fall() {
    let mut values: Vec<u8> = vec![0; 72];
    values[0] = 5;
    values[9 + 3] = 1;
    values[7 * 9 + 7] = 9;
    let expected: u64 = 1 | (1 << (8 + 3)) | (1 << 63);
    assert_eq!(gradient_hash(&samples(9, 8, values)), expected);
}

#[test]
fn the_last_column_has_no_bit_of_its_own() {
    let mut values: Vec<u8> = vec![0; 72];
    values[8] = 200;
    assert_eq!(gradient_hash(&samples(9, 8, values)), 0);
}

#[test]
fn a_plain_image_has_hash_zero_and_no_contrast() {
    assert_eq!(gradient_hash(&samples(9, 8, vec![7; 72])), 0);
    assert_eq!(contrasts(&samples(4, 4, vec![7; 16])), vec![0, 0, 0, 0]);
}

#[test]
fn contrast_is_measured_against_four_neighbours() {
    let values: Vec<u8> = vec![1, 20, 2, 30, 10, 40, 3, 50, 4];
    assert_eq!(contrasts(&samples(3, 3, values)), vec![100]);
    let peak: Vec<u8> = vec![0, 0, 0, 0, 255, 0, 0, 0, 0];
    assert_eq!(contrasts(&samples(3, 3, peak)), vec![1020]);
}

#[test]
fn contrasts_go_row_by_row() {
    let values: Vec<u8> = vec![0, 0, 0, 0, 0, 10, 0, 0, 0, 0, 0, 0];
    assert_eq!(contrasts(&samples(4, 3, values)), vec![40, 10]);
}

#[test]
fn small_images_have_no_contrasts() {
    assert!(contrasts(&samples(2, 9, vec![0; 18])).is_empty());
    assert!(contrasts(&samples(9, 2, vec![0; 18])).is_empty());
    assert!(contrasts(&samples(0, 0, Vec::new())).is_empty());
}

#[test]
fn an_image_is_shrunk_before_it_is_hashed() {
    assert_eq!(calculate_perceptual_hash(&gray(90, 80, |x, _| 250 - 2 * x as u8)), u64::MAX);
    assert_eq!(calculate_perceptual_hash(&gray(90, 80, |x, _| 2 * x as u8)), 0);
}

#[test]
fn colours_are_turned_into_brightness() {
    let image: DynamicImage =
        DynamicImage::ImageRgb8(RgbImage::from_fn(9, 8, |x, _| Rgb([0, 240 - 30 * x as u8, 0])));
    assert_eq!(calculate_perceptual_hash(&image), u64::MAX);
}

#[test]
fn an_image_is_made_to_fit_before_its_blur_is_measured() {
    assert_eq!(blur_values(&gray(10, 5, |_, _| 9)).len(), 638 * 318);
    assert!(blur_values(&gray(1280, 4, |_, _| 9)).is_empty());
    assert!(blur_values(&gray(640, 640, |_, _| 9)).iter().all(|value| *value == 0));
}

#[test]
fn wide_and_low_images_are_measured() {
    let image: DynamicImage = gray(300000, 10, |_, _| 9);
    assert!(can_resize(&image, true));
    assert_eq!(calculate_perceptual_hash(&image), 0);
    assert!(blur_values(&image).is_empty());
}

#[test]
fn edges_have_contrast() {
    let values: Vec<u32> = blur_values(&gray(640, 640, |x, _| if x < 320 { 0 } else { 200 }));
    assert_eq!(values.len(), 638 * 638);
    assert_eq!(values[317], 0);
    assert_eq!(values[318], 200);
    assert_eq!(values[319], 200);
    assert_eq!(values[320], 0);
}

#[test]
fn an_image_file_is_read_and_measured() {
    let content: Vec<u8> = png(&gray(90, 80, |x, _| 250 - 2 * x as u8));
    let image: ReadImage = read_image("dir/a.png", &content, true).unwrap();
    assert_eq!(image.blur_values().unwrap().len(), 638 * 567);
    let analyzed: AnalyzedImage =
        analyze_image("dir/a.png", FACTS, "hash", &image, 3.5f64.to_bits());
    assert_eq!(analyzed.record.path, "dir/a.png");
    assert_eq!(analyzed.record.size_bytes, 11);
    assert_eq!(analyzed.record.modified_at, 22);
    assert_eq!(analyzed.record.content_hash, "hash");
    assert_eq!(analyzed.record.width, 90);
    assert_eq!(analyzed.record.height, 80);
    assert_eq!(analyzed.record.blur_score, Some(3.5f64.to_bits()));
    assert_eq!(analyzed.record.perceptual_hash, Some(u64::MAX));
}

#[test]
fn blur_is_measured_on_request_only() {
    let content: Vec<u8> = png(&gray(9, 8, |x, _| x as u8));
    let image: ReadImage = read_image("a.png", &content, false).unwrap();
    assert!(image.blur_values().is_none());
    let analyzed: AnalyzedImage = analyze_image("a.png", FACTS, "", &image, 1.0f64.to_bits());
    assert_eq!(analyzed.record.blur_score, None);
    assert_eq!(analyzed.record.perceptual_hash, Some(0));
}

#[test]
fn the_format_is_that_of_the_content() {
    let content: Vec<u8> = png(&gray(9, 8, |_, _| 1));
    assert!(read_image("misnamed.jpg", &content, false).is_ok());
    assert!(read_image("unnamed", &content, false).is_ok());
}

#[test]
fn a_file_without_an_image_is_refused() {
    let refused = read_image("a.png", b"no image", true);
    assert_eq!(refused.err(), Some(AnalyzeError::Undecodable));
    let empty = read_image("a.png", b"", true);
    assert_eq!(empty.err(), Some(AnalyzeError::Undecodable));
}

#[test]
fn what_was_decoded_is_measured() {
    let image: DynamicImage = gray(9, 8, |x, _| 200 - 20 * x as u8);
    assert!(can_resize(&image, false));
    assert!(can_resize(&image, true));
    let read: ReadImage = take_decoded(Ok(image), false).unwrap();
    let analyzed: AnalyzedImage = analyze_image("a", FACTS, "h", &read, 0);
    assert_eq!(analyzed.record.perceptual_hash, Some(u64::MAX));
    assert_eq!(analyzed.record.width, 9);
    assert_eq!(analyzed.record.height, 8);
    let failure = image::load_from_memory(b"no image").unwrap_err();
    assert_eq!(take_decoded(Err(failure), false).err(), Some(AnalyzeError::Undecodable));
}

#[test]
fn an_unknown_time_of_change_is_zero() {
    assert_eq!(modified_secs(Some(5)), 5);
    assert_eq!(modified_secs(None), 0);
}
