use imgcmp::Config;
use imgcmp::ErrorKind;
use imgcmp::Image;
use imgcmp::compare_images;
use imgcmp::into_grayscale;
use imgcmp::scale_image;

/// A smooth synthetic picture: two color gradients and a bright disc.
fn test_picture() -> Image {
    Image::from(&test_picture_bytes(), 256, 3).unwrap()
}

/// A structurally different picture: a coarse checkerboard.
fn other_picture() -> Image {
    let mut buffer: Vec<u8> = Vec::new();
    for y in 0i32..192 {
        for x in 0i32..256 {
            let value = if (x / 32 + y / 32) % 2 == 0 { 255 } else { 0 };
            buffer.push(value);
            buffer.push(value);
            buffer.push(value);
        }
    }
    Image::from(&buffer, 256, 3).unwrap()
}

fn test_config() -> Config {
    Config { dct_dimension: 32, dct_reduced_dimension: 8, allowed_distance: 3 }
}

#[test]
fn identical_pictures_are_same() {
    let img1 = test_picture();
    let img2 = test_picture();
    assert_eq!(compare_images(&img1, &img2, test_config()).unwrap(), true);
}

#[test]
fn identical_pictures_are_same_with_zero_threshold() {
    let img1 = test_picture();
    let img2 = img1.clone();
    let config = Config { dct_dimension: 32, dct_reduced_dimension: 8, allowed_distance: 0 };
    assert_eq!(compare_images(&img1, &img2, config).unwrap(), true);
}

#[test]
fn grayscale_copy_is_same_as_original() {
    let img = test_picture();
    let grayscale_img = into_grayscale(img.clone());
    assert_eq!(compare_images(&img, &grayscale_img, test_config()).unwrap(), true);
}

#[test]
fn resized_copy_is_same_as_original() {
    let img = test_picture();
    let distorted = scale_image(&img, 256 / 4, 192 / 2).unwrap();
    assert_eq!(compare_images(&img, &distorted, test_config()).unwrap(), true);
}

/// The raw RGB bytes of [`test_picture`].
fn test_picture_bytes() -> Vec<u8> {
    let mut buffer: Vec<u8> = Vec::new();
    for y in 0i32..192 {
        for x in 0i32..256 {
            buffer.push(x as u8);
            buffer.push(((y * 4) / 3 % 256) as u8);
            let inside = (x - 80) * (x - 80) + (y - 96) * (y - 96) < 2500;
            buffer.push(if inside { 255 } else { 40 });
        }
    }
    buffer
}

#[test]
fn blurred_copy_is_same_as_original() {
    let img = test_picture();

    let raster = image::RgbImage::from_raw(256, 192, test_picture_bytes()).unwrap();
    let blurred = image::DynamicImage::ImageRgb8(raster).blur(3.0);
    let channels = blurred.color().channel_count();
    let blurred_img = Image::from(&blurred.into_bytes(), 256, channels).unwrap();

    assert_eq!(compare_images(&img, &blurred_img, test_config()).unwrap(), true);
}

#[test]
fn resized_and_blurred_copy_is_same_as_original() {
    let img = test_picture();

    let raster = image::RgbImage::from_raw(256, 192, test_picture_bytes()).unwrap();
    let transformed = image::DynamicImage::ImageRgb8(raster)
        .resize_exact(256 / 4, 192 / 2, image::imageops::FilterType::Gaussian)
        .blur(3.0);
    let channels = transformed.color().channel_count();
    let width = transformed.width();
    let transformed_img = Image::from(&transformed.into_bytes(), width, channels).unwrap();

    assert_eq!(compare_images(&img, &transformed_img, test_config()).unwrap(), true);
}

#[test]
fn different_pictures_are_not_same() {
    let img1 = test_picture();
    let img2 = other_picture();
    assert_eq!(compare_images(&img1, &img2, test_config()).unwrap(), false);
}

#[test]
fn reject_zero_reduced_dimension() {
    let img = test_picture();
    let config = Config { dct_dimension: 32, dct_reduced_dimension: 0, allowed_distance: 0 };
    let result = compare_images(&img, &img, config);
    assert!(result.is_err());
    assert_eq!(result.unwrap_err().kind, ErrorKind::InvalidInput);
}

#[test]
fn reject_reduced_dimension_above_dimension() {
    let img = test_picture();
    let config = Config { dct_dimension: 4, dct_reduced_dimension: 8, allowed_distance: 0 };
    let result = compare_images(&img, &img, config);
    assert!(result.is_err());
    assert_eq!(result.unwrap_err().kind, ErrorKind::InvalidInput);
}

#[test]
fn reject_oversized_reduced_block() {
    // A 9 by 9 reduced block holds 81 cells and cannot be packed in 64 bits.
    let img = test_picture();
    let config = Config { dct_dimension: 32, dct_reduced_dimension: 9, allowed_distance: 0 };
    let result = compare_images(&img, &img, config);
    assert!(result.is_err());
    assert_eq!(result.unwrap_err().kind, ErrorKind::InvalidInput);
}

#[test]
fn reject_threshold_above_sixty_four() {
    let img = test_picture();
    let config = Config { dct_dimension: 32, dct_reduced_dimension: 8, allowed_distance: 65 };
    let result = compare_images(&img, &img, config);
    assert!(result.is_err());
    assert_eq!(result.unwrap_err().kind, ErrorKind::InvalidInput);
}

#[test]
fn one_cell_hash_collapses_every_picture() {
    // With a 1 by 1 reduced block the only cell is the zeroed DC term, so
    // every image packs to the same one-bit hash and all pictures compare
    // equal: the smallest valid configuration carries no information.
    let img1 = test_picture();
    let img2 = other_picture();
    let config = Config { dct_dimension: 1, dct_reduced_dimension: 1, allowed_distance: 0 };
    assert_eq!(compare_images(&img1, &img2, config).unwrap(), true);
}

#[test]
fn default_config_compares_exactly() {
    let config = Config::default();
    assert_eq!(config.dct_dimension, 32);
    assert_eq!(config.dct_reduced_dimension, 8);
    assert_eq!(config.allowed_distance, 0);

    let img = test_picture();
    assert_eq!(compare_images(&img, &img.clone(), config).unwrap(), true);
}
