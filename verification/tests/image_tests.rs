use imgcmp::ErrorKind;
use imgcmp::Image;

#[test]
fn build_image_from_byte_buffer() {
    let buffer: Vec<u8> = vec![1, 2, 3, 4, 5, 6, 7, 8, 9, 10, 11, 12];
    let image = Image::from(&buffer, 2, 3).unwrap();

    assert_eq!(image.get_width(), 2);
    assert_eq!(image.get_height(), 2);
    assert_eq!(image.get_channels_per_pixel(), 3);
    assert_eq!(*image.get_pixel(0, 0), vec![1, 2, 3]);
    assert_eq!(*image.get_pixel(1, 0), vec![4, 5, 6]);
    assert_eq!(*image.get_pixel(0, 1), vec![7, 8, 9]);
    assert_eq!(*image.get_pixel(1, 1), vec![10, 11, 12]);
}

#[test]
fn truncate_partial_trailing_row() {
    // 7 bytes at 3 channels give 2 whole pixels; at width 2 that is one
    // whole row, and the trailing byte is dropped.
    let buffer: Vec<u8> = vec![1, 2, 3, 4, 5, 6, 7];
    let image = Image::from(&buffer, 2, 3).unwrap();

    assert_eq!(image.get_width(), 2);
    assert_eq!(image.get_height(), 1);
    assert_eq!(*image.get_pixel(0, 0), vec![1, 2, 3]);
    assert_eq!(*image.get_pixel(1, 0), vec![4, 5, 6]);
}

#[test]
fn reject_empty_buffer() {
    let buffer: Vec<u8> = vec![];
    let result = Image::from(&buffer, 2, 3);
    assert!(result.is_err());
    assert_eq!(result.unwrap_err().kind, ErrorKind::InvalidInput);
}

#[test]
fn reject_zero_width() {
    let buffer: Vec<u8> = vec![1, 2, 3];
    let result = Image::from(&buffer, 0, 3);
    assert!(result.is_err());
    assert_eq!(result.unwrap_err().kind, ErrorKind::InvalidInput);
}

#[test]
fn reject_zero_channels() {
    let buffer: Vec<u8> = vec![1, 2, 3];
    let result = Image::from(&buffer, 1, 0);
    assert!(result.is_err());
    assert_eq!(result.unwrap_err().kind, ErrorKind::InvalidInput);
}

#[test]
fn build_image_from_rgb_tuples() {
    let raw = vec![(1, 2, 3), (4, 5, 6), (7, 8, 9), (10, 11, 12)];
    let image = Image::from_rgb(&raw, 2).unwrap();

    assert_eq!(image.get_width(), 2);
    assert_eq!(image.get_height(), 2);
    assert_eq!(image.get_channels_per_pixel(), 3);
    assert_eq!(*image.get_pixel(1, 0), vec![4, 5, 6]);
    assert_eq!(*image.get_pixel(0, 1), vec![7, 8, 9]);
}

#[test]
fn build_image_from_rgba_tuples() {
    let raw = vec![(1, 2, 3, 4), (5, 6, 7, 8)];
    let image = Image::from_rgba(&raw, 2).unwrap();

    assert_eq!(image.get_width(), 2);
    assert_eq!(image.get_height(), 1);
    assert_eq!(image.get_channels_per_pixel(), 4);
    assert_eq!(*image.get_pixel(0, 0), vec![1, 2, 3, 4]);
    assert_eq!(*image.get_pixel(1, 0), vec![5, 6, 7, 8]);
}

#[test]
fn from_rgb_drops_partial_trailing_row() {
    let raw = vec![(1, 2, 3), (4, 5, 6), (7, 8, 9)];
    let image = Image::from_rgb(&raw, 2).unwrap();

    assert_eq!(image.get_width(), 2);
    assert_eq!(image.get_height(), 1);
}

#[test]
fn apply_rewrites_pixels_and_channel_count() {
    let raw = vec![(10, 20, 30), (40, 50, 60)];
    let mut image = Image::from_rgb(&raw, 2).unwrap();

    image.apply(|pixel: Vec<u8>| vec![pixel[0], pixel[1]]);

    assert_eq!(image.get_channels_per_pixel(), 2);
    assert_eq!(*image.get_pixel(0, 0), vec![10, 20]);
    assert_eq!(*image.get_pixel(1, 0), vec![40, 50]);
}

#[test]
fn clone_is_structurally_equal() {
    let raw = vec![(10, 20, 30), (40, 50, 60)];
    let image = Image::from_rgb(&raw, 2).unwrap();
    let copy = image.clone();
    assert_eq!(image, copy);
}
