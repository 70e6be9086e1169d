use imgcmp::Image;
use imgcmp::into_grayscale;
use imgcmp::scale_image;

#[test]
fn return_original_image_when_already_in_passed_dimensions() {
    let color1 = (100, 200, 50);
    let color2 = (20, 150, 80);
    let color3 = (255, 10, 0);
    let raw_data = vec![
        color1, color2, color3, color1,
        color1, color3, color2, color1,
        color1, color2, color1, color1,
        color2, color1, color1, color1,
    ];
    let source_image = Image::from_rgb(&raw_data, 4).unwrap();

    let scaled_image = scale_image(&source_image, 4, 4).unwrap();

    assert_eq!(source_image, scaled_image);
}

#[test]
fn reduce_both_dimensions() {
    let color1 = (100, 200, 50);
    let color2 = (20, 150, 80);
    let color3 = (255, 10, 0);
    let raw_data = vec![
        color1, color2, color3, color3,
        color1, color3, color3, color1,
        color1, color2, color1, color1,
        color2, color1, color1, color1,
    ];
    let source_image = Image::from_rgb(&raw_data, 4).unwrap();

    let scaled_image = scale_image(&source_image, 2, 2).unwrap();

    assert_eq!(scaled_image.get_width(), 2);
    assert_eq!(scaled_image.get_height(), 2);
    assert_eq!(*scaled_image.get_pixel(0, 0), vec![118, 140, 45]);
    assert_eq!(*scaled_image.get_pixel(1, 0), vec![216, 57, 12]);
    assert_eq!(*scaled_image.get_pixel(0, 1), vec![60, 175, 65]);
    assert_eq!(*scaled_image.get_pixel(1, 1), vec![100, 200, 50]);
}

#[test]
fn reduce_width_only() {
    let color1 = (100, 200, 50);
    let color2 = (20, 150, 80);
    let color3 = (255, 10, 0);
    let raw_data = vec![
        color1, color2, color3, color3,
        color1, color3, color3, color1,
        color1, color2, color1, color1,
        color2, color1, color1, color1,
    ];
    let source_image = Image::from_rgb(&raw_data, 4).unwrap();

    let scaled_image = scale_image(&source_image, 2, 4).unwrap();

    let expected_image = Image::from_rgb(
        &vec![
            (60, 175, 65), (255, 10, 0),
            (177, 105, 25), (177, 105, 25),
            (60, 175, 65), (100, 200, 50),
            (60, 175, 65), (100, 200, 50),
        ],
        2,
    )
    .unwrap();
    assert_eq!(scaled_image, expected_image);
}

#[test]
fn reduce_height_only() {
    let color1 = (100, 200, 50);
    let color2 = (20, 150, 80);
    let color3 = (255, 10, 0);
    let raw_data = vec![
        color1, color2, color3, color3,
        color1, color3, color3, color1,
        color1, color2, color1, color1,
        color2, color1, color1, color1,
    ];
    let source_image = Image::from_rgb(&raw_data, 4).unwrap();

    let scaled_image = scale_image(&source_image, 4, 2).unwrap();

    assert_eq!(scaled_image.get_width(), 4);
    assert_eq!(scaled_image.get_height(), 2);
    assert_eq!(*scaled_image.get_pixel(0, 0), vec![100, 200, 50]);
    assert_eq!(*scaled_image.get_pixel(1, 0), vec![137, 80, 40]);
    assert_eq!(*scaled_image.get_pixel(2, 0), vec![255, 10, 0]);
    assert_eq!(*scaled_image.get_pixel(3, 0), vec![177, 105, 25]);
    assert_eq!(*scaled_image.get_pixel(0, 1), vec![60, 175, 65]);
    assert_eq!(*scaled_image.get_pixel(1, 1), vec![60, 175, 65]);
    assert_eq!(*scaled_image.get_pixel(2, 1), vec![100, 200, 50]);
    assert_eq!(*scaled_image.get_pixel(3, 1), vec![100, 200, 50]);
}

#[test]
fn increase_both_dimensions() {
    let color1 = (100, 200, 50, 200);
    let color2 = (20, 150, 80, 255);
    let color3 = (255, 10, 0, 0);
    let color4 = (80, 80, 80, 100);
    let raw_data = vec![
        color1, color2,
        color3, color4,
    ];
    let source_image = Image::from_rgba(&raw_data, 2).unwrap();

    let scaled_image = scale_image(&source_image, 4, 4).unwrap();

    assert_eq!(scaled_image.get_width(), 4);
    assert_eq!(scaled_image.get_height(), 4);
    assert_eq!(*scaled_image.get_pixel(0, 0), vec![100, 200, 50, 200]);
    assert_eq!(*scaled_image.get_pixel(1, 0), vec![100, 200, 50, 200]);
    assert_eq!(*scaled_image.get_pixel(2, 0), vec![20, 150, 80, 255]);
    assert_eq!(*scaled_image.get_pixel(3, 0), vec![20, 150, 80, 255]);
    assert_eq!(*scaled_image.get_pixel(0, 1), vec![100, 200, 50, 200]);
    assert_eq!(*scaled_image.get_pixel(1, 1), vec![100, 200, 50, 200]);
    assert_eq!(*scaled_image.get_pixel(2, 1), vec![20, 150, 80, 255]);
    assert_eq!(*scaled_image.get_pixel(3, 1), vec![20, 150, 80, 255]);
    assert_eq!(*scaled_image.get_pixel(0, 2), vec![255, 10, 0, 0]);
    assert_eq!(*scaled_image.get_pixel(1, 2), vec![255, 10, 0, 0]);
    assert_eq!(*scaled_image.get_pixel(2, 2), vec![80, 80, 80, 100]);
    assert_eq!(*scaled_image.get_pixel(3, 2), vec![80, 80, 80, 100]);
    assert_eq!(*scaled_image.get_pixel(0, 3), vec![255, 10, 0, 0]);
    assert_eq!(*scaled_image.get_pixel(1, 3), vec![255, 10, 0, 0]);
    assert_eq!(*scaled_image.get_pixel(2, 3), vec![80, 80, 80, 100]);
    assert_eq!(*scaled_image.get_pixel(3, 3), vec![80, 80, 80, 100]);
}

#[test]
fn reduce_to_not_exactly_divisible_dimensions() {
    let color1 = (100, 200, 50);
    let color2 = (20, 150, 80);
    let color3 = (255, 10, 0);
    let raw_data = vec![
        color1, color2, color3, color3,
        color1, color3, color3, color1,
        color1, color2, color1, color1,
        color2, color1, color1, color1,
    ];
    let source_image = Image::from_rgb(&raw_data, 4).unwrap();

    let scaled_image = scale_image(&source_image, 3, 3).unwrap();

    assert_eq!(scaled_image.get_width(), 3);
    assert_eq!(scaled_image.get_height(), 3);
    assert_eq!(*scaled_image.get_pixel(0, 0), vec![118, 140, 45]);
    assert_eq!(*scaled_image.get_pixel(1, 0), vec![196, 45, 20]);
    assert_eq!(*scaled_image.get_pixel(2, 0), vec![216, 57, 12]);
    assert_eq!(*scaled_image.get_pixel(0, 1), vec![118, 140, 45]);
    assert_eq!(*scaled_image.get_pixel(1, 1), vec![157, 92, 32]);
    assert_eq!(*scaled_image.get_pixel(2, 1), vec![138, 152, 37]);
    assert_eq!(*scaled_image.get_pixel(0, 2), vec![60, 175, 65]);
    assert_eq!(*scaled_image.get_pixel(1, 2), vec![80, 187, 57]);
    assert_eq!(*scaled_image.get_pixel(2, 2), vec![100, 200, 50]);
}

#[test]
fn return_error_when_passed_dimensions_are_zero() {
    let color1 = (100, 200, 50);
    let raw_data = vec![color1, color1];
    let source_image = Image::from_rgb(&raw_data, 1).unwrap();

    let result = scale_image(&source_image, 0, 1);
    assert!(result.is_err());
    let result = scale_image(&source_image, 1, 0);
    assert!(result.is_err());
    let result = scale_image(&source_image, 0, 0);
    assert!(result.is_err());
}

#[test]
fn return_average_of_all_channels() {
    let color1 = (100, 200, 50);
    let color2 = (20, 150, 80);
    let color3 = (255, 10, 0);
    let raw_data = vec![
        color1, color2, color3,
        color1, color3, color2,
        color1, color2, color1,
    ];
    let source_image = Image::from_rgb(&raw_data, 3).unwrap();

    let scaled_image = into_grayscale(source_image);

    assert_eq!(scaled_image.get_width(), 3);
    assert_eq!(scaled_image.get_height(), 3);
    assert_eq!(*scaled_image.get_pixel(0, 0), vec![116]);
    assert_eq!(*scaled_image.get_pixel(1, 0), vec![83]);
    assert_eq!(*scaled_image.get_pixel(2, 0), vec![88]);
    assert_eq!(*scaled_image.get_pixel(0, 1), vec![116]);
    assert_eq!(*scaled_image.get_pixel(1, 1), vec![88]);
    assert_eq!(*scaled_image.get_pixel(2, 1), vec![83]);
    assert_eq!(*scaled_image.get_pixel(0, 2), vec![116]);
    assert_eq!(*scaled_image.get_pixel(1, 2), vec![83]);
    assert_eq!(*scaled_image.get_pixel(2, 2), vec![116]);
}

#[test]
fn grayscale_is_idempotent() {
    let raw_data = vec![(10, 20, 40), (200, 100, 3), (0, 0, 1), (255, 255, 255)];
    let source_image = Image::from_rgb(&raw_data, 2).unwrap();

    let once = into_grayscale(source_image);
    let twice = into_grayscale(once.clone());

    assert_eq!(once, twice);
    assert_eq!(once.get_channels_per_pixel(), 1);
}
