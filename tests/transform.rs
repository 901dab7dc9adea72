use pillowimage::format::{ImageError, PILMode};
use pillowimage::image::PILImage;

fn lines(im: &PILImage) -> Vec<Vec<u8>> {
    (0..im.height()).map(|y| im.raster_line(y).unwrap().to_vec()).collect()
}

fn sample_rgba() -> PILImage {
    let l = vec![vec![1, 2, 3, 4, 5, 6, 7, 8, 9, 10, 11, 12], vec![13, 14, 15, 16, 17, 18, 19, 20, 21, 22, 23, 24]];
    PILImage::from_lines(PILMode::RGBA, 3, 2, l).unwrap()
}

#[test]
fn flip_left_right_reverses_pixels() {
    let im = sample_rgba();
    let out = PILImage::new(PILMode::RGBA, 3, 2).unwrap();
    let f = im.flip_left_right(out).unwrap();
    assert_eq!(f.raster_line(0).unwrap(), &[9, 10, 11, 12, 5, 6, 7, 8, 1, 2, 3, 4][..]);
    let out2 = PILImage::new(PILMode::RGBA, 3, 2).unwrap();
    let back = f.flip_left_right(out2).unwrap();
    assert_eq!(lines(&back), lines(&im));
}

#[test]
fn flip_left_right_needs_matching_output() {
    let im = sample_rgba();
    let out = PILImage::new(PILMode::RGBA, 2, 3).unwrap();
    assert!(matches!(im.flip_left_right(out), Err(ImageError::Mismatch)));
    let out = PILImage::new(PILMode::L, 3, 2).unwrap();
    assert!(matches!(im.flip_left_right(out), Err(ImageError::Mismatch)));
}

#[test]
fn flip_top_bottom_twice_is_identity() {
    let im = sample_rgba();
    let f = im.flip_top_bottom();
    assert_eq!(f.raster_line(0).unwrap(), im.raster_line(1).unwrap());
    assert_eq!(lines(&f.flip_top_bottom()), lines(&im));
}

#[test]
fn rotate_90_four_times_is_identity() {
    let im = PILImage::from_lines(PILMode::L, 3, 2, vec![vec![1, 2, 3], vec![4, 5, 6]]).unwrap();
    let r = im.rotate_90();
    assert_eq!(r.width(), 2);
    assert_eq!(r.height(), 3);
    assert_eq!(lines(&r), vec![vec![3, 6], vec![2, 5], vec![1, 4]]);
    let back = r.rotate_90().rotate_90().rotate_90();
    assert_eq!(lines(&back), lines(&im));
}

#[test]
fn rotate_180_and_270() {
    let im = PILImage::from_lines(PILMode::L, 3, 2, vec![vec![1, 2, 3], vec![4, 5, 6]]).unwrap();
    assert_eq!(lines(&im.rotate_180()), vec![vec![6, 5, 4], vec![3, 2, 1]]);
    assert_eq!(lines(&im.rotate_270()), vec![vec![4, 1], vec![5, 2], vec![6, 3]]);
    assert_eq!(lines(&im.rotate_90().rotate_90()), lines(&im.rotate_180()));
}

#[test]
fn crop_takes_the_block() {
    let im = PILImage::from_lines(PILMode::L, 4, 3, vec![vec![0, 1, 2, 3], vec![4, 5, 6, 7], vec![8, 9, 10, 11]]).unwrap();
    let c = im.crop(1, 1, 3, 3).unwrap();
    assert_eq!(c.width(), 2);
    assert_eq!(c.height(), 2);
    assert_eq!(lines(&c), vec![vec![5, 6], vec![9, 10]]);
}

#[test]
fn crop_rejects_bad_regions() {
    let im = PILImage::new(PILMode::RGB, 4, 3).unwrap();
    assert!(matches!(im.crop(2, 0, 2, 3), Err(ImageError::InvalidRegion)));
    assert!(matches!(im.crop(0, 0, 5, 3), Err(ImageError::InvalidRegion)));
    assert!(matches!(im.crop(-1, 0, 2, 3), Err(ImageError::InvalidRegion)));
    assert!(matches!(im.crop(0, 2, 4, 1), Err(ImageError::InvalidRegion)));
    assert!(im.crop(0, 0, 4, 3).is_ok());
}
