use pillowimage::format::{ImageError, PILMode, PILType};
use pillowimage::image::PILImage;

fn rgb_2x2() -> PILImage {
    let lines = vec![vec![1, 2, 3, 99, 4, 5, 6, 99], vec![7, 8, 9, 99, 10, 11, 12, 99]];
    PILImage::from_lines(PILMode::RGB, 2, 2, lines).unwrap()
}

#[test]
fn new_is_zeroed() {
    let im = PILImage::new(PILMode::RGBA, 3, 2).unwrap();
    assert_eq!(im.width(), 3);
    assert_eq!(im.height(), 2);
    assert_eq!(im.pixel_channels(), 4);
    assert_eq!(im.pixel_size_bytes(), 4);
    assert_eq!(im.line_size_bytes(), 12);
    assert_eq!(im.pixel_type(), PILType::Uint8);
    assert_eq!(im.raster_line(1).unwrap(), &[0u8; 12][..]);
}

#[test]
fn new_rejects_bad_sizes() {
    assert!(matches!(PILImage::new(PILMode::L, 0, 3), Err(ImageError::Allocation)));
    assert!(matches!(PILImage::new(PILMode::L, 3, -1), Err(ImageError::Allocation)));
    assert!(matches!(PILImage::new(PILMode::RGB, 0x4000_0000, 1), Err(ImageError::Allocation)));
}

#[test]
fn from_lines_checks_shape() {
    assert!(matches!(PILImage::from_lines(PILMode::L, 2, 2, vec![vec![1, 2]]), Err(ImageError::Mismatch)));
    assert!(matches!(PILImage::from_lines(PILMode::L, 2, 2, vec![vec![1, 2], vec![3]]), Err(ImageError::Mismatch)));
    assert!(PILImage::from_lines(PILMode::L, 2, 2, vec![vec![1, 2], vec![3, 4]]).is_ok());
}

#[test]
fn raster_line_bounds() {
    let im = rgb_2x2();
    assert_eq!(im.raster_line(0).unwrap(), &[1, 2, 3, 99, 4, 5, 6, 99][..]);
    assert!(matches!(im.raster_line(2), Err(ImageError::Index)));
    assert!(matches!(im.raster_line(-1), Err(ImageError::Index)));
}

#[test]
fn set_byte_writes_one_byte() {
    let mut im = PILImage::new(PILMode::L, 2, 2).unwrap();
    im.set_byte(1, 1, 42).unwrap();
    assert_eq!(im.raster_line(1).unwrap(), &[0, 42][..]);
    assert_eq!(im.set_byte(1, 2, 1), Err(ImageError::Index));
    assert_eq!(im.set_byte(2, 0, 1), Err(ImageError::Index));
}

#[test]
fn to_vec_drops_padding() {
    let im = rgb_2x2();
    assert_eq!(im.to_vec(), vec![1, 2, 3, 4, 5, 6, 7, 8, 9, 10, 11, 12]);
}

#[test]
fn dump_pixels_keeps_tail() {
    let im = rgb_2x2();
    let mut buf = vec![200u8; 14];
    im.dump_pixels(&mut buf);
    assert_eq!(buf, vec![1, 2, 3, 4, 5, 6, 7, 8, 9, 10, 11, 12, 200, 200]);
}

#[test]
fn dump_planes_groups_channels() {
    let im = rgb_2x2();
    let mut buf = vec![0u8; 12];
    im.dump_planes(&mut buf);
    assert_eq!(buf, vec![1, 4, 7, 10, 2, 5, 8, 11, 3, 6, 9, 12]);
}

#[test]
fn raster_line_mut_writes_in_place() {
    let mut im = PILImage::new(PILMode::L, 3, 2).unwrap();
    im.raster_line_mut(1).unwrap().copy_from_slice(&[7, 8, 9]);
    assert!(matches!(im.raster_line_mut(2), Err(ImageError::Index)));
    assert!(matches!(im.raster_line_mut(-1), Err(ImageError::Index)));
    assert_eq!(im.raster_line(0).unwrap(), &[0, 0, 0][..]);
    assert_eq!(im.raster_line(1).unwrap(), &[7, 8, 9][..]);
    assert_eq!(im.to_vec(), vec![0, 0, 0, 7, 8, 9]);
}
