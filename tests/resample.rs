use pillowimage::coeffs::precompute_coeffs;
use pillowimage::format::{ImageError, PILFilter, PILMode};
use pillowimage::image::PILImage;
use pillowimage::resample::CropBox;

const ALL: [PILFilter; 6] = [PILFilter::Nearest, PILFilter::Box_, PILFilter::Bilinear, PILFilter::Hamming, PILFilter::Bicubic, PILFilter::Lanczos];

fn lines(im: &PILImage) -> Vec<Vec<u8>> {
    (0..im.height()).map(|y| im.raster_line(y).unwrap().to_vec()).collect()
}

fn whole(im: &PILImage) -> CropBox {
    CropBox { x0: 0, y0: 0, x1: im.width(), y1: im.height(), denom: 1 }
}

fn gradient_4x4() -> PILImage {
    let l = (0..4u8).map(|y| (0..4u8).map(|x| y * 4 + x).collect()).collect();
    PILImage::from_lines(PILMode::L, 4, 4, l).unwrap()
}

#[test]
fn box_halving_averages_blocks() {
    let im = gradient_4x4();
    let r = im.resample_crop(2, 2, PILFilter::Box_, whole(&im)).unwrap();
    assert_eq!(r.to_vec(), vec![3, 5, 11, 13]);
}

#[test]
fn same_size_is_identity_for_every_filter() {
    let l = vec![vec![10, 20, 30, 0, 40, 50, 60, 0, 250, 1, 2, 0], vec![7, 77, 177, 0, 3, 33, 133, 0, 90, 91, 92, 0]];
    let im = PILImage::from_lines(PILMode::RGB, 3, 2, l).unwrap();
    for f in ALL {
        let r = im.resample(3, 2, f).unwrap();
        assert_eq!(lines(&r), lines(&im));
    }
}

#[test]
fn resampling_clears_padding() {
    let im = PILImage::from_lines(PILMode::RGB, 1, 1, vec![vec![1, 2, 3, 4]]).unwrap();
    let r = im.resample(1, 1, PILFilter::Nearest).unwrap();
    assert_eq!(r.raster_line(0).unwrap(), &[1, 2, 3, 0][..]);
}

#[test]
fn constant_image_stays_constant() {
    let im = PILImage::from_lines(PILMode::L, 5, 3, vec![vec![100; 5]; 3]).unwrap();
    for f in ALL {
        let up = im.resample_crop(13, 7, f, whole(&im)).unwrap();
        assert_eq!(up.to_vec(), vec![100; 13 * 7]);
        let down = im.resample_crop(2, 1, f, whole(&im)).unwrap();
        assert_eq!(down.to_vec(), vec![100; 2]);
    }
}

#[test]
fn crop_past_the_edge_is_clamped() {
    let im = PILImage::from_lines(PILMode::L, 4, 4, vec![vec![80; 4]; 4]).unwrap();
    let crop = CropBox { x0: -2, y0: -2, x1: 6, y1: 6, denom: 1 };
    for f in [PILFilter::Bilinear, PILFilter::Hamming, PILFilter::Bicubic, PILFilter::Lanczos] {
        let r = im.resample_crop(4, 4, f, crop).unwrap();
        assert_eq!(r.to_vec(), vec![80; 16]);
    }
}

#[test]
fn crop_past_the_edge_with_empty_window() {
    let im = PILImage::from_lines(PILMode::L, 4, 4, vec![vec![80; 4]; 4]).unwrap();
    let crop = CropBox { x0: -2, y0: -2, x1: 6, y1: 6, denom: 1 };
    // the first destination pixel's box window lies wholly left of the image
    assert!(matches!(im.resample_crop(4, 4, PILFilter::Box_, crop), Err(ImageError::DegenerateKernel)));
}

#[test]
fn sub_pixel_crop() {
    let im = gradient_4x4();
    // the region from 1 to 3 in both directions, in halves of a pixel
    let crop = CropBox { x0: 2, y0: 2, x1: 6, y1: 6, denom: 2 };
    let r = im.resample_crop(2, 2, PILFilter::Nearest, crop).unwrap();
    assert_eq!(r.to_vec(), vec![5, 6, 9, 10]);
}

#[test]
fn nearest_downscale_picks_centres() {
    let im = gradient_4x4();
    let r = im.resample_crop(2, 2, PILFilter::Nearest, whole(&im)).unwrap();
    assert_eq!(r.to_vec(), vec![5, 7, 13, 15]);
}

#[test]
fn bilinear_upscale_interpolates() {
    let im = PILImage::from_lines(PILMode::L, 2, 1, vec![vec![0, 100]]).unwrap();
    let r = im.resample_crop(4, 1, PILFilter::Bilinear, whole(&im)).unwrap();
    assert_eq!(r.to_vec(), vec![0, 25, 75, 100]);
}

#[test]
fn resample_errors() {
    let im = gradient_4x4();
    assert!(matches!(im.resample(0, 2, PILFilter::Box_), Err(ImageError::InvalidDimension)));
    assert!(matches!(im.resample(2, -1, PILFilter::Box_), Err(ImageError::InvalidDimension)));
    let bad = CropBox { x0: 0, y0: 0, x1: 4, y1: 4, denom: 0 };
    assert!(matches!(im.resample_crop(2, 2, PILFilter::Box_, bad), Err(ImageError::DegenerateKernel)));
    let empty = CropBox { x0: 2, y0: 0, x1: 2, y1: 4, denom: 1 };
    assert!(matches!(im.resample_crop(2, 2, PILFilter::Box_, empty), Err(ImageError::DegenerateKernel)));
    let far = CropBox { x0: 100, y0: 0, x1: 104, y1: 4, denom: 1 };
    assert!(matches!(im.resample_crop(2, 2, PILFilter::Bilinear, far), Err(ImageError::DegenerateKernel)));
}

#[test]
fn weights_sum_to_one() {
    let one: i64 = 1 << 22;
    for f in ALL {
        for (src, dst) in [(1usize, 1usize), (4, 2), (2, 7), (100, 3), (3, 100), (7, 7), (1000, 1), (999, 2)] {
            let cs = precompute_coeffs(f, src, dst, 0, src as i32, 1).unwrap();
            assert_eq!(cs.len(), dst);
            for e in &cs {
                let s: i64 = e.weights.iter().sum();
                assert_eq!(s, one, "{:?} {} {}", f, src, dst);
                assert!(e.start + e.weights.len() <= src);
            }
        }
    }
}

#[test]
fn empty_destination_is_degenerate() {
    assert!(matches!(precompute_coeffs(PILFilter::Box_, 4, 0, 0, 4, 1), Err(ImageError::DegenerateKernel)));
}

#[test]
fn zero_weights_at_the_edges_are_dropped() {
    let cs = precompute_coeffs(PILFilter::Bilinear, 5, 5, 0, 5, 1).unwrap();
    for (i, e) in cs.iter().enumerate() {
        assert_eq!(e.start, i);
        assert_eq!(e.weights, vec![1 << 22]);
    }
    let cs = precompute_coeffs(PILFilter::Bicubic, 4, 4, 0, 4, 1).unwrap();
    assert!(cs.iter().all(|e| e.weights.len() == 1));
}

#[test]
fn box_halving_coefficients() {
    let cs = precompute_coeffs(PILFilter::Box_, 4, 2, 0, 4, 1).unwrap();
    assert_eq!(cs[0].start, 0);
    assert_eq!(cs[0].weights, vec![1 << 21, 1 << 21]);
    assert_eq!(cs[1].start, 2);
    assert_eq!(cs[1].weights, vec![1 << 21, 1 << 21]);
}

fn int_image(w: i32, rows: Vec<Vec<i32>>) -> PILImage {
    let h = rows.len() as i32;
    let l = rows.iter().map(|r| r.iter().flat_map(|v| v.to_le_bytes()).collect()).collect();
    PILImage::from_lines(PILMode::I, w, h, l).unwrap()
}

fn int_values(im: &PILImage) -> Vec<i32> {
    let mut out = Vec::new();
    for y in 0..im.height() {
        let l = im.raster_line(y).unwrap();
        for c in l.chunks(4) {
            out.push(i32::from_le_bytes([c[0], c[1], c[2], c[3]]));
        }
    }
    out
}

#[test]
fn integer_bilinear_upscale() {
    let im = int_image(2, vec![vec![0, 1000]]);
    let r = im.resample_crop(4, 1, PILFilter::Bilinear, whole(&im)).unwrap();
    assert_eq!(int_values(&r), vec![0, 250, 750, 1000]);
}

#[test]
fn integer_values_are_not_clamped_to_bytes() {
    let im = int_image(3, vec![vec![-5000, -5000, -5000], vec![-5000, -5000, -5000]]);
    for f in ALL {
        let r = im.resample_crop(7, 5, f, whole(&im)).unwrap();
        assert_eq!(int_values(&r), vec![-5000; 35]);
    }
    let big = int_image(2, vec![vec![2_000_000_000, 2_000_000_000]]);
    let r = big.resample_crop(1, 1, PILFilter::Box_, whole(&big)).unwrap();
    assert_eq!(int_values(&r), vec![2_000_000_000]);
}

#[test]
fn float_mode_is_refused() {
    let f = PILImage::new(PILMode::F, 2, 2).unwrap();
    assert!(matches!(f.resample(1, 1, PILFilter::Box_), Err(ImageError::WrongMode)));
}

#[test]
fn palette_and_one_bit_resample_like_grey() {
    for mode in [PILMode::P, PILMode::Unit] {
        let im = PILImage::from_lines(mode, 4, 4, (0..4u8).map(|y| (0..4u8).map(|x| y * 4 + x).collect()).collect()).unwrap();
        let same = im.resample(4, 4, PILFilter::Nearest).unwrap();
        assert_eq!(same.to_vec(), im.to_vec());
        let r = im.resample_crop(2, 2, PILFilter::Box_, whole(&im)).unwrap();
        assert_eq!(r.mode(), mode);
        assert_eq!(r.to_vec(), vec![3, 5, 11, 13]);
    }
}

#[test]
fn wide_box_shrink_keeps_constant() {
    let im = PILImage::from_lines(PILMode::L, 100_000, 1, vec![vec![255; 100_000]]).unwrap();
    let r = im.resample_crop(1, 1, PILFilter::Box_, whole(&im)).unwrap();
    assert_eq!(r.to_vec(), vec![255]);
    let im = PILImage::from_lines(PILMode::L, 1000, 1, vec![vec![7; 1000]]).unwrap();
    assert_eq!(im.resample_crop(3, 1, PILFilter::Lanczos, whole(&im)).unwrap().to_vec(), vec![7, 7, 7]);
    let big = int_image(1000, vec![vec![2_000_000_000; 1000]]);
    assert_eq!(int_values(&big.resample_crop(1, 1, PILFilter::Box_, whole(&big)).unwrap()), vec![2_000_000_000]);
}

#[test]
fn integer_same_size_is_identity() {
    let im = int_image(3, vec![vec![-7, 2_000_000_000, 0], vec![i32::MIN, i32::MAX, 123_456]]);
    for f in ALL {
        let r = im.resample(3, 2, f).unwrap();
        assert_eq!(int_values(&r), int_values(&im));
    }
}

#[test]
fn default_crop_is_the_destination_extent() {
    let im = PILImage::from_lines(PILMode::L, 2, 1, vec![vec![0, 200]]).unwrap();
    assert_eq!(im.resample(1, 1, PILFilter::Nearest).unwrap().to_vec(), vec![0]);
    let same = CropBox { x0: 0, y0: 0, x1: 1, y1: 1, denom: 1 };
    assert_eq!(im.resample_crop(1, 1, PILFilter::Nearest, same).unwrap().to_vec(), vec![0]);
    assert_eq!(im.resample_crop(1, 1, PILFilter::Nearest, whole(&im)).unwrap().to_vec(), vec![200]);
}
