use pillowimage::format::{ImageError, PILFilter, PILMode, PILType};

#[test]
fn type_codes_round_trip() {
    for t in [PILType::Uint8, PILType::Int32, PILType::Float32] {
        assert_eq!(PILType::from_raw(t.to_raw()), t);
    }
    assert_eq!(PILType::Uint8.to_raw(), 0);
    assert_eq!(PILType::Int32.to_raw(), 1);
    assert_eq!(PILType::Float32.to_raw(), 2);
    assert_eq!(PILType::Int32.bytes_per_channel(), 4);
}

#[test]
fn filter_codes() {
    assert_eq!(PILFilter::Nearest.to_raw(), 0);
    assert_eq!(PILFilter::Lanczos.to_raw(), 1);
    assert_eq!(PILFilter::Bilinear.to_raw(), 2);
    assert_eq!(PILFilter::Bicubic.to_raw(), 3);
    assert_eq!(PILFilter::Box_.to_raw(), 4);
    assert_eq!(PILFilter::Hamming.to_raw(), 5);
    for f in [PILFilter::Nearest, PILFilter::Box_, PILFilter::Bilinear, PILFilter::Hamming, PILFilter::Bicubic, PILFilter::Lanczos] {
        assert_eq!(PILFilter::from_raw(f.to_raw()), Ok(f));
    }
    assert_eq!(PILFilter::from_raw(6), Err(ImageError::UnknownFilter));
    assert_eq!(PILFilter::Lanczos.support2(), 6);
}

#[test]
fn mode_descriptors() {
    assert_eq!(PILMode::Unit.to_raw(), "1");
    assert_eq!(PILMode::YCbCr.to_raw(), "YCbCr");
    assert_eq!(PILMode::RGB.to_raw(), "RGB");
    assert_eq!(PILMode::RGB.channels(), 3);
    assert_eq!(PILMode::RGB.pixel_size(), 4);
    assert_eq!(PILMode::L.pixel_size(), 1);
    assert_eq!(PILMode::I.pixel_type(), PILType::Int32);
    assert_eq!(PILMode::F.pixel_type(), PILType::Float32);
    assert_eq!(PILMode::CMYK.channels(), 4);
}
