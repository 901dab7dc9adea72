//! Pixel formats, channel types and resampling filters.

use vstd::prelude::*;

verus! {

/// Numeric code of unsigned 8-bit channels.
pub const IMAGING_TYPE_UINT8: u32 = 0;
/// Numeric code of signed 32-bit integer channels.
pub const IMAGING_TYPE_INT32: u32 = 1;
/// Numeric code of 32-bit float channels.
pub const IMAGING_TYPE_FLOAT32: u32 = 2;

/// Numeric codes of the resampling filters.
pub const IMAGING_TRANSFORM_NEAREST: u32 = 0;
pub const IMAGING_TRANSFORM_LANCZOS: u32 = 1;
pub const IMAGING_TRANSFORM_BILINEAR: u32 = 2;
pub const IMAGING_TRANSFORM_BICUBIC: u32 = 3;
pub const IMAGING_TRANSFORM_BOX: u32 = 4;
pub const IMAGING_TRANSFORM_HAMMING: u32 = 5;

/// Errors reported by the image engine.
#[derive(Clone, Copy, PartialEq, Eq, Structural, Debug)]
pub enum ImageError {
    /// The requested buffer cannot be allocated (non-positive or too large size).
    Allocation,
    /// A scanline or byte index is out of range.
    Index,
    /// A crop region is empty or not inside the image.
    InvalidRegion,
    /// A requested destination dimension is not positive.
    InvalidDimension,
    /// A filter code names no known filter.
    UnknownFilter,
    /// A resampling window holds no source sample or no weight.
    DegenerateKernel,
    /// The operation is not defined for the image's pixel format.
    WrongMode,
    /// Two images that must agree in format or size do not.
    Mismatch,
}

/// Logical type of a channel.
#[derive(Clone, Copy, PartialEq, Eq, Structural, Debug)]
pub enum PILType {
    Uint8,
    Int32,
    Float32,
}

pub open spec fn type_code(t: PILType) -> u32 {
    match t {
        PILType::Uint8 => IMAGING_TYPE_UINT8,
        PILType::Int32 => IMAGING_TYPE_INT32,
        PILType::Float32 => IMAGING_TYPE_FLOAT32,
    }
}

impl PILType {
    /// The channel type with numeric code `raw`; codes past the float type
    /// name no type that an image can hold.
    pub fn from_raw(raw: u32) -> (r: Self)
        requires
            raw <= IMAGING_TYPE_FLOAT32,
        ensures
            type_code(r) == raw,
    {
        if raw == IMAGING_TYPE_UINT8 {
            PILType::Uint8
        } else if raw == IMAGING_TYPE_INT32 {
            PILType::Int32
        } else {
            PILType::Float32
        }
    }

    pub fn to_raw(&self) -> (r: u32)
        ensures
            r == type_code(*self),
    {
        match *self {
            PILType::Uint8 => IMAGING_TYPE_UINT8,
            PILType::Int32 => IMAGING_TYPE_INT32,
            PILType::Float32 => IMAGING_TYPE_FLOAT32,
        }
    }

    /// Bytes that one channel of this type takes.
    pub fn bytes_per_channel(&self) -> (r: usize)
        ensures
            r == type_bytes(*self),
    {
        match *self {
            PILType::Uint8 => 1,
            _ => 4,
        }
    }
}

pub open spec fn type_bytes(t: PILType) -> nat {
    match t {
        PILType::Uint8 => 1,
        _ => 4,
    }
}

/// The supported pixel modes. `Unit` is the 1-bit mode, stored as one byte
/// per pixel.
#[derive(Clone, Copy, PartialEq, Eq, Structural, Debug)]
pub enum PILMode {
    Unit,
    L,
    P,
    I,
    F,
    RGB,
    RGBA,
    RGBX,
    CMYK,
    YCbCr,
    LAB,
}

pub open spec fn mode_name(m: PILMode) -> Seq<char> {
    match m {
        PILMode::Unit => seq!['1'],
        PILMode::L => seq!['L'],
        PILMode::P => seq!['P'],
        PILMode::I => seq!['I'],
        PILMode::F => seq!['F'],
        PILMode::RGB => seq!['R', 'G', 'B'],
        PILMode::RGBA => seq!['R', 'G', 'B', 'A'],
        PILMode::RGBX => seq!['R', 'G', 'B', 'X'],
        PILMode::CMYK => seq!['C', 'M', 'Y', 'K'],
        PILMode::YCbCr => seq!['Y', 'C', 'b', 'C', 'r'],
        PILMode::LAB => seq!['L', 'A', 'B'],
    }
}

/// Number of meaningful channels of a pixel.
pub open spec fn mode_channels(m: PILMode) -> nat {
    match m {
        PILMode::Unit | PILMode::L | PILMode::P | PILMode::I | PILMode::F => 1,
        PILMode::RGB | PILMode::YCbCr | PILMode::LAB => 3,
        PILMode::RGBA | PILMode::RGBX | PILMode::CMYK => 4,
    }
}

/// Bytes that one pixel takes in a scanline; three-channel colour modes are
/// padded to four bytes.
pub open spec fn mode_pixel_size(m: PILMode) -> nat {
    match m {
        PILMode::Unit | PILMode::L | PILMode::P => 1,
        _ => 4,
    }
}

pub open spec fn mode_type(m: PILMode) -> PILType {
    match m {
        PILMode::I => PILType::Int32,
        PILMode::F => PILType::Float32,
        _ => PILType::Uint8,
    }
}

/// Every format stores its channels inside the pixel, and a pixel takes
/// one to four bytes.
pub proof fn lemma_mode_layout(m: PILMode)
    ensures
        1 <= mode_channels(m) <= mode_pixel_size(m) <= 4,
        mode_channels(m) * type_bytes(mode_type(m)) <= mode_pixel_size(m),
{
}

impl PILMode {
    /// The mode's name, as image files and tools write it.
    pub fn to_raw(&self) -> (r: &'static str)
        ensures
            r@ == mode_name(*self),
    {
        match *self {
            PILMode::Unit => {
                proof { reveal_strlit("1"); }
                "1"
            },
            PILMode::L => {
                proof { reveal_strlit("L"); }
                "L"
            },
            PILMode::P => {
                proof { reveal_strlit("P"); }
                "P"
            },
            PILMode::I => {
                proof { reveal_strlit("I"); }
                "I"
            },
            PILMode::F => {
                proof { reveal_strlit("F"); }
                "F"
            },
            PILMode::RGB => {
                proof { reveal_strlit("RGB"); }
                "RGB"
            },
            PILMode::RGBA => {
                proof { reveal_strlit("RGBA"); }
                "RGBA"
            },
            PILMode::RGBX => {
                proof { reveal_strlit("RGBX"); }
                "RGBX"
            },
            PILMode::CMYK => {
                proof { reveal_strlit("CMYK"); }
                "CMYK"
            },
            PILMode::YCbCr => {
                proof { reveal_strlit("YCbCr"); }
                "YCbCr"
            },
            PILMode::LAB => {
                proof { reveal_strlit("LAB"); }
                "LAB"
            },
        }
    }

    pub fn channels(&self) -> (r: usize)
        ensures
            r == mode_channels(*self),
    {
        match *self {
            PILMode::Unit | PILMode::L | PILMode::P | PILMode::I | PILMode::F => 1,
            PILMode::RGB | PILMode::YCbCr | PILMode::LAB => 3,
            PILMode::RGBA | PILMode::RGBX | PILMode::CMYK => 4,
        }
    }

    pub fn pixel_size(&self) -> (r: usize)
        ensures
            r == mode_pixel_size(*self),
    {
        match *self {
            PILMode::Unit | PILMode::L | PILMode::P => 1,
            _ => 4,
        }
    }

    pub fn pixel_type(&self) -> (r: PILType)
        ensures
            r == mode_type(*self),
    {
        match *self {
            PILMode::I => PILType::Int32,
            PILMode::F => PILType::Float32,
            _ => PILType::Uint8,
        }
    }
}

/// The resampling filters.
#[derive(Clone, Copy, PartialEq, Eq, Structural, Debug)]
pub enum PILFilter {
    Nearest,
    Box_,
    Bilinear,
    Hamming,
    Bicubic,
    Lanczos,
}

pub open spec fn filter_code(f: PILFilter) -> u32 {
    match f {
        PILFilter::Nearest => IMAGING_TRANSFORM_NEAREST,
        PILFilter::Box_ => IMAGING_TRANSFORM_BOX,
        PILFilter::Bilinear => IMAGING_TRANSFORM_BILINEAR,
        PILFilter::Hamming => IMAGING_TRANSFORM_HAMMING,
        PILFilter::Bicubic => IMAGING_TRANSFORM_BICUBIC,
        PILFilter::Lanczos => IMAGING_TRANSFORM_LANCZOS,
    }
}

/// Twice the filter's support radius, in source pixels.
pub open spec fn filter_support2(f: PILFilter) -> nat {
    match f {
        PILFilter::Nearest | PILFilter::Box_ => 1,
        PILFilter::Bilinear | PILFilter::Hamming => 2,
        PILFilter::Bicubic => 4,
        PILFilter::Lanczos => 6,
    }
}

impl PILFilter {
    pub fn to_raw(&self) -> (r: u32)
        ensures
            r == filter_code(*self),
    {
        match *self {
            PILFilter::Nearest => IMAGING_TRANSFORM_NEAREST,
            PILFilter::Box_ => IMAGING_TRANSFORM_BOX,
            PILFilter::Bilinear => IMAGING_TRANSFORM_BILINEAR,
            PILFilter::Hamming => IMAGING_TRANSFORM_HAMMING,
            PILFilter::Bicubic => IMAGING_TRANSFORM_BICUBIC,
            PILFilter::Lanczos => IMAGING_TRANSFORM_LANCZOS,
        }
    }

    /// The filter with numeric code `raw`.
    pub fn from_raw(raw: u32) -> (r: Result<Self, ImageError>)
        ensures
            raw <= IMAGING_TRANSFORM_HAMMING <==> r.is_ok(),
            r.is_ok() ==> filter_code(r.unwrap()) == raw,
            r.is_err() ==> r == Err::<Self, ImageError>(ImageError::UnknownFilter),
    {
        if raw == IMAGING_TRANSFORM_NEAREST {
            Ok(PILFilter::Nearest)
        } else if raw == IMAGING_TRANSFORM_LANCZOS {
            Ok(PILFilter::Lanczos)
        } else if raw == IMAGING_TRANSFORM_BILINEAR {
            Ok(PILFilter::Bilinear)
        } else if raw == IMAGING_TRANSFORM_BICUBIC {
            Ok(PILFilter::Bicubic)
        } else if raw == IMAGING_TRANSFORM_BOX {
            Ok(PILFilter::Box_)
        } else if raw == IMAGING_TRANSFORM_HAMMING {
            Ok(PILFilter::Hamming)
        } else {
            Err(ImageError::UnknownFilter)
        }
    }

    /// Twice the support radius, so that it is a whole number.
    pub fn support2(&self) -> (r: u32)
        ensures
            r == filter_support2(*self),
    {
        match *self {
            PILFilter::Nearest | PILFilter::Box_ => 1,
            PILFilter::Bilinear | PILFilter::Hamming => 2,
            PILFilter::Bicubic => 4,
            PILFilter::Lanczos => 6,
        }
    }
}

} // verus!
