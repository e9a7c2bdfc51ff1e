//! Command-line vocabulary shared with the library: resize filters and
//! output formats.
use vstd::prelude::*;

verus! {

/// Resize filter algorithms.
#[derive(Debug, Clone, Copy, PartialEq, Eq, Structural)]
pub enum FilterType {
    Nearest,
    Triangle,
    CatmullRom,
    Gaussian,
    Lanczos3,
}

/// Output image formats.
#[derive(Debug, Clone, Copy, PartialEq, Eq, Structural)]
pub enum OutputFormat {
    Jpeg,
    Png,
    Webp,
    Tiff,
    Bmp,
    Gif,
    Heic,
    Heif,
}

/// The file extension written for each format.
pub open spec fn spec_extension(f: OutputFormat) -> Seq<char> {
    match f {
        OutputFormat::Jpeg => "jpg"@,
        OutputFormat::Png => "png"@,
        OutputFormat::Webp => "webp"@,
        OutputFormat::Tiff => "tiff"@,
        OutputFormat::Bmp => "bmp"@,
        OutputFormat::Gif => "gif"@,
        OutputFormat::Heic => "heic"@,
        OutputFormat::Heif => "heif"@,
    }
}

impl OutputFormat {
    pub fn extension(&self) -> (r: &'static str)
        ensures
            r@ == spec_extension(*self),
    {
        match self {
            OutputFormat::Jpeg => "jpg",
            OutputFormat::Png => "png",
            OutputFormat::Webp => "webp",
            OutputFormat::Tiff => "tiff",
            OutputFormat::Bmp => "bmp",
            OutputFormat::Gif => "gif",
            OutputFormat::Heic => "heic",
            OutputFormat::Heif => "heif",
        }
    }
}

} // verus!
