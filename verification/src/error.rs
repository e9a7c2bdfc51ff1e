//! The library's error type.
use vstd::prelude::*;

verus! {

/// Errors reported by the library.
#[derive(Debug, Clone, PartialEq, Eq)]
pub enum BatImgError {
    /// A resize spec that is not `WxH`.
    InvalidResize(String),
    /// A rotation other than 90, 180 or 270 degrees.
    InvalidRotation(u32),
    /// A colour that is neither a known name nor `#` followed by 6 or 8
    /// bytes.
    InvalidColor(String),
    /// A `#` colour of 6 or 8 bytes with a two-digit group that is not a
    /// hexadecimal number.
    InvalidHexDigits(String),
    /// A container could not be rewritten.
    Exif(String),
    /// An output format that is not supported.
    UnsupportedFormat(String),
}

} // verus!
