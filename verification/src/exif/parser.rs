//! EXIF parsing: the camera tags shown to users, read with kamadak-exif, and
//! the orientation tag read directly from the TIFF structure.
use vstd::prelude::*;
use crate::exif::extract::{extract_exif_tiff, spec_extract_exif_tiff};
use crate::exif::tiff::{read_short_tag_from_tiff, spec_read_short_tag};
use crate::text::{string_of, strip_char, trim_quotes};

verus! {

/// The IFD group an EXIF tag number belongs to.
#[derive(Clone, Copy, PartialEq, Eq, Structural, Debug)]
pub enum TagContext {
    /// TIFF (IFD0) attributes.
    Tiff,
    /// Exif sub-IFD attributes.
    Exif,
    /// GPS sub-IFD attributes.
    Gps,
}

/// Name for whether kamadak-exif reads `bytes` as EXIF: as raw TIFF data
/// (`Reader::read_raw`, a partial result accepted) or else as an image
/// container (`Reader::read_from_container`, likewise).
pub uninterp spec fn exif_parses(bytes: Seq<u8>) -> bool;

/// Name for the text kamadak-exif displays for the field `(ctx, number)` of
/// the primary image, read the same way as `exif_parses`; `None` when the
/// block does not parse or has no such field.
pub uninterp spec fn exif_field_text(bytes: Seq<u8>, ctx: TagContext, number: u16) -> Option<Seq<char>>;

/// Whether kamadak-exif reads `bytes` as EXIF (see `exif_parses`).
#[verifier::external_body]
fn exif_readable(bytes: &[u8]) -> (r: bool)
    ensures
        r == exif_parses(bytes@),
{
    let mut reader = ::exif::Reader::new();
    reader.continue_on_error(true);
    reader.read_raw(bytes.to_vec()).or_else(|e| e.distill_partial_result(|_| {})).is_ok()
        || reader.read_from_container(&mut std::io::Cursor::new(bytes)).or_else(
        |e| e.distill_partial_result(|_| {}),
    ).is_ok()
}

/// The display text of a primary-image field, via kamadak-exif's
/// `Exif::get_field` and `Field::display_value` (see `exif_field_text`).
#[verifier::external_body]
fn exif_field_display(bytes: &[u8], ctx: TagContext, number: u16) -> (r: Option<String>)
    ensures
        match r {
            Some(s) => exif_field_text(bytes@, ctx, number) == Some(s@),
            None => exif_field_text(bytes@, ctx, number) is None,
        },
{
    let mut reader = ::exif::Reader::new();
    reader.continue_on_error(true);
    let exif = match reader.read_raw(bytes.to_vec()).or_else(|e| e.distill_partial_result(|_| {})) {
        Ok(e) => e,
        Err(_) => reader.read_from_container(&mut std::io::Cursor::new(bytes)).or_else(|e| e.distill_partial_result(|_| {})).ok()?,
    };
    let c = match ctx {
        TagContext::Tiff => ::exif::Context::Tiff,
        TagContext::Exif => ::exif::Context::Exif,
        TagContext::Gps => ::exif::Context::Gps,
    };
    exif.get_field(::exif::Tag(c, number), ::exif::In::PRIMARY).map(|f| f.display_value().to_string())
}

/// Camera information read from an EXIF block.
#[derive(Debug)]
pub struct ExifInfo {
    pub make: Option<String>,
    pub model: Option<String>,
    pub date_time: Option<String>,
    pub iso: Option<String>,
    pub exposure: Option<String>,
    pub f_number: Option<String>,
    pub focal_length: Option<String>,
    pub gps_present: bool,
}

pub open spec fn opt_chars(s: Option<String>) -> Option<Seq<char>> {
    match s {
        Some(v) => Some(v@),
        None => None,
    }
}

pub open spec fn opt_trim_quotes(s: Option<Seq<char>>) -> Option<Seq<char>> {
    match s {
        Some(v) => Some(trim_quotes(v)),
        None => None,
    }
}

/// `ExifInfo` as it reads the block `b`: make, model and date/time without
/// surrounding quotes, ISO, exposure, aperture and focal length as
/// displayed, and GPS present when GPSLatitude, the GPSInfo pointer or
/// GPSVersionID is there.
pub open spec fn exif_info_matches(info: ExifInfo, b: Seq<u8>) -> bool {
    &&& opt_chars(info.make) == opt_trim_quotes(exif_field_text(b, TagContext::Tiff, 0x010F))
    &&& opt_chars(info.model) == opt_trim_quotes(exif_field_text(b, TagContext::Tiff, 0x0110))
    &&& opt_chars(info.date_time) == opt_trim_quotes(exif_field_text(b, TagContext::Tiff, 0x0132))
    &&& opt_chars(info.iso) == exif_field_text(b, TagContext::Exif, 0x8827)
    &&& opt_chars(info.exposure) == exif_field_text(b, TagContext::Exif, 0x829A)
    &&& opt_chars(info.f_number) == exif_field_text(b, TagContext::Exif, 0x829D)
    &&& opt_chars(info.focal_length) == exif_field_text(b, TagContext::Exif, 0x920A)
    &&& info.gps_present == (exif_field_text(b, TagContext::Gps, 0x0002) is Some || exif_field_text(
        b,
        TagContext::Tiff,
        0x8825,
    ) is Some || exif_field_text(b, TagContext::Gps, 0x0000) is Some)
}

fn quoted_field(bytes: &[u8], ctx: TagContext, number: u16) -> (r: Option<String>)
    ensures
        opt_chars(r) == opt_trim_quotes(exif_field_text(bytes@, ctx, number)),
{
    match exif_field_display(bytes, ctx, number) {
        Some(s) => Some(string_of(&strip_char(s.as_str(), '"'))),
        None => None,
    }
}

/// Parse EXIF from raw TIFF/EXIF bytes (or, failing that, from an image
/// container).
pub fn parse_exif_bytes(bytes: &[u8]) -> (r: Option<ExifInfo>)
    ensures
        r is Some <==> exif_parses(bytes@),
        r matches Some(info) ==> exif_info_matches(info, bytes@),
{
    if !exif_readable(bytes) {
        return None;
    }
    let make = quoted_field(bytes, TagContext::Tiff, 0x010F);
    let model = quoted_field(bytes, TagContext::Tiff, 0x0110);
    let date_time = quoted_field(bytes, TagContext::Tiff, 0x0132);
    let iso = exif_field_display(bytes, TagContext::Exif, 0x8827);
    let exposure = exif_field_display(bytes, TagContext::Exif, 0x829A);
    let f_number = exif_field_display(bytes, TagContext::Exif, 0x829D);
    let focal_length = exif_field_display(bytes, TagContext::Exif, 0x920A);
    let gps_present = exif_field_display(bytes, TagContext::Gps, 0x0002).is_some()
        || exif_field_display(bytes, TagContext::Tiff, 0x8825).is_some()
        || exif_field_display(bytes, TagContext::Gps, 0x0000).is_some();
    Some(ExifInfo { make, model, date_time, iso, exposure, f_number, focal_length, gps_present })
}

/// The orientation value (tag 0x0112) of an image's EXIF block.
pub open spec fn spec_read_orientation(b: Seq<u8>) -> Option<u32> {
    match spec_extract_exif_tiff(b) {
        Some(t) => match spec_read_short_tag(t, 0x0112) {
            Some(v) => Some(v as u32),
            None => None,
        },
        None => None,
    }
}

/// Read the EXIF orientation tag (tag 0x0112) from any supported image container.
pub fn read_orientation(bytes: &[u8]) -> (r: Option<u32>)
    ensures
        r == spec_read_orientation(bytes@),
{
    let tiff = match extract_exif_tiff(bytes) {
        Some(t) => t,
        None => return None,
    };
    match read_short_tag_from_tiff(tiff.as_slice(), 0x0112) {
        Some(v) => Some(v as u32),
        None => None,
    }
}

} // verus!
