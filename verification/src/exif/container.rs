//! Container detection and the walkers over JPEG segments, PNG chunks and
//! WebP (RIFF) chunks.
use vstd::prelude::*;
use crate::bytes::{bytes_at, has_at};

verus! {

/// `Exif\0\0`, the prefix of a JPEG APP1 EXIF payload.
pub open spec fn exif_header() -> Seq<u8> {
    seq![0x45u8, 0x78, 0x69, 0x66, 0, 0]
}

/// The eight-byte PNG signature.
pub open spec fn png_sig() -> Seq<u8> {
    seq![0x89u8, 0x50, 0x4E, 0x47, 0x0D, 0x0A, 0x1A, 0x0A]
}

pub open spec fn spec_is_jpeg(b: Seq<u8>) -> bool {
    b.len() >= 2 && b[0] == 0xFF && b[1] == 0xD8
}

pub open spec fn spec_is_png(b: Seq<u8>) -> bool {
    b.len() >= 8 && b.subrange(0, 8) == png_sig()
}

/// `II*\0` (little endian) or `MM\0*` (big endian).
pub open spec fn spec_is_tiff(b: Seq<u8>) -> bool {
    b.len() >= 4 && ((b[0] == 0x49 && b[1] == 0x49 && b[2] == 0x2A && b[3] == 0)
        || (b[0] == 0x4D && b[1] == 0x4D && b[2] == 0 && b[3] == 0x2A))
}

/// `RIFF....WEBP`.
pub open spec fn spec_is_webp(b: Seq<u8>) -> bool {
    b.len() >= 12 && b[0] == 0x52 && b[1] == 0x49 && b[2] == 0x46 && b[3] == 0x46
        && b[8] == 0x57 && b[9] == 0x45 && b[10] == 0x42 && b[11] == 0x50
}

pub fn is_jpeg(bytes: &[u8]) -> (r: bool)
    ensures
        r == spec_is_jpeg(bytes@),
{
    bytes.len() >= 2 && bytes[0] == 0xFF && bytes[1] == 0xD8
}

pub fn is_png(bytes: &[u8]) -> (r: bool)
    ensures
        r == spec_is_png(bytes@),
{
    let sig: [u8; 8] = [0x89, 0x50, 0x4E, 0x47, 0x0D, 0x0A, 0x1A, 0x0A];
    let r = bytes_at(bytes, 0, &sig);
    assert(sig@ == png_sig());
    r
}

pub fn is_tiff(bytes: &[u8]) -> (r: bool)
    ensures
        r == spec_is_tiff(bytes@),
{
    bytes.len() >= 4 && ((bytes[0] == 0x49 && bytes[1] == 0x49 && bytes[2] == 0x2A && bytes[3] == 0)
        || (bytes[0] == 0x4D && bytes[1] == 0x4D && bytes[2] == 0 && bytes[3] == 0x2A))
}

pub fn is_webp(bytes: &[u8]) -> (r: bool)
    ensures
        r == spec_is_webp(bytes@),
{
    bytes.len() >= 12 && bytes[0] == 0x52 && bytes[1] == 0x49 && bytes[2] == 0x46 && bytes[3] == 0x46
        && bytes[8] == 0x57 && bytes[9] == 0x45 && bytes[10] == 0x42 && bytes[11] == 0x50
}

} // verus!

verus! {

/// Drop a JPEG-style `Exif\0\0` prefix from a chunk payload, if present.
pub open spec fn spec_strip_exif_prefix(p: Seq<u8>) -> Seq<u8> {
    if has_at(p, 0, exif_header()) {
        p.subrange(6, p.len() as int)
    } else {
        p
    }
}

/// Some writers put the JPEG-style `Exif\0\0` prefix in front of the TIFF
/// data of PNG `eXIf` and WebP `EXIF` chunks; a TIFF header never starts
/// with those bytes, so the prefix is dropped when present.
pub fn strip_exif_prefix(payload: &[u8]) -> (r: &[u8])
    ensures
        r@ == spec_strip_exif_prefix(payload@),
{
    let hdr: [u8; 6] = [0x45, 0x78, 0x69, 0x66, 0, 0];
    assert(hdr@ =~= exif_header());
    if bytes_at(payload, 0, &hdr) {
        &payload[6..payload.len()]
    } else {
        payload
    }
}

} // verus!
