//! Checks a caller makes before a rewrite whose precondition describes the
//! inputs the rewrite can handle: each computes that precondition.
use vstd::prelude::*;
use crate::bytes::{bytes_at, span_view, u16_at};
use crate::exif::container::{exif_header, is_jpeg, is_png, is_tiff, is_webp};
use crate::exif::heic::{extract_heic_exif_raw, opt_bytes};
use crate::exif::png::{lemma_png_chunks_bounds, png_chunk_list, png_chunks, png_data, png_kind};
use crate::exif::tiff::tiff_byte_order;
use crate::exif::webp::{lemma_webp_chunks_bounds, webp_chunk_list, webp_chunks, webp_fourcc, webp_limit, webp_payload};
use crate::heic::is_heic_bytes;
use super::jpeg_edit::{jpeg_exif_scan, jpeg_gps_input_ok, ExifScan};
use super::png_edit::{exif_kind, png_gps_input_ok};
use super::rewrite::{gps_strip_input_ok, prepare_exif, prepared_exif, rewrite_input_ok};
use super::tiff_edit::{gps_strip_applies, gps_table_fits};
use super::webp_edit::{webp_exif_fourcc, webp_gps_input_ok};

verus! {

fn jpeg_gps_safe(jpeg: &[u8]) -> (r: bool)
    ensures
        r == jpeg_gps_input_ok(jpeg@),
{
    let ghost b = jpeg@;
    let n = jpeg.len();
    let hdr: [u8; 6] = [0x45, 0x78, 0x69, 0x66, 0, 0];
    assert(hdr@ =~= exif_header());
    let mut i: usize = 2;
    while n >= 3 && i < n - 3
        invariant
            n == b.len(),
            b == jpeg@,
            hdr@ == exif_header(),
            jpeg_exif_scan(b, 2) == jpeg_exif_scan(b, i as int),
            i >= 2,
        ensures
            jpeg_exif_scan(b, 2) == ExifScan::NotFound,
        decreases n - i,
    {
        if jpeg[i] != 0xFF {
            break;
        }
        let marker = jpeg[i + 1];
        let len = (jpeg[i + 2] as usize) * 256 + (jpeg[i + 3] as usize);
        assert(len == u16_at(b, i + 2, false));
        if len > n - i - 2 {
            return marker != 0xE1;
        }
        let seg_end = i + 2 + len;
        if marker == 0xE1 {
            if len < 2 {
                return false;
            }
            if seg_end - i >= 10 && bytes_at(jpeg, i + 4, &hdr) {
                let tiff = &jpeg[i + 10..seg_end];
                assert(tiff@ == b.subrange(i + 10, seg_end as int));
                return gps_strip_applies(tiff);
            }
        }
        i = seg_end;
    }
    true
}

fn png_gps_safe(png: &[u8]) -> (r: bool)
    ensures
        r == png_gps_input_ok(png@),
{
    let ghost b = png@;
    let n = png.len();
    let chunks = png_chunks(png);
    let ghost cs = png_chunk_list(b);
    proof {
        lemma_png_chunks_bounds(b, 8);
    }
    let mut i: usize = 0;
    while i < chunks.len()
        invariant
            b == png@,
            n == b.len(),
            span_view(chunks@) == cs,
            cs == png_chunk_list(b),
            i <= chunks@.len(),
            forall|j: int|
                0 <= j < cs.len() ==> 0 <= #[trigger] cs[j].0 && cs[j].1 >= 0 && cs[j].0 + 12 + cs[j].1 <= b.len(),
            forall|j: int|
                0 <= j < i && #[trigger] png_kind(b, cs[j].0) == exif_kind() ==> gps_table_fits(
                    png_data(b, cs[j]),
                ),
        decreases chunks.len() - i,
    {
        let (start, len) = chunks[i];
        assert(cs[i as int] == (start as int, len as int));
        assert(0 <= cs[i as int].0 && cs[i as int].0 + 12 + cs[i as int].1 <= b.len());
        let is_exif = png[start + 4] == 0x65 && png[start + 5] == 0x58 && png[start + 6] == 0x49 && png[start
            + 7] == 0x66;
        assert(is_exif == (png_kind(b, start as int) =~= exif_kind()));
        if is_exif {
            let data = &png[start + 8..start + 8 + len];
            assert(data@ == png_data(b, cs[i as int]));
            if !gps_strip_applies(data) {
                return false;
            }
        }
        i = i + 1;
    }
    true
}

fn webp_gps_safe(webp: &[u8]) -> (r: bool)
    ensures
        r == webp_gps_input_ok(webp@),
{
    let ghost b = webp@;
    let n = webp.len();
    let chunks = webp_chunks(webp);
    let ghost cs = webp_chunk_list(b);
    proof {
        lemma_webp_chunks_bounds(b, 12, webp_limit(b));
    }
    let mut i: usize = 0;
    while i < chunks.len()
        invariant
            b == webp@,
            n == b.len(),
            span_view(chunks@) == cs,
            cs == webp_chunk_list(b),
            i <= chunks@.len(),
            forall|j: int|
                0 <= j < cs.len() ==> 12 <= #[trigger] cs[j].0 && cs[j].1 >= 0 && cs[j].0 + 8 + cs[j].1 <= b.len(),
            forall|j: int|
                0 <= j < i && #[trigger] webp_fourcc(b, cs[j].0) == webp_exif_fourcc() ==> gps_table_fits(
                    webp_payload(b, cs[j]),
                ),
        decreases chunks.len() - i,
    {
        let (start, len) = chunks[i];
        assert(cs[i as int] == (start as int, len as int));
        assert(12 <= cs[i as int].0 && cs[i as int].0 + 8 + cs[i as int].1 <= b.len());
        let is_exif = webp[start] == 0x45 && webp[start + 1] == 0x58 && webp[start + 2] == 0x49 && webp[start
            + 3] == 0x46;
        assert(is_exif == (webp_fourcc(b, start as int) =~= webp_exif_fourcc()));
        if is_exif {
            let data = &webp[start + 8..start + 8 + len];
            assert(data@ == webp_payload(b, cs[i as int]));
            if !gps_strip_applies(data) {
                return false;
            }
        }
        i = i + 1;
    }
    true
}

/// Whether `strip_gps_metadata` can handle `bytes`; the others are a
/// corrupt input that the strip would index out of range: a corrupt EXIF APP1 segment, or a GPS entry
/// whose IFD table runs past its block.
pub fn gps_strip_safe(bytes: &[u8]) -> (r: bool)
    ensures
        r == gps_strip_input_ok(bytes@),
{
    if is_jpeg(bytes) {
        jpeg_gps_safe(bytes)
    } else if is_png(bytes) {
        png_gps_safe(bytes)
    } else if is_webp(bytes) {
        webp_gps_safe(bytes)
    } else if is_tiff(bytes) {
        gps_strip_applies(bytes)
    } else if is_heic_bytes(bytes) {
        match extract_heic_exif_raw(bytes) {
            Some(t) => gps_strip_applies(t.as_slice()),
            None => true,
        }
    } else {
        true
    }
}

/// Whether `rewrite_exif_metadata` can handle its inputs; on the others
/// the byte-order mark of a grafted EXIF block shorter than two bytes would
/// be read out of range.
pub fn rewrite_safe(output: &[u8], source_stripped: &[u8], is_grayscale: bool) -> (r: bool)
    ensures
        r == rewrite_input_ok(output@, source_stripped@, is_grayscale),
{
    match prepare_exif(source_stripped, is_grayscale) {
        Some(t) => {
            let tiff_out = !is_jpeg(output) && !is_png(output) && !is_webp(output) && is_tiff(output)
                && output.len() >= 8 && tiff_byte_order(output).is_some();
            !tiff_out || t.len() >= 2
        },
        None => true,
    }
}

} // verus!
