//! Format dispatch for GPS stripping, complete metadata stripping and
//! grafting a source's EXIF block onto an encoded output.
use vstd::prelude::*;
use crate::bytes::{has_at, put16, put32, to_vec, u32_at};
use crate::error::BatImgError;
use crate::heic::{is_heic_bytes, spec_is_heic_bytes};
use crate::exif::container::{
    exif_header, is_jpeg, is_png, is_tiff, is_webp, spec_is_jpeg, spec_is_png, spec_is_tiff, spec_is_webp,
};
use crate::exif::extract::{extract_exif_tiff, spec_extract_exif_tiff};
use crate::exif::heic::{
    extract_heic_exif_raw, replace_heic_exif_payload, spec_heic_exif_raw, spec_replace_heic_exif,
    exi_exif, lemma_exif_box_kept, lemma_locate_exif_bounds, lemma_strip_all_heic_idempotent,
    lemma_strip_all_heic_keeps_head, lemma_replace_heic_exif_in_place, lemma_strip_all_heic_leaves_no_tiff, spec_exif_box_payload,
    spec_heic_exif_tiff, spec_locate_exif, spec_strip_all_heic, strip_all_heic_metadata, opt_bytes,
};
use crate::exif::tiff::{ifd0_entry, tiff_order};
use crate::exif::png::{png_chunk_list, png_consumed, png_kind};
use crate::exif::webp::webp_rebuilt;
use super::jpeg_edit::{
    jpeg_gps_input_ok, lemma_graft_jpeg_then_extract, lemma_jpeg_strip_leaves_no_exif, lemma_strip_jpeg_app_idempotent, lemma_strip_jpeg_app_never_grows,
    plain_jpeg_header_from, rewrite_jpeg_exif_segment, rewrite_jpeg_exif_without_gps, spec_jpeg_without_gps,
    spec_rewrite_jpeg_exif_segment, spec_strip_jpeg_app, strip_jpeg_app_segments,
};
use super::png_edit::{
    ihdr_kind, inject_exif_into_png, lemma_png_without_gps_len, lemma_inject_png_then_extract, lemma_png_strip_gps_then_extract, lemma_png_strip_leaves_no_exif, png_first_exif_data, lemma_strip_png_idempotent, lemma_strip_png_never_grows, png_gps_input_ok, rewrite_png_exif_without_gps, spec_inject_exif_into_png,
    spec_png_without_gps, spec_strip_png_metadata, strip_png_metadata,
};
use super::tiff_copy::{extract_tiff_metadata_only, spec_tiff_metadata_only};
use super::tiff_edit::{
    at_most_one_gps_entry, gps_table_fits, lemma_strip_gps_len, lemma_strip_tiff_metadata_idempotent, tiff_strip_settled, ifd0_after_header, ifd0_info, lemma_strip_gps_removes_gps, lemma_strip_gps_keeps_header, lemma_strip_tiff_metadata_only_clears, reset_orientation_in_tiff, set_entry_value, set_exif_color_space_to_uncalibrated,
    spec_reset_orientation, spec_set_color_space_uncalibrated, spec_strip_gps_from_tiff,
    spec_strip_tiff_metadata, strip_gps_from_tiff, strip_tiff_metadata,
};
use super::tiff_graft::{inject_exif_into_tiff, spec_inject_exif_into_tiff};
use super::webp_edit::{
    chunk_choices, gps_choice, has_exif_fourcc, inject_choice, inject_exif_into_webp, lemma_inject_webp_then_extract, lemma_strip_webp_idempotent, lemma_webp_strip_gps_then_extract,
    webp_first_exif_payload, lemma_strip_webp_never_grows, lemma_webp_strip_leaves_no_exif, rewrite_webp_exif_without_gps, spec_inject_exif_into_webp,
    spec_strip_webp_metadata, strip_webp_metadata, webp_chunks_padded, webp_gps_input_ok,
};

verus! {

// ---- HEIC ---------------------------------------------------------------------

/// HEIC files whose EXIF block the GPS strip accepts.
pub open spec fn heic_gps_input_ok(b: Seq<u8>) -> bool {
    spec_heic_exif_raw(b) matches Some(t) ==> gps_table_fits(t)
}

/// The HEIC file with the GPS pointer removed from its EXIF block in place
/// (`None` when the block cannot be written back).
pub open spec fn spec_heic_without_gps(b: Seq<u8>) -> Option<Seq<u8>> {
    match spec_heic_exif_raw(b) {
        Some(t) => spec_replace_heic_exif(b, spec_strip_gps_from_tiff(t)),
        None => Some(b),
    }
}

fn rewrite_heic_exif_without_gps(bytes: &[u8]) -> (r: Result<Vec<u8>, BatImgError>)
    requires
        heic_gps_input_ok(bytes@),
    ensures
        match r {
            Ok(v) => spec_heic_without_gps(bytes@) == Some(v@),
            Err(e) => spec_heic_without_gps(bytes@) is None && e is Exif,
        },
{
    match extract_heic_exif_raw(bytes) {
        Some(t) => {
            let stripped = match strip_gps_from_tiff(t.as_slice()) {
                Ok(s) => s,
                Err(e) => return Err(e),
            };
            replace_heic_exif_payload(bytes, stripped.as_slice())
        },
        None => Ok(to_vec(bytes)),
    }
}

// ---- GPS ------------------------------------------------------------------------

/// The inputs on which GPS stripping does not hit a GPS entry table that
/// runs past the end of its EXIF block (or a corrupt JPEG APP1 segment).
pub open spec fn gps_strip_input_ok(b: Seq<u8>) -> bool {
    if spec_is_jpeg(b) {
        jpeg_gps_input_ok(b)
    } else if spec_is_png(b) {
        png_gps_input_ok(b)
    } else if spec_is_webp(b) {
        webp_gps_input_ok(b)
    } else if spec_is_tiff(b) {
        gps_table_fits(b)
    } else if spec_is_heic_bytes(b) {
        heic_gps_input_ok(b)
    } else {
        true
    }
}

/// GPS stripping by format: the GPSInfo pointer is removed from IFD0 of the
/// EXIF block, wherever the container keeps it; other files are unchanged.
/// `None` when the block cannot be written back.
pub open spec fn spec_strip_gps_metadata(b: Seq<u8>) -> Option<Seq<u8>> {
    if spec_is_jpeg(b) {
        spec_jpeg_without_gps(b)
    } else if spec_is_png(b) {
        Some(spec_png_without_gps(b))
    } else if spec_is_webp(b) {
        webp_rebuilt(b, chunk_choices(b, |f: Seq<u8>, p: Seq<u8>| gps_choice(f, p)))
    } else if spec_is_tiff(b) {
        Some(spec_strip_gps_from_tiff(b))
    } else if spec_is_heic_bytes(b) {
        spec_heic_without_gps(b)
    } else {
        Some(b)
    }
}

/// GPS stripping keeps the length of a TIFF, PNG or HEIC file: the EXIF
/// block is rewritten in place, chunk and box sizes kept.  (A HEIC-branded
/// file with a JPEG signature is stripped as a JPEG, where every EXIF APP1
/// becomes the first one without GPS, so its length can change.)
pub proof fn lemma_strip_gps_keeps_length(b: Seq<u8>)
    requires
        gps_strip_input_ok(b),
        spec_is_tiff(b) || spec_is_png(b) || (spec_is_heic_bytes(b) && !spec_is_jpeg(b)),
    ensures
        spec_strip_gps_metadata(b) matches Some(s) ==> s.len() == b.len(),
{
    if spec_is_jpeg(b) {
        assert(!spec_is_tiff(b) && !spec_is_png(b));
    } else if spec_is_png(b) {
        lemma_png_without_gps_len(b);
    } else if spec_is_webp(b) {
        assert(!spec_is_tiff(b) && !spec_is_heic_bytes(b));
    } else if spec_is_tiff(b) {
        lemma_strip_gps_len(b);
    } else if let Some(t) = spec_heic_exif_raw(b) {
        if spec_replace_heic_exif(b, spec_strip_gps_from_tiff(t)) is Some {
            lemma_replace_heic_exif_in_place(b, spec_strip_gps_from_tiff(t));
        }
    }
}

/// Fast byte-level GPS stripping across all supported image formats.
pub fn strip_gps_metadata(bytes: &[u8]) -> (r: Result<Vec<u8>, BatImgError>)
    requires
        gps_strip_input_ok(bytes@),
    ensures
        match r {
            Ok(v) => spec_strip_gps_metadata(bytes@) == Some(v@),
            Err(e) => spec_strip_gps_metadata(bytes@) is None && e is Exif,
        },
{
    if is_jpeg(bytes) {
        rewrite_jpeg_exif_without_gps(bytes)
    } else if is_png(bytes) {
        rewrite_png_exif_without_gps(bytes)
    } else if is_webp(bytes) {
        rewrite_webp_exif_without_gps(bytes)
    } else if is_tiff(bytes) {
        strip_gps_from_tiff(bytes)
    } else if is_heic_bytes(bytes) {
        rewrite_heic_exif_without_gps(bytes)
    } else {
        Ok(to_vec(bytes))
    }
}

/// After the GPS strip of a HEIC file whose EXIF block is an `Exif` box,
/// extraction finds that block with the GPS pointer removed.
#[verifier::rlimit(40)]
proof fn lemma_heic_strip_gps_then_extract(b: Seq<u8>)
    requires
        spec_is_heic_bytes(b),
        heic_gps_input_ok(b),
        spec_exif_box_payload(b) is Some,
    ensures
        spec_heic_without_gps(b) matches Some(out) && spec_heic_exif_tiff(out) == match spec_heic_exif_tiff(b) {
            Some(t) => Some(spec_strip_gps_from_tiff(t)),
            None => None,
        } && spec_heic_exif_tiff(b) is Some && (forall|k: int| 0 <= k < 12 ==> #[trigger] out[k] == b[k])
            && out.len() == b.len(),
{
    let (s, e) = spec_exif_box_payload(b)->0;
    assert(spec_locate_exif(b) == Some((s, e, true)));
    lemma_locate_exif_bounds(b);
    let raw = b.subrange(s, e);
    assert(spec_heic_exif_raw(b) == Some(raw));
    assert(gps_table_fits(raw));
    lemma_strip_gps_len(raw);
    let new = spec_strip_gps_from_tiff(raw);
    lemma_replace_heic_exif_in_place(b, new);
    let out = spec_replace_heic_exif(b, new)->0;
    assert(spec_heic_without_gps(b) == Some(out));
    lemma_exif_box_kept(out, b);
    assert(spec_locate_exif(out) == Some((s, e, true)));
    assert(out.subrange(s, e) == new);
}

/// After the GPS strip, extraction finds the EXIF block it found before
/// with the GPS pointer removed: for a TIFF, a HEIC whose EXIF block is an
/// `Exif` box, and a PNG or a WebP whose first EXIF chunk holds a bare TIFF
/// block (no `Exif\0\0` prefix); the block's IFD0 follows its header, and
/// a WebP's size fits a RIFF header.
#[verifier::rlimit(40)]
#[verifier::spinoff_prover]
pub proof fn lemma_strip_gps_then_extract(b: Seq<u8>)
    requires
        gps_strip_input_ok(b),
        spec_is_tiff(b) || spec_is_png(b) || spec_is_webp(b) || (spec_is_heic_bytes(b) && !spec_is_jpeg(b)
            && spec_exif_box_payload(b) is Some),
        spec_is_tiff(b) ==> ifd0_after_header(b),
        spec_is_png(b) ==> (png_first_exif_data(b) matches Some(d) ==> !has_at(d, 0, exif_header())
            && ifd0_after_header(d)),
        spec_is_webp(b) ==> b.len() <= u32::MAX && (webp_first_exif_payload(b) matches Some(d) ==> !has_at(
            d,
            0,
            exif_header(),
        ) && ifd0_after_header(d)),
    ensures
        spec_strip_gps_metadata(b) matches Some(out) && spec_extract_exif_tiff(out) == match spec_extract_exif_tiff(
            b,
        ) {
            Some(t) => Some(spec_strip_gps_from_tiff(t)),
            None => None,
        },
{
    if spec_is_png(b) {
        lemma_png_strip_gps_then_extract(b);
    } else if spec_is_webp(b) {
        lemma_webp_strip_gps_then_extract(b);
    } else if spec_is_tiff(b) {
        lemma_strip_gps_keeps_header(b);
        let out = spec_strip_gps_from_tiff(b);
        assert(out[0] == b[0] && out[1] == b[1] && out[2] == b[2] && out[3] == b[3]);
    } else {
        lemma_heic_strip_gps_then_extract(b);
        let out = spec_heic_without_gps(b)->0;
        assert(out.subrange(0, 8) =~= b.subrange(0, 8));
        assert(u32_at(out, 4, false) == u32_at(b, 4, false) && u32_at(out, 8, false) == u32_at(b, 8, false));
    }
}

/// After the GPS strip, the EXIF block that extraction finds holds no
/// GPSInfo entry in IFD0 (same files as `lemma_strip_gps_then_extract`,
/// whose block held at most one such entry and, for a HEIC, has its IFD0
/// after its header).
#[verifier::rlimit(60)]
#[verifier::spinoff_prover]
pub proof fn lemma_strip_gps_leaves_no_gps(b: Seq<u8>)
    requires
        gps_strip_input_ok(b),
        spec_is_tiff(b) || spec_is_png(b) || spec_is_webp(b) || (spec_is_heic_bytes(b) && !spec_is_jpeg(b)
            && spec_exif_box_payload(b) is Some),
        spec_is_heic_bytes(b) ==> (spec_extract_exif_tiff(b) matches Some(t) ==> ifd0_after_header(t)),
        spec_is_tiff(b) ==> ifd0_after_header(b),
        spec_is_png(b) ==> (png_first_exif_data(b) matches Some(d) ==> !has_at(d, 0, exif_header())
            && ifd0_after_header(d)),
        spec_is_webp(b) ==> b.len() <= u32::MAX && (webp_first_exif_payload(b) matches Some(d) ==> !has_at(
            d,
            0,
            exif_header(),
        ) && ifd0_after_header(d)),
        spec_extract_exif_tiff(b) matches Some(t) ==> at_most_one_gps_entry(t),
    ensures
        spec_strip_gps_metadata(b) matches Some(out) && (spec_extract_exif_tiff(out) matches Some(t) ==> ifd0_entry(
            t,
            0x8825,
        ) is None),
{
    lemma_strip_gps_then_extract(b);
    if spec_is_png(b) {
        lemma_png_strip_gps_then_extract(b);
    } else if spec_is_webp(b) {
        lemma_webp_strip_gps_then_extract(b);
    } else if !spec_is_tiff(b) {
        let (s, e) = spec_exif_box_payload(b)->0;
        assert(spec_locate_exif(b) == Some((s, e, true)));
        assert(spec_heic_exif_raw(b) == spec_heic_exif_tiff(b));
    }
    if let Some(t) = spec_extract_exif_tiff(b) {
        lemma_strip_gps_removes_gps(t);
    }
}

// ---- everything -------------------------------------------------------------------

/// Complete metadata stripping by format: JPEG APP1..APP15 segments, PNG
/// metadata chunks, WebP metadata chunks, descriptive TIFF entries, HEIC
/// EXIF blocks; other files are unchanged.
pub open spec fn spec_strip_all_metadata(b: Seq<u8>) -> Seq<u8> {
    if spec_is_jpeg(b) {
        spec_strip_jpeg_app(b)
    } else if spec_is_png(b) {
        spec_strip_png_metadata(b)
    } else if spec_is_webp(b) {
        spec_strip_webp_metadata(b)
    } else if spec_is_tiff(b) {
        spec_strip_tiff_metadata(b)
    } else if spec_is_heic_bytes(b) {
        spec_strip_all_heic(b)
    } else {
        b
    }
}

/// Fast byte-level complete metadata stripping across all supported image formats.
pub fn strip_all_metadata(bytes: &[u8]) -> (r: Result<Vec<u8>, BatImgError>)
    ensures
        r matches Ok(v) && v@ == spec_strip_all_metadata(bytes@),
{
    if is_jpeg(bytes) {
        Ok(strip_jpeg_app_segments(bytes))
    } else if is_png(bytes) {
        Ok(strip_png_metadata(bytes))
    } else if is_webp(bytes) {
        Ok(strip_webp_metadata(bytes))
    } else if is_tiff(bytes) {
        strip_tiff_metadata(bytes)
    } else if is_heic_bytes(bytes) {
        strip_all_heic_metadata(bytes)
    } else {
        Ok(to_vec(bytes))
    }
}

/// Complete metadata stripping never makes a file longer: TIFF and HEIC
/// files keep their length, the others shrink or stay as they are (a WebP
/// whose every chunk has its padding byte; otherwise the rebuilt file
/// gains the missing padding).
pub proof fn lemma_strip_all_never_grows(b: Seq<u8>)
    requires
        spec_is_webp(b) ==> webp_chunks_padded(b),
    ensures
        spec_strip_all_metadata(b).len() <= b.len(),
        spec_is_tiff(b) || (spec_is_heic_bytes(b) && !spec_is_jpeg(b) && !spec_is_png(b) && !spec_is_webp(b))
            ==> spec_strip_all_metadata(b).len() == b.len(),
{
    if spec_is_jpeg(b) {
        lemma_strip_jpeg_app_never_grows(b);
    } else if spec_is_png(b) {
        lemma_strip_png_never_grows(b);
    } else if spec_is_webp(b) {
        lemma_strip_webp_never_grows(b);
    } else if spec_is_tiff(b) {
        lemma_strip_tiff_metadata_only_clears(b);
    } else if spec_is_heic_bytes(b) {
        lemma_strip_all_heic_leaves_no_tiff(b);
    }
}

/// Stripping all metadata a second time changes nothing: for any JPEG,
/// any PNG, a WebP whose
/// size a RIFF header can state, a TIFF whose metadata walk is settled (see
/// `tiff_strip_settled`), a HEIC file in which the bytes `ExiExif` occur
/// nowhere, and a file of no supported format.
pub proof fn lemma_strip_all_idempotent(b: Seq<u8>)
    requires
        spec_is_heic_bytes(b) ==> forall|j: int| !#[trigger] has_at(b, j, exi_exif()),
        spec_is_webp(b) ==> b.len() <= u32::MAX,
        spec_is_tiff(b) ==> tiff_strip_settled(b),
    ensures
        spec_strip_all_metadata(spec_strip_all_metadata(b)) == spec_strip_all_metadata(b),
{
    let out = spec_strip_all_metadata(b);
    if spec_is_jpeg(b) {
        lemma_strip_jpeg_app_idempotent(b);
    } else if spec_is_png(b) {
        lemma_strip_png_idempotent(b);
        assert(out[0] == 0x89u8) by {
            assert(out.subrange(0, 8)[0] == out[0]);
        }
    } else if spec_is_webp(b) {
        lemma_strip_webp_idempotent(b);
    } else if spec_is_tiff(b) {
        lemma_strip_tiff_metadata_idempotent(b);
        lemma_strip_tiff_metadata_only_clears(b);
        if b.len() >= 8 {
            assert(out[0] == b[0] && out[1] == b[1] && out[2] == b[2] && out[3] == b[3]) by {
                assert(out.subrange(0, 8)[0] == out[0] && out.subrange(0, 8)[1] == out[1]);
                assert(out.subrange(0, 8)[2] == out[2] && out.subrange(0, 8)[3] == out[3]);
            }
        }
    } else if spec_is_heic_bytes(b) {
        lemma_strip_all_heic_idempotent(b);
        lemma_strip_all_heic_keeps_head(b);
        assert(out.subrange(0, 8) =~= b.subrange(0, 8));
        assert(out[8] == b[8] && out[9] == b[9] && out[10] == b[10] && out[11] == b[11]);
        assert(u32_at(out, 4, false) == u32_at(b, 4, false) && u32_at(out, 8, false) == u32_at(b, 8, false));
    }
}

/// Complete metadata stripping leaves nothing for EXIF extraction to find
/// in a JPEG with a plain header, an intact PNG, a WebP, a HEIC file in
/// which the bytes `ExiExif` occur nowhere, or a file of no supported
/// format.  (A TIFF is its own metadata block.)
pub proof fn lemma_strip_all_leaves_no_exif(b: Seq<u8>)
    requires
        !spec_is_tiff(b),
        spec_is_heic_bytes(b) ==> forall|j: int| !#[trigger] has_at(b, j, exi_exif()),
        spec_is_jpeg(b) ==> plain_jpeg_header_from(b, 2),
        spec_is_png(b) ==> png_consumed(b) == b.len(),
    ensures
        spec_extract_exif_tiff(spec_strip_all_metadata(b)) is None,
{
    if spec_is_jpeg(b) {
        lemma_jpeg_strip_leaves_no_exif(b);
    } else if spec_is_png(b) {
        lemma_png_strip_leaves_no_exif(b);
    } else if spec_is_webp(b) {
        lemma_webp_strip_leaves_no_exif(b);
    } else if spec_is_heic_bytes(b) {
        let out = spec_strip_all_heic(b);
        lemma_strip_all_heic_idempotent(b);
        lemma_strip_all_heic_keeps_head(b);
        lemma_strip_all_heic_leaves_no_tiff(b);
        assert(out.subrange(0, 8) =~= b.subrange(0, 8));
        assert(out[8] == b[8] && out[9] == b[9] && out[10] == b[10] && out[11] == b[11]);
        assert(u32_at(out, 4, false) == u32_at(b, 4, false) && u32_at(out, 8, false) == u32_at(b, 8, false));
        assert(spec_locate_exif(out) is None);
    }
}

// ---- grafting ------------------------------------------------------------------------

/// The EXIF block to graft from `src`: a TIFF source reduced to its
/// metadata, else the block found in the container; orientation reset to 1
/// and, for grayscale output, the colour space marked uncalibrated.
pub open spec fn prepared_exif(src: Seq<u8>, gray: bool) -> Option<Seq<u8>> {
    let base = if spec_is_tiff(src) {
        Some(spec_tiff_metadata_only(src, gray))
    } else {
        spec_extract_exif_tiff(src)
    };
    match base {
        None => None,
        Some(t) => {
            let t1 = spec_reset_orientation(t);
            Some(
                if gray {
                    spec_set_color_space_uncalibrated(t1)
                } else {
                    t1
                },
            )
        },
    }
}

/// The output with `src`'s EXIF grafted on, by output format; unchanged
/// when the source has no EXIF or the output format takes none.  `None`
/// when the graft fails.
pub open spec fn spec_rewrite_exif_metadata(out: Seq<u8>, src: Seq<u8>, gray: bool) -> Option<Seq<u8>> {
    match prepared_exif(src, gray) {
        None => Some(out),
        Some(t) => if spec_is_jpeg(out) {
            spec_rewrite_jpeg_exif_segment(out, t)
        } else if spec_is_png(out) {
            Some(spec_inject_exif_into_png(out, t))
        } else if spec_is_webp(out) {
            spec_inject_exif_into_webp(out, t)
        } else if spec_is_tiff(out) {
            spec_inject_exif_into_tiff(out, t)
        } else {
            Some(out)
        },
    }
}

/// The EXIF block `prepared_exif` describes.
pub fn prepare_exif(source_stripped: &[u8], is_grayscale: bool) -> (r: Option<Vec<u8>>)
    ensures
        opt_bytes(r) == prepared_exif(source_stripped@, is_grayscale),
{
    let mut exif_tiff = if is_tiff(source_stripped) {
        extract_tiff_metadata_only(source_stripped, is_grayscale)
    } else {
        match extract_exif_tiff(source_stripped) {
            Some(t) => t,
            None => return None,
        }
    };
    reset_orientation_in_tiff(&mut exif_tiff);
    if is_grayscale {
        set_exif_color_space_to_uncalibrated(&mut exif_tiff);
    }
    Some(exif_tiff)
}

/// The inputs on which grafting onto a TIFF output reads the byte-order
/// mark of a block of at least two bytes.
pub open spec fn rewrite_input_ok(out: Seq<u8>, src: Seq<u8>, gray: bool) -> bool {
    match prepared_exif(src, gray) {
        Some(t) => (!spec_is_jpeg(out) && !spec_is_png(out) && !spec_is_webp(out) && spec_is_tiff(out)
            && out.len() >= 8 && tiff_order(out) is Some) ==> t.len() >= 2,
        None => true,
    }
}

/// Graft the (GPS-stripped) EXIF of `source_stripped` onto the encoded
/// `output`, with the orientation reset and, for grayscale output, the
/// colour space marked uncalibrated.
pub fn rewrite_exif_metadata(output: &[u8], source_stripped: &[u8], is_grayscale: bool) -> (r: Result<Vec<u8>, BatImgError>)
    requires
        rewrite_input_ok(output@, source_stripped@, is_grayscale),
    ensures
        match r {
            Ok(v) => spec_rewrite_exif_metadata(output@, source_stripped@, is_grayscale) == Some(v@),
            Err(e) => spec_rewrite_exif_metadata(output@, source_stripped@, is_grayscale) is None && e is Exif,
        },
{
    let exif_tiff = match prepare_exif(source_stripped, is_grayscale) {
        Some(t) => t,
        None => return Ok(to_vec(output)),
    };
    if is_jpeg(output) {
        rewrite_jpeg_exif_segment(output, exif_tiff.as_slice())
    } else if is_png(output) {
        inject_exif_into_png(output, exif_tiff.as_slice())
    } else if is_webp(output) {
        inject_exif_into_webp(output, exif_tiff.as_slice())
    } else if is_tiff(output) {
        inject_exif_into_tiff(output, exif_tiff.as_slice())
    } else {
        Ok(to_vec(output))
    }
}

/// What grafting the block `t` onto `out` needs for extraction to give `t`
/// back: a bare TIFF block (no `Exif\0\0` prefix) that a JPEG APP1 length
/// can state; an intact PNG with an `IHDR` chunk; a WebP that had an `EXIF`
/// chunk or whose rebuilt form holds no `EXIF` bytes, with a result whose
/// size fits a RIFF header.
pub open spec fn graft_reads_back(out: Seq<u8>, t: Seq<u8>) -> bool {
    &&& !has_at(t, 0, exif_header())
    &&& spec_is_jpeg(out) ==> t.len() + 8 <= 0xFFFF
    &&& spec_is_png(out) ==> t.len() <= u32::MAX && png_consumed(out) == out.len() && exists|k: int|
        0 <= k < png_chunk_list(out).len() && png_kind(out, (#[trigger] png_chunk_list(out)[k]).0) == ihdr_kind()
    &&& spec_is_webp(out) ==> t.len() <= u32::MAX && (spec_inject_exif_into_webp(out, t) matches Some(o)
        ==> o.len() <= u32::MAX) && (webp_first_exif_payload(out) is Some || !has_exif_fourcc(
        webp_rebuilt(out, chunk_choices(out, |f: Seq<u8>, p: Seq<u8>| inject_choice(t, f, p)))->0,
    ))
}

/// Grafting a source's EXIF block onto a JPEG, PNG or WebP output: reading
/// the result back gives the block that was grafted, the source's block
/// with its orientation reset (and its colour space marked uncalibrated for
/// a grayscale output).
pub proof fn lemma_rewrite_then_extract(out: Seq<u8>, src: Seq<u8>, gray: bool)
    requires
        spec_is_jpeg(out) || spec_is_png(out) || spec_is_webp(out),
        spec_rewrite_exif_metadata(out, src, gray) is Some,
        prepared_exif(src, gray) matches Some(t) ==> graft_reads_back(out, t),
    ensures
        prepared_exif(src, gray) matches Some(t) ==> spec_extract_exif_tiff(
            spec_rewrite_exif_metadata(out, src, gray)->0,
        ) == Some(t),
{
    if let Some(t) = prepared_exif(src, gray) {
        if spec_is_jpeg(out) {
            lemma_graft_jpeg_then_extract(out, t);
        } else if spec_is_png(out) {
            lemma_inject_png_then_extract(out, t);
        } else {
            lemma_inject_webp_then_extract(out, t);
        }
    }
}

} // verus!
