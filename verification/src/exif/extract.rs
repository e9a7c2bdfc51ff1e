//! The single entry point that finds the raw TIFF/EXIF block in a JPEG,
//! PNG, WebP, TIFF or HEIC file.
use vstd::prelude::*;
use crate::bytes::{bytes_at, has_at, to_vec};
use crate::heic::{is_heic_bytes, spec_is_heic_bytes};
use super::container::{
    exif_header, is_jpeg, is_png, is_tiff, is_webp, spec_is_jpeg, spec_is_png, spec_is_tiff,
    spec_is_webp, spec_strip_exif_prefix, strip_exif_prefix,
};
use super::heic::{extract_heic_exif_tiff, lemma_locate_exif_bounds, opt_bytes, spec_heic_exif_tiff, spec_locate_exif};
use super::tiff::{lemma_tiff_extent_le, spec_tiff_extent};
use super::jpeg::{jpeg_segments, jpeg_segs, lemma_jpeg_segs_bounds, seg_view};
use super::png::{lemma_png_chunks_bounds, png_chunk_list, png_chunks, png_data, png_kind};
use super::webp::{lemma_webp_chunks_bounds, webp_chunk_list, webp_limit, webp_chunks, webp_fourcc, webp_payload};
use crate::bytes::span_view;

verus! {

/// The TIFF data of the first APP1 segment at index `i` or later whose
/// payload starts with `Exif\0\0`.
pub open spec fn first_exif_app1(b: Seq<u8>, segs: Seq<(u8, int, int)>, i: int) -> Option<Seq<u8>>
    decreases segs.len() - i,
{
    if i < 0 || i >= segs.len() {
        None
    } else if segs[i].0 == 0xE1 && has_at(b.subrange(segs[i].1, segs[i].2), 0, exif_header()) {
        Some(b.subrange(segs[i].1 + 6, segs[i].2))
    } else {
        first_exif_app1(b, segs, i + 1)
    }
}

/// Index of the first chunk at `i` or later whose four-byte type (at the
/// chunk's own offset plus `at`) is `kind`.
pub open spec fn first_chunk(b: Seq<u8>, cs: Seq<(int, int)>, at: int, kind: Seq<u8>, i: int) -> Option<int>
    decreases cs.len() - i,
{
    if i < 0 || i >= cs.len() {
        None
    } else if b.subrange(cs[i].0 + at, cs[i].0 + at + 4) == kind {
        Some(i)
    } else {
        first_chunk(b, cs, at, kind, i + 1)
    }
}

/// No APP1 segment is found when no segment carries the APP1 marker.
pub proof fn lemma_no_app1(b: Seq<u8>, segs: Seq<(u8, int, int)>, i: int)
    requires
        forall|k: int| 0 <= k < segs.len() ==> (#[trigger] segs[k]).0 != 0xE1,
    ensures
        first_exif_app1(b, segs, i) is None,
    decreases segs.len() - i,
{
    if 0 <= i < segs.len() {
        lemma_no_app1(b, segs, i + 1);
    }
}

/// Searching from the second segment of `[s] + rest` is searching `rest`.
pub proof fn lemma_first_exif_app1_shift(b: Seq<u8>, s: (u8, int, int), rest: Seq<(u8, int, int)>, i: int)
    requires
        0 <= i,
    ensures
        first_exif_app1(b, seq![s] + rest, i + 1) == first_exif_app1(b, rest, i),
    decreases rest.len() - i,
{
    if i < rest.len() {
        assert((seq![s] + rest)[i + 1] == rest[i]);
        lemma_first_exif_app1_shift(b, s, rest, i + 1);
    }
}

/// No chunk is found when no chunk has the type looked for.
pub proof fn lemma_no_chunk_of_kind(b: Seq<u8>, cs: Seq<(int, int)>, at: int, kind: Seq<u8>, i: int)
    requires
        forall|k: int| 0 <= k < cs.len() ==> b.subrange((#[trigger] cs[k]).0 + at, cs[k].0 + at + 4) != kind,
    ensures
        first_chunk(b, cs, at, kind, i) is None,
    decreases cs.len() - i,
{
    if 0 <= i < cs.len() {
        lemma_no_chunk_of_kind(b, cs, at, kind, i + 1);
    }
}

/// The chunk found has the type looked for.
pub proof fn lemma_chunk_found(b: Seq<u8>, cs: Seq<(int, int)>, at: int, kind: Seq<u8>, i: int)
    requires
        0 <= i,
    ensures
        first_chunk(b, cs, at, kind, i) matches Some(j) ==> i <= j < cs.len() && b.subrange(
            cs[j].0 + at,
            cs[j].0 + at + 4,
        ) == kind,
    decreases cs.len() - i,
{
    if i < cs.len() && b.subrange(cs[i].0 + at, cs[i].0 + at + 4) != kind {
        lemma_chunk_found(b, cs, at, kind, i + 1);
    }
}

/// Searching from the second chunk of `[a] + rest` is searching `rest`.
pub proof fn lemma_first_chunk_shift(
    b: Seq<u8>,
    a: (int, int),
    rest: Seq<(int, int)>,
    at: int,
    kind: Seq<u8>,
    i: int,
)
    requires
        0 <= i,
    ensures
        first_chunk(b, seq![a] + rest, at, kind, i + 1) == match first_chunk(b, rest, at, kind, i) {
            Some(j) => Some(j + 1),
            None => None,
        },
    decreases rest.len() - i,
{
    if i < rest.len() {
        assert((seq![a] + rest)[i + 1] == rest[i]);
        lemma_first_chunk_shift(b, a, rest, at, kind, i + 1);
    }
}

/// Two chunk lists whose chunks have the same types, one by one, find the
/// same chunk.
pub proof fn lemma_same_chunk_found(
    x: Seq<u8>,
    xs: Seq<(int, int)>,
    b: Seq<u8>,
    cs: Seq<(int, int)>,
    at: int,
    kind: Seq<u8>,
    i: int,
)
    requires
        xs.len() == cs.len(),
        forall|k: int|
            0 <= k < cs.len() ==> x.subrange((#[trigger] xs[k]).0 + at, xs[k].0 + at + 4) == b.subrange(
                cs[k].0 + at,
                cs[k].0 + at + 4,
            ),
    ensures
        first_chunk(x, xs, at, kind, i) == first_chunk(b, cs, at, kind, i),
    decreases cs.len() - i,
{
    if 0 <= i < cs.len() {
        lemma_same_chunk_found(x, xs, b, cs, at, kind, i + 1);
    }
}

/// The raw TIFF/EXIF block of an image: the first EXIF APP1 segment of a
/// JPEG, the first `eXIf` chunk of a PNG or `EXIF` chunk of a WebP (without
/// an `Exif\0\0` prefix), a whole TIFF, or the EXIF block of a HEIC file.
pub open spec fn spec_extract_exif_tiff(b: Seq<u8>) -> Option<Seq<u8>> {
    if spec_is_jpeg(b) {
        first_exif_app1(b, jpeg_segs(b), 0)
    } else if spec_is_png(b) {
        match first_chunk(b, png_chunk_list(b), 4, seq![0x65u8, 0x58, 0x49, 0x66], 0) {
            Some(i) => Some(spec_strip_exif_prefix(png_data(b, png_chunk_list(b)[i]))),
            None => None,
        }
    } else if spec_is_webp(b) {
        match first_chunk(b, webp_chunk_list(b), 0, seq![0x45u8, 0x58, 0x49, 0x46], 0) {
            Some(i) => Some(spec_strip_exif_prefix(webp_payload(b, webp_chunk_list(b)[i]))),
            None => None,
        }
    } else if spec_is_tiff(b) {
        Some(b)
    } else if spec_is_heic_bytes(b) {
        spec_heic_exif_tiff(b)
    } else {
        None
    }
}

/// `v` is the bytes of `b` between two offsets.
pub open spec fn is_slice_of(v: Seq<u8>, b: Seq<u8>) -> bool {
    exists|a: int, c: int| 0 <= a <= c <= b.len() && #[trigger] b.subrange(a, c) == v
}

proof fn lemma_first_exif_app1_slice(b: Seq<u8>, segs: Seq<(u8, int, int)>, i: int)
    requires
        0 <= i,
        forall|k: int| 0 <= k < segs.len() ==> 0 <= (#[trigger] segs[k]).1 <= segs[k].2 <= b.len(),
    ensures
        first_exif_app1(b, segs, i) matches Some(v) ==> is_slice_of(v, b),
    decreases segs.len() - i,
{
    if i < segs.len() {
        let (m, s1, s2) = segs[i];
        if m == 0xE1 && has_at(b.subrange(s1, s2), 0, exif_header()) {
            assert(b.subrange(s1 + 6, s2) == b.subrange(s1 + 6, s2));
        } else {
            lemma_first_exif_app1_slice(b, segs, i + 1);
        }
    }
}

/// The payload `b[x..y]` with an `Exif\0\0` prefix dropped is still a slice
/// of `b`.
proof fn lemma_strip_prefix_slice(b: Seq<u8>, x: int, y: int)
    requires
        0 <= x <= y <= b.len(),
    ensures
        is_slice_of(spec_strip_exif_prefix(b.subrange(x, y)), b),
{
    let p = b.subrange(x, y);
    if has_at(p, 0, exif_header()) {
        assert(p.subrange(6, p.len() as int) =~= b.subrange(x + 6, y));
    } else {
        assert(b.subrange(x, y) == p);
    }
}

/// Whatever EXIF block extraction finds is a run of the input's own bytes.
pub proof fn lemma_extracted_block_is_a_slice(b: Seq<u8>)
    ensures
        spec_extract_exif_tiff(b) matches Some(v) ==> is_slice_of(v, b),
{
    if spec_is_jpeg(b) {
        lemma_jpeg_segs_bounds(b, 2);
        lemma_first_exif_app1_slice(b, jpeg_segs(b), 0);
    } else if spec_is_png(b) {
        let cs = png_chunk_list(b);
        let kind = seq![0x65u8, 0x58, 0x49, 0x66];
        lemma_chunk_found(b, cs, 4, kind, 0);
        lemma_png_chunks_bounds(b, 8);
        if let Some(i) = first_chunk(b, cs, 4, kind, 0) {
            lemma_strip_prefix_slice(b, cs[i].0 + 8, cs[i].0 + 8 + cs[i].1);
        }
    } else if spec_is_webp(b) {
        let cs = webp_chunk_list(b);
        let kind = seq![0x45u8, 0x58, 0x49, 0x46];
        lemma_chunk_found(b, cs, 0, kind, 0);
        lemma_webp_chunks_bounds(b, 12, webp_limit(b));
        if let Some(i) = first_chunk(b, cs, 0, kind, 0) {
            lemma_strip_prefix_slice(b, cs[i].0 + 8, cs[i].0 + 8 + cs[i].1);
        }
    } else if spec_is_tiff(b) {
        assert(b.subrange(0, b.len() as int) =~= b);
    } else if spec_is_heic_bytes(b) {
        lemma_locate_exif_bounds(b);
        if let Some((s, e, x)) = spec_locate_exif(b) {
            if x {
                assert(b.subrange(s, e) == b.subrange(s, e));
            } else {
                lemma_tiff_extent_le(b.subrange(s, e));
                if let Some(n) = spec_tiff_extent(b.subrange(s, e)) {
                    assert(b.subrange(s, s + n) == b.subrange(s, s + n));
                }
            }
        }
    }
}

/// Index of the first chunk of `chunks` whose type at offset `at` is `kind`.
fn find_chunk(b: &[u8], chunks: &Vec<(usize, usize)>, at: usize, kind: &[u8; 4]) -> (r: Option<usize>)
    requires
        at <= 4,
        forall|i: int| 0 <= i < chunks@.len() ==> (#[trigger] chunks@[i]).0 + 8 <= b@.len(),
    ensures
        match r {
            Some(i) => first_chunk(b@, span_view(chunks@), at as int, kind@, 0) == Some(i as int)
                && i < chunks@.len(),
            None => first_chunk(b@, span_view(chunks@), at as int, kind@, 0) is None,
        },
{
    let ghost cs = span_view(chunks@);
    let blen = b.len();
    let mut i: usize = 0;
    while i < chunks.len()
        invariant
            blen == b@.len(),
            cs == span_view(chunks@),
            at <= 4,
            forall|i: int| 0 <= i < chunks@.len() ==> (#[trigger] chunks@[i]).0 + 8 <= b@.len(),
            i <= chunks@.len(),
            first_chunk(b@, cs, at as int, kind@, 0) == first_chunk(b@, cs, at as int, kind@, i as int),
        decreases chunks.len() - i,
    {
        assert(chunks@[i as int].0 + 8 <= b@.len());
        let start = chunks[i].0 + at;
        assert(cs[i as int].0 == chunks@[i as int].0);
        if bytes_at(b, start, kind) {
            assert(b@.subrange(start as int, start + 4) == kind@);
            return Some(i);
        } else {
            assert(b@.subrange(start as int, start + 4) != kind@);
        }
        i = i + 1;
    }
    None
}

/// Extract the raw TIFF/EXIF block from any supported image container.
pub fn extract_exif_tiff(bytes: &[u8]) -> (r: Option<Vec<u8>>)
    ensures
        opt_bytes(r) == spec_extract_exif_tiff(bytes@),
{
    if is_jpeg(bytes) {
        let segs = jpeg_segments(bytes);
        let ghost sv = seg_view(segs@);
        proof {
            lemma_jpeg_segs_bounds(bytes@, 2);
        }
        let hdr: [u8; 6] = [0x45, 0x78, 0x69, 0x66, 0, 0];
        assert(hdr@ =~= exif_header());
        let mut i: usize = 0;
        while i < segs.len()
            invariant
                sv == seg_view(segs@),
                sv == jpeg_segs(bytes@),
                spec_is_jpeg(bytes@),
                hdr@ == exif_header(),
                forall|k: int| 0 <= k < sv.len() ==> 2 <= #[trigger] sv[k].1 <= sv[k].2 <= bytes@.len(),
                i <= segs@.len(),
                first_exif_app1(bytes@, sv, 0) == first_exif_app1(bytes@, sv, i as int),
            decreases segs.len() - i,
        {
            let (m, s, e) = segs[i];
            assert(sv[i as int] == (m, s as int, e as int));
            if m == 0xE1 && e - s >= 6 && bytes_at(bytes, s, &hdr) {
                assert(has_at(bytes@.subrange(s as int, e as int), 0, exif_header())) by {
                    assert(bytes@.subrange(s as int, e as int).subrange(0, 6) =~= bytes@.subrange(s as int, s + 6));
                }
                return Some(to_vec(&bytes[s + 6..e]));
            }
            proof {
                if m == 0xE1 && has_at(bytes@.subrange(s as int, e as int), 0, exif_header()) {
                    assert(bytes@.subrange(s as int, e as int).subrange(0, 6) =~= bytes@.subrange(s as int, s + 6));
                }
            }
            i = i + 1;
        }
        None
    } else if is_png(bytes) {
        let blen = bytes.len();
        let chunks = png_chunks(bytes);
        proof {
            lemma_png_chunks_bounds(bytes@, 8);
        }
        let kind: [u8; 4] = [0x65, 0x58, 0x49, 0x66];
        assert(kind@ =~= seq![0x65u8, 0x58, 0x49, 0x66]);
        assert forall|i: int| 0 <= i < chunks@.len() implies (#[trigger] chunks@[i]).0 + 8 <= bytes@.len() by {
            assert(span_view(chunks@)[i] == png_chunk_list(bytes@)[i]);
        }
        match find_chunk(bytes, &chunks, 4, &kind) {
            Some(i) => {
                let (start, len) = chunks[i];
                assert(span_view(chunks@)[i as int] == (start as int, len as int));
                assert(png_chunk_list(bytes@)[i as int] == (start as int, len as int));
                assert(crate::exif::png::png_end(png_chunk_list(bytes@)[i as int]) <= bytes@.len());
                let data = &bytes[start + 8..start + 8 + len];
                Some(to_vec(strip_exif_prefix(data)))
            },
            None => None,
        }
    } else if is_webp(bytes) {
        let blen = bytes.len();
        let chunks = webp_chunks(bytes);
        proof {
            lemma_webp_chunks_bounds(bytes@, 12, crate::exif::webp::webp_limit(bytes@));
        }
        let kind: [u8; 4] = [0x45, 0x58, 0x49, 0x46];
        assert(kind@ =~= seq![0x45u8, 0x58, 0x49, 0x46]);
        assert forall|i: int| 0 <= i < chunks@.len() implies (#[trigger] chunks@[i]).0 + 8 <= bytes@.len() by {
            assert(span_view(chunks@)[i] == webp_chunk_list(bytes@)[i]);
        }
        match find_chunk(bytes, &chunks, 0, &kind) {
            Some(i) => {
                let (start, size) = chunks[i];
                assert(span_view(chunks@)[i as int] == (start as int, size as int));
                assert(webp_chunk_list(bytes@)[i as int] == (start as int, size as int));
                let payload = &bytes[start + 8..start + 8 + size];
                Some(to_vec(strip_exif_prefix(payload)))
            },
            None => None,
        }
    } else if is_tiff(bytes) {
        Some(to_vec(bytes))
    } else if is_heic_bytes(bytes) {
        extract_heic_exif_tiff(bytes)
    } else {
        None
    }
}

} // verus!
