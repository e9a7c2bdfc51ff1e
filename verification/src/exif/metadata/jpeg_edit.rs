//! JPEG rewrites: replacing (or inserting) the APP1 EXIF segment, removing
//! the GPS pointer from it, and dropping APPn segments.
use vstd::prelude::*;
use crate::bytes::{bytes16, bytes_at, extend_range, has_at, push_u16, to_vec, u16_at};
use crate::error::BatImgError;
use crate::exif::container::{exif_header, spec_is_jpeg};
use crate::exif::extract::{first_exif_app1, lemma_first_exif_app1_shift, lemma_no_app1, spec_extract_exif_tiff};
use crate::exif::jpeg::{is_standalone_marker, jpeg_segs, jpeg_segs_from, lemma_skip_fill, skip_fill};
use super::tiff_edit::{
    at_most_one_gps_entry, gps_table_fits, ifd0_info, lemma_strip_gps_len, lemma_strip_gps_removes_gps, spec_strip_gps_from_tiff,
    strip_gps_from_tiff,
};
use crate::exif::tiff::ifd0_entry;

verus! {

/// An APP1 segment holding `Exif\0\0` and `tiff`; the length field wraps at
/// 16 bits, as an `as u16` conversion does.
pub open spec fn app1_segment(tiff: Seq<u8>) -> Seq<u8> {
    seq![0xFFu8, 0xE1] + bytes16(((6 + tiff.len() + 2) % 0x10000) as u16, false) + exif_header() + tiff
}

fn write_jpeg_app1_exif_segment(out: &mut Vec<u8>, tiff: &[u8])
    ensures
        final(out)@ == old(out)@ + app1_segment(tiff@),
{
    let seg_len = ((6 + tiff.len() as u128 + 2) % 0x10000) as u16;
    out.push(0xFF);
    out.push(0xE1);
    push_u16(out, seg_len, false);
    let hdr: [u8; 6] = [0x45, 0x78, 0x69, 0x66, 0, 0];
    extend_range(out, &hdr, 0, 6);
    extend_range(out, tiff, 0, tiff.len());
    assert(hdr@.subrange(0, 6) =~= exif_header());
    assert(tiff@.subrange(0, tiff@.len() as int) =~= tiff@);
    assert(out@ =~= old(out)@ + app1_segment(tiff@));
}

/// APPn (0xE0..=0xEF) or COM (0xFE).
pub open spec fn is_app_or_com(m: u8) -> bool {
    (0xE0 <= m && m <= 0xEF) || m == 0xFE
}

/// An APP1 segment at `i` whose payload (ending at `se`) starts with `Exif\0\0`.
pub open spec fn exif_app1_at(b: Seq<u8>, i: int, se: int) -> bool {
    b[i + 1] == 0xE1 && i + 10 <= se && has_at(b, i + 4, exif_header())
}

/// The output after SOI from position `i` on, with `a` the replacement APP1
/// segment and `ins` whether it was placed already: APPn/COM segments are
/// copied, except that every EXIF APP1 becomes `a`; at the first other
/// marker (or anything that is not a marker) `a` is placed if it was not
/// yet, and the rest is copied.  `None` for a truncated or corrupt segment.
pub open spec fn graft_jpeg_from(b: Seq<u8>, a: Seq<u8>, i: int, ins: bool) -> Option<Seq<u8>>
    decreases b.len() - i,
{
    let pending = if ins {
        Seq::<u8>::empty()
    } else {
        a
    };
    if i < 0 {
        None
    } else if !(i + 1 < b.len()) || b[i] != 0xFF {
        Some(pending + if i < b.len() {
            b.subrange(i, b.len() as int)
        } else {
            Seq::empty()
        })
    } else if is_app_or_com(b[i + 1]) {
        if i + 4 > b.len() {
            None
        } else {
            let len = u16_at(b, i + 2, false) as int;
            let se = i + 2 + len;
            if len < 2 || se > b.len() {
                None
            } else {
                let hit = exif_app1_at(b, i, se);
                let part = if hit {
                    a
                } else {
                    b.subrange(i, se)
                };
                match graft_jpeg_from(b, a, se, ins || hit) {
                    None => None,
                    Some(t) => Some(part + t),
                }
            }
        }
    } else {
        Some(pending + b.subrange(i, b.len() as int))
    }
}

/// The JPEG with its EXIF APP1 segment(s) replaced by one holding `tiff`
/// (inserted before the first non-APP segment when there is none); `None`
/// for a non-JPEG or a truncated/corrupt APP segment.
pub open spec fn spec_rewrite_jpeg_exif_segment(b: Seq<u8>, tiff: Seq<u8>) -> Option<Seq<u8>> {
    if !(b.len() >= 2 && b[0] == 0xFF && b[1] == 0xD8) {
        None
    } else {
        match graft_jpeg_from(b, app1_segment(tiff), 2, false) {
            None => None,
            Some(t) => Some(b.subrange(0, 2) + t),
        }
    }
}

pub open spec fn opt_then(r: Option<Seq<u8>>, out: Seq<u8>) -> Option<Seq<u8>> {
    match r {
        None => None,
        Some(t) => Some(out + t),
    }
}

/// Replace the EXIF APP1 segment of a JPEG with one holding `new_tiff`.
pub fn rewrite_jpeg_exif_segment(jpeg: &[u8], new_tiff: &[u8]) -> (r: Result<Vec<u8>, BatImgError>)
    ensures
        match r {
            Ok(v) => spec_rewrite_jpeg_exif_segment(jpeg@, new_tiff@) == Some(v@),
            Err(e) => spec_rewrite_jpeg_exif_segment(jpeg@, new_tiff@) is None && e is Exif,
        },
{
    let n = jpeg.len();
    if !(n >= 2 && jpeg[0] == 0xFF && jpeg[1] == 0xD8) {
        return Err(BatImgError::Exif("invalid JPEG".to_owned()));
    }
    let ghost a = app1_segment(new_tiff@);
    let ghost b = jpeg@;
    let mut out: Vec<u8> = Vec::new();
    extend_range(&mut out, jpeg, 0, 2);
    let mut i: usize = 2;
    let mut inserted = false;
    let hdr: [u8; 6] = [0x45, 0x78, 0x69, 0x66, 0, 0];
    assert(hdr@ =~= exif_header());
    loop
        invariant
            n == b.len(),
            b == jpeg@,
            a == app1_segment(new_tiff@),
            hdr@ == exif_header(),
            b.len() >= 2 && b[0] == 0xFF && b[1] == 0xD8,
            2 <= i <= n,
            opt_then(graft_jpeg_from(b, a, 2, false), b.subrange(0, 2)) == opt_then(
                graft_jpeg_from(b, a, i as int, inserted),
                out@,
            ),
        decreases n - i,
    {
        let ghost o0 = out@;
        let ghost ins0 = inserted;
        let ghost pending = if inserted {
            Seq::<u8>::empty()
        } else {
            a
        };
        if n - i <= 1 || jpeg[i] != 0xFF {
            if !inserted {
                write_jpeg_app1_exif_segment(&mut out, new_tiff);
            }
            if i < n {
                extend_range(&mut out, jpeg, i, n);
            }
            assert(out@ =~= o0 + (pending + if i < n {
                b.subrange(i as int, n as int)
            } else {
                Seq::empty()
            }));
            return Ok(out);
        }
        let m = jpeg[i + 1];
        if (0xE0 <= m && m <= 0xEF) || m == 0xFE {
            if n - i < 4 {
                return Err(BatImgError::Exif("truncated JPEG".to_owned()));
            }
            let len = (jpeg[i + 2] as usize) * 256 + (jpeg[i + 3] as usize);
            assert(len == u16_at(b, i + 2, false));
            if len < 2 {
                return Err(BatImgError::Exif("invalid segment length".to_owned()));
            }
            if len > n - i - 2 {
                return Err(BatImgError::Exif("truncated JPEG".to_owned()));
            }
            let se = i + 2 + len;
            let hit = m == 0xE1 && se - i >= 10 && bytes_at(jpeg, i + 4, &hdr);
            assert(hit == exif_app1_at(b, i as int, se as int));
            let ghost part = if hit {
                a
            } else {
                b.subrange(i as int, se as int)
            };
            if hit {
                write_jpeg_app1_exif_segment(&mut out, new_tiff);
                inserted = true;
            } else {
                extend_range(&mut out, jpeg, i, se);
            }
            assert(out@ == o0 + part);
            proof {
                match graft_jpeg_from(b, a, se as int, inserted) {
                    None => {},
                    Some(t) => {
                        assert(o0 + (part + t) =~= out@ + t);
                    },
                }
            }
            i = se;
        } else {
            if !inserted {
                write_jpeg_app1_exif_segment(&mut out, new_tiff);
            }
            extend_range(&mut out, jpeg, i, n);
            assert(out@ =~= o0 + (pending + b.subrange(i as int, n as int)));
            return Ok(out);
        }
    }
}

/// Where the GPS strip finds the EXIF TIFF data of a JPEG.
pub enum ExifScan {
    /// No EXIF APP1 segment before the walk stops.
    NotFound,
    /// An APP1 segment whose length runs below its own header or past the end.
    Corrupt,
    /// The TIFF data of the first EXIF APP1 segment, `start..end`.
    At(int, int),
}

/// The segment walk from `i`: any segment is skipped by its length field
/// until the first APP1; that one is either corrupt, EXIF, or skipped too.
pub open spec fn jpeg_exif_scan(b: Seq<u8>, i: int) -> ExifScan
    decreases b.len() - i,
{
    if i < 0 || i + 3 >= b.len() || b[i] != 0xFF {
        ExifScan::NotFound
    } else {
        let len = u16_at(b, i + 2, false) as int;
        let se = i + 2 + len;
        if b[i + 1] == 0xE1 {
            if se < i + 4 || se > b.len() {
                ExifScan::Corrupt
            } else if exif_app1_at(b, i, se) {
                ExifScan::At(i + 10, se)
            } else {
                jpeg_exif_scan(b, se)
            }
        } else if se > b.len() {
            ExifScan::NotFound
        } else {
            jpeg_exif_scan(b, se)
        }
    }
}

/// The JPEGs whose GPS strip does not fail on slicing: the first APP1 reached
/// is well-formed, and an EXIF block in it has its GPS entry table inside it.
pub open spec fn jpeg_gps_input_ok(b: Seq<u8>) -> bool {
    match jpeg_exif_scan(b, 2) {
        ExifScan::NotFound => true,
        ExifScan::Corrupt => false,
        ExifScan::At(s, e) => gps_table_fits(b.subrange(s, e)),
    }
}

/// The JPEG with the GPS pointer removed from its EXIF block (the APP1
/// segment rewritten); unchanged without one.  `None` when rewriting the
/// segment fails.
pub open spec fn spec_jpeg_without_gps(b: Seq<u8>) -> Option<Seq<u8>> {
    match jpeg_exif_scan(b, 2) {
        ExifScan::At(s, e) => spec_rewrite_jpeg_exif_segment(b, spec_strip_gps_from_tiff(b.subrange(s, e))),
        _ => Some(b),
    }
}

pub fn rewrite_jpeg_exif_without_gps(jpeg: &[u8]) -> (r: Result<Vec<u8>, BatImgError>)
    requires
        jpeg_gps_input_ok(jpeg@),
    ensures
        match r {
            Ok(v) => spec_jpeg_without_gps(jpeg@) == Some(v@),
            Err(e) => spec_jpeg_without_gps(jpeg@) is None && e is Exif,
        },
{
    let ghost b = jpeg@;
    let n = jpeg.len();
    let hdr: [u8; 6] = [0x45, 0x78, 0x69, 0x66, 0, 0];
    assert(hdr@ =~= exif_header());
    let mut i: usize = 2;
    while n >= 3 && i < n - 3
        invariant
            n == b.len(),
            b == jpeg@,
            hdr@ == exif_header(),
            jpeg_gps_input_ok(b),
            jpeg_exif_scan(b, 2) == jpeg_exif_scan(b, i as int),
            i >= 2,
        ensures
            jpeg_exif_scan(b, 2) == ExifScan::NotFound,
        decreases n - i,
    {
        if jpeg[i] != 0xFF {
            break;
        }
        let marker = jpeg[i + 1];
        let len = (jpeg[i + 2] as usize) * 256 + (jpeg[i + 3] as usize);
        assert(len == u16_at(b, i + 2, false));
        if len > n - i - 2 {
            if marker == 0xE1 {
                assert(jpeg_exif_scan(b, i as int) == ExifScan::Corrupt);
            }
            return Ok(to_vec(jpeg));
        }
        let seg_end = i + 2 + len;
        if marker == 0xE1 {
            if len < 2 {
                assert(jpeg_exif_scan(b, i as int) == ExifScan::Corrupt);
                return Ok(to_vec(jpeg));
            }
            if seg_end - i >= 10 && bytes_at(jpeg, i + 4, &hdr) {
                let tiff = &jpeg[i + 10..seg_end];
                let new_tiff = match strip_gps_from_tiff(tiff) {
                    Ok(t) => t,
                    Err(e) => return Err(e),
                };
                return rewrite_jpeg_exif_segment(jpeg, new_tiff.as_slice());
            }
        }
        i = seg_end;
    }
    Ok(to_vec(jpeg))
}

/// The bytes after SOI from `i` on with APP1..APP15 segments dropped: a
/// non-marker byte ends the walk and is kept with the rest, RSTn/SOI/EOI
/// markers (0xD0..=0xD9) are kept as two bytes, a segment running past the
/// end is kept with the rest, and fewer than four bytes left end the walk
/// and are kept as they are (so a trailing EOI stays).
pub open spec fn strip_app_from(b: Seq<u8>, i: int) -> Seq<u8>
    decreases b.len() - i,
{
    if i < 0 || i >= b.len() {
        Seq::empty()
    } else if !(i + 3 < b.len()) || b[i] != 0xFF {
        b.subrange(i, b.len() as int)
    } else {
        let m = b[i + 1];
        if 0xD0 <= m && m <= 0xD9 {
            b.subrange(i, i + 2) + strip_app_from(b, i + 2)
        } else {
            let se = i + 2 + u16_at(b, i + 2, false) as int;
            if se > b.len() {
                b.subrange(i, b.len() as int)
            } else {
                (if 0xE1 <= m && m <= 0xEF {
                    Seq::empty()
                } else {
                    b.subrange(i, se)
                }) + strip_app_from(b, se)
            }
        }
    }
}

/// The JPEG without APP1..APP15 segments (APP0/JFIF stays).
pub open spec fn spec_strip_jpeg_app(b: Seq<u8>) -> Seq<u8> {
    if b.len() < 2 {
        b
    } else {
        b.subrange(0, 2) + strip_app_from(b, 2)
    }
}

/// Drop every APPn segment except APP0 (JFIF).
pub fn strip_jpeg_app_segments(bytes: &[u8]) -> (r: Vec<u8>)
    ensures
        r@ == spec_strip_jpeg_app(bytes@),
{
    let n = bytes.len();
    if n < 2 {
        return to_vec(bytes);
    }
    let ghost b = bytes@;
    let mut out: Vec<u8> = Vec::new();
    extend_range(&mut out, bytes, 0, 2);
    let mut i: usize = 2;
    while n >= 3 && i < n - 3
        invariant
            n == b.len(),
            b == bytes@,
            n >= 2,
            i >= 2,
            b.subrange(0, 2) + strip_app_from(b, 2) == out@ + strip_app_from(b, i as int),
        decreases n - i,
    {
        let ghost o0 = out@;
        if bytes[i] != 0xFF {
            extend_range(&mut out, bytes, i, n);
            assert(out@ =~= o0 + strip_app_from(b, i as int));
            return out;
        }
        let marker = bytes[i + 1];
        if 0xD0 <= marker && marker <= 0xD9 {
            extend_range(&mut out, bytes, i, i + 2);
            assert(o0 + strip_app_from(b, i as int) =~= out@ + strip_app_from(b, i + 2));
            i = i + 2;
            continue;
        }
        let len = (bytes[i + 2] as usize) * 256 + (bytes[i + 3] as usize);
        assert(len == u16_at(b, i + 2, false));
        if len > n - i - 2 {
            extend_range(&mut out, bytes, i, n);
            assert(out@ =~= o0 + strip_app_from(b, i as int));
            return out;
        }
        let seg_end = i + 2 + len;
        if !(0xE1 <= marker && marker <= 0xEF) {
            extend_range(&mut out, bytes, i, seg_end);
        }
        assert(o0 + strip_app_from(b, i as int) =~= out@ + strip_app_from(b, seg_end as int));
        i = seg_end;
    }
    let ghost o0 = out@;
    if i < n {
        extend_range(&mut out, bytes, i, n);
    }
    assert(out@ =~= o0 + strip_app_from(b, i as int));
    out
}

/// From `i` up to the start of scan (or the end of the image), the marker
/// walk meets no fill byte, no TEM or repeated SOI marker, and no segment
/// whose length field is below 2.
pub open spec fn plain_jpeg_header_from(b: Seq<u8>, i: int) -> bool
    decreases b.len() - i,
{
    if i < 0 || !(i + 3 < b.len()) || b[i] != 0xFF {
        true
    } else {
        let m = b[i + 1];
        if m == 0xDA || m == 0xD9 {
            true
        } else if m == 0xFF || m == 0x01 || m == 0xD8 {
            false
        } else if 0xD0 <= m && m <= 0xD7 {
            plain_jpeg_header_from(b, i + 2)
        } else {
            let len = u16_at(b, i + 2, false) as int;
            if i + 2 + len > b.len() {
                true
            } else {
                len >= 2 && plain_jpeg_header_from(b, i + 2 + len)
            }
        }
    }
}

/// Fewer than four bytes from `p` hold no APP1 segment.
proof fn lemma_short_walk_no_app1(o: Seq<u8>, p: int)
    requires
        0 <= p,
        o.len() < p + 4,
    ensures
        forall|k: int| 0 <= k < jpeg_segs_from(o, p).len() ==> (#[trigger] jpeg_segs_from(o, p)[k]).0 != 0xE1,
    decreases o.len() - p,
{
    if p < o.len() && o[p] == 0xFF {
        let p2 = skip_fill(o, p);
        lemma_skip_fill(o, p);
        if p2 + 1 < o.len() {
            let m = o[p2 + 1];
            if m != 0xDA && m != 0xD9 && is_standalone_marker(m) {
                lemma_short_walk_no_app1(o, p2 + 2);
                let w = jpeg_segs_from(o, p);
                let w2 = jpeg_segs_from(o, p2 + 2);
                assert(w == seq![(m, p2 + 2, p2 + 2)] + w2);
                assert forall|k: int| 0 <= k < w.len() implies (#[trigger] w[k]).0 != 0xE1 by {
                    if k > 0 {
                        assert(w[k] == w2[k - 1]);
                    }
                }
            }
        }
    }
}

/// Walking the segments of `o` from `p`, where `o[p..]` is what the APPn
/// strip made of `b[i..]`, meets no APP1 segment.
proof fn lemma_jpeg_walk_stripped(o: Seq<u8>, p: int, b: Seq<u8>, i: int)
    requires
        2 <= p <= o.len(),
        2 <= i,
        o.subrange(p, o.len() as int) == strip_app_from(b, i),
        plain_jpeg_header_from(b, i),
    ensures
        forall|k: int| 0 <= k < jpeg_segs_from(o, p).len() ==> (#[trigger] jpeg_segs_from(o, p)[k]).0 != 0xE1,
    decreases b.len() - i,
{
    let tail = o.subrange(p, o.len() as int);
    if !(i + 3 < b.len()) {
        assert(tail.len() < 4);
        lemma_short_walk_no_app1(o, p);
        return;
    }
    if b[i] != 0xFF {
        assert(tail[0] == b[i]);
        return;
    }
    let m = b[i + 1];
    if 0xD0 <= m && m <= 0xD9 {
        let rest = strip_app_from(b, i + 2);
        assert(tail == b.subrange(i, i + 2) + rest);
        assert(tail[0] == b[i] && tail[1] == b[i + 1]);
        assert(o[p] == 0xFF && o[p + 1] == m);
        assert(skip_fill(o, p) == p);
        if m == 0xD9 {
            return;
        }
        assert(o.subrange(p + 2, o.len() as int) =~= rest) by {
            assert forall|k: int| 0 <= k < rest.len() implies #[trigger] o.subrange(p + 2, o.len() as int)[k] == rest[k] by {
                assert(tail[2 + k] == o[p + 2 + k]);
            }
        }
        lemma_jpeg_walk_stripped(o, p + 2, b, i + 2);
        let w = jpeg_segs_from(o, p);
        let w2 = jpeg_segs_from(o, p + 2);
        assert(w == seq![(m, p + 2, p + 2)] + w2);
        assert forall|k: int| 0 <= k < w.len() implies (#[trigger] w[k]).0 != 0xE1 by {
            if k > 0 {
                assert(w[k] == w2[k - 1]);
            }
        }
        return;
    }
    let len = u16_at(b, i + 2, false) as int;
    let se = i + 2 + len;
    if se > b.len() {
        assert(tail =~= b.subrange(i, b.len() as int));
        assert(tail[0] == b[i] && tail[1] == b[i + 1] && tail[2] == b[i + 2] && tail[3] == b[i + 3]);
        assert(skip_fill(o, p) == p);
        assert(u16_at(o, p + 2, false) == len);
        return;
    }
    let rest = strip_app_from(b, se);
    if 0xE1 <= m && m <= 0xEF {
        assert(strip_app_from(b, i) =~= rest);
        lemma_jpeg_walk_stripped(o, p, b, se);
        return;
    }
    let piece = b.subrange(i, se);
    assert(tail == piece + rest);
    assert forall|k: int| 0 <= k < 2 + len implies #[trigger] tail[k] == b[i + k] by {
        assert((piece + rest)[k] == piece[k]);
    }
    assert(tail[0] == b[i] && tail[1] == b[i + 1]);
    assert(skip_fill(o, p) == p);
    if m == 0xDA {
        return;
    }
    assert(len >= 2);
    assert(tail[2] == b[i + 2] && tail[3] == b[i + 3]);
    assert(u16_at(o, p + 2, false) == len);
    let np = p + 2 + len;
    assert(o.subrange(np, o.len() as int) =~= rest) by {
        assert forall|k: int| 0 <= k < rest.len() implies o.subrange(np, o.len() as int)[k] == rest[k] by {
            assert(tail[2 + len + k] == o[np + k]);
            assert((piece + rest)[2 + len + k] == rest[k]);
        }
    }
    lemma_jpeg_walk_stripped(o, np, b, se);
    let w = jpeg_segs_from(o, p);
    let w2 = jpeg_segs_from(o, np);
    assert(w == seq![(m, p + 4, np)] + w2);
    assert forall|k: int| 0 <= k < w.len() implies (#[trigger] w[k]).0 != 0xE1 by {
        if k > 0 {
            assert(w[k] == w2[k - 1]);
        }
    }
}

/// Dropping the APPn segments of a JPEG whose header is plain (see
/// `plain_jpeg_header_from`) leaves no EXIF block for extraction to find.
pub proof fn lemma_jpeg_strip_leaves_no_exif(b: Seq<u8>)
    requires
        spec_is_jpeg(b),
        plain_jpeg_header_from(b, 2),
    ensures
        spec_extract_exif_tiff(spec_strip_jpeg_app(b)) is None,
{
    let out = spec_strip_jpeg_app(b);
    let rest = strip_app_from(b, 2);
    assert(out == b.subrange(0, 2) + rest);
    assert(out[0] == b[0] && out[1] == b[1]);
    assert(out.subrange(2, out.len() as int) =~= rest);
    lemma_jpeg_walk_stripped(out, 2, b, 2);
    lemma_no_app1(out, jpeg_segs(out), 0);
}

proof fn lemma_strip_app_len(b: Seq<u8>, i: int)
    requires
        0 <= i,
    ensures
        strip_app_from(b, i).len() <= if i <= b.len() {
            b.len() - i
        } else {
            0
        },
    decreases b.len() - i,
{
    if i + 3 < b.len() && b[i] == 0xFF {
        let m = b[i + 1];
        if 0xD0 <= m && m <= 0xD9 {
            lemma_strip_app_len(b, i + 2);
        } else {
            let se = i + 2 + u16_at(b, i + 2, false) as int;
            if se <= b.len() {
                lemma_strip_app_len(b, se);
            }
        }
    }
}

/// Dropping APPn segments never makes a file longer.
pub proof fn lemma_strip_jpeg_app_never_grows(b: Seq<u8>)
    ensures
        spec_strip_jpeg_app(b).len() <= b.len(),
{
    if b.len() >= 2 {
        lemma_strip_app_len(b, 2);
    }
}

/// The strip's walk depends only on the bytes from where it stands.
proof fn lemma_strip_app_suffix(o: Seq<u8>, p: int, b: Seq<u8>, i: int)
    requires
        0 <= p <= o.len(),
        0 <= i <= b.len(),
        o.subrange(p, o.len() as int) == b.subrange(i, b.len() as int),
    ensures
        strip_app_from(o, p) == strip_app_from(b, i),
    decreases b.len() - i,
{
    let t = b.subrange(i, b.len() as int);
    let u = o.subrange(p, o.len() as int);
    assert(u.len() == o.len() - p);
    assert(t.len() == b.len() - i);
    assert forall|k: int| 0 <= k < t.len() implies #[trigger] o[p + k] == b[i + k] by {
        assert(u[k] == t[k]);
        assert(u[k] == o[p + k]);
        assert(t[k] == b[i + k]);
    }
    if i < b.len() && i + 3 < b.len() && b[i] == 0xFF {
        assert(o[p + 0] == b[i + 0] && o[p + 1] == b[i + 1] && o[p + 2] == b[i + 2] && o[p + 3] == b[i + 3]);
        let m = b[i + 1];
        if 0xD0 <= m && m <= 0xD9 {
            assert(o.subrange(p + 2, o.len() as int) =~= b.subrange(i + 2, b.len() as int)) by {
                assert forall|k: int| 0 <= k < b.len() - i - 2 implies #[trigger] o.subrange(p + 2, o.len() as int)[k]
                    == b.subrange(i + 2, b.len() as int)[k] by {
                    assert(o[p + (2 + k)] == b[i + (2 + k)]);
                }
            }
            lemma_strip_app_suffix(o, p + 2, b, i + 2);
            assert(o.subrange(p, p + 2) =~= b.subrange(i, i + 2));
        } else {
            let len = u16_at(b, i + 2, false) as int;
            assert(u16_at(o, p + 2, false) == len);
            let se = i + 2 + len;
            if se > b.len() {
                assert(o.subrange(p, o.len() as int) =~= b.subrange(i, b.len() as int));
            } else {
                assert(o.subrange(p + 2 + len, o.len() as int) =~= b.subrange(se, b.len() as int)) by {
                    assert forall|k: int| 0 <= k < b.len() - se implies #[trigger] o.subrange(p + 2 + len, o.len() as int)[k]
                        == b.subrange(se, b.len() as int)[k] by {
                        assert(o[p + (2 + len + k)] == b[i + (2 + len + k)]);
                    }
                }
                lemma_strip_app_suffix(o, p + 2 + len, b, se);
                assert(o.subrange(p, p + 2 + len) =~= b.subrange(i, se)) by {
                    assert forall|k: int| 0 <= k < 2 + len implies #[trigger] o.subrange(p, p + 2 + len)[k]
                        == b.subrange(i, se)[k] by {
                        assert(o[p + k] == b[i + k]);
                    }
                }
            }
        }
    } else if i < b.len() {
        assert(o[p + 0] == b[i + 0]);
    }
}

/// The strip, run again on its own output from the matching position,
/// gives the same bytes.
proof fn lemma_strip_app_again(o: Seq<u8>, p: int, b: Seq<u8>, i: int)
    requires
        0 <= p <= o.len(),
        0 <= i,
        o.subrange(p, o.len() as int) == strip_app_from(b, i),
    ensures
        strip_app_from(o, p) == strip_app_from(b, i),
    decreases b.len() - i,
{
    let tail = o.subrange(p, o.len() as int);
    if i >= b.len() {
        assert(tail.len() == 0);
        return;
    }
    if !(i + 3 < b.len()) || b[i] != 0xFF {
        assert(tail =~= b.subrange(i, b.len() as int));
        assert(tail[0] == b[i]);
        assert(strip_app_from(o, p) =~= tail);
        return;
    }
    let m = b[i + 1];
    if 0xD0 <= m && m <= 0xD9 {
        let rest = strip_app_from(b, i + 2);
        assert(tail == b.subrange(i, i + 2) + rest);
        assert(tail[0] == b[i] && tail[1] == b[i + 1]);
        if tail.len() < 4 {
            assert(strip_app_from(o, p) =~= tail);
            return;
        }
        assert(o.subrange(p + 2, o.len() as int) =~= rest) by {
            assert forall|k: int| 0 <= k < rest.len() implies o.subrange(p + 2, o.len() as int)[k] == rest[k] by {
                assert(tail[2 + k] == o[p + 2 + k]);
            }
        }
        lemma_strip_app_again(o, p + 2, b, i + 2);
        assert(o.subrange(p, p + 2) =~= b.subrange(i, i + 2)) by {
            assert(tail[0] == o[p] && tail[1] == o[p + 1]);
        }
        return;
    }
    let len = u16_at(b, i + 2, false) as int;
    let se = i + 2 + len;
    if se > b.len() {
        assert(tail =~= b.subrange(i, b.len() as int));
        assert(tail[0] == b[i] && tail[1] == b[i + 1] && tail[2] == b[i + 2] && tail[3] == b[i + 3]);
        assert(u16_at(o, p + 2, false) == len);
        assert(strip_app_from(o, p) =~= tail);
        return;
    }
    let rest = strip_app_from(b, se);
    if 0xE1 <= m && m <= 0xEF {
        assert(strip_app_from(b, i) =~= rest);
        lemma_strip_app_again(o, p, b, se);
        return;
    }
    let piece = b.subrange(i, se);
    assert(tail == piece + rest);
    if len < 2 {
        // The length field's own bytes come next: 0x00 or 0x01, so the
        // walk copies everything from there.
        assert(b[se] == 0 || b[se] == 1);
        assert(rest =~= b.subrange(se, b.len() as int));
        assert(tail =~= b.subrange(i, b.len() as int));
        lemma_strip_app_suffix(o, p, b, i);
        return;
    }
    assert forall|k: int| 0 <= k < 2 + len implies #[trigger] tail[k] == b[i + k] by {
        assert((piece + rest)[k] == piece[k]);
    }
    assert(tail[0] == b[i] && tail[1] == b[i + 1] && tail[2] == b[i + 2] && tail[3] == b[i + 3]);
    assert(u16_at(o, p + 2, false) == len);
    let np = p + 2 + len;
    assert(o.subrange(np, o.len() as int) =~= rest) by {
        assert forall|k: int| 0 <= k < rest.len() implies o.subrange(np, o.len() as int)[k] == rest[k] by {
            assert(tail[2 + len + k] == o[np + k]);
            assert((piece + rest)[2 + len + k] == rest[k]);
        }
    }
    lemma_strip_app_again(o, np, b, se);
    assert(o.subrange(p, np) =~= piece) by {
        assert forall|k: int| 0 <= k < 2 + len implies o.subrange(p, np)[k] == piece[k] by {
            assert(tail[k] == o[p + k]);
        }
    }
}

/// Dropping APPn segments a second time changes nothing.
pub proof fn lemma_strip_jpeg_app_idempotent(b: Seq<u8>)
    ensures
        spec_is_jpeg(b) ==> spec_is_jpeg(spec_strip_jpeg_app(b)),
        spec_strip_jpeg_app(spec_strip_jpeg_app(b)) == spec_strip_jpeg_app(b),
{
    if b.len() >= 2 {
        let out = spec_strip_jpeg_app(b);
        let rest = strip_app_from(b, 2);
        assert(out == b.subrange(0, 2) + rest);
        assert(out[0] == b[0] && out[1] == b[1]);
        assert(out.subrange(2, out.len() as int) =~= rest);
        lemma_strip_app_again(out, 2, b, 2);
        assert(out.subrange(0, 2) =~= b.subrange(0, 2));
    }
}

/// A buffer holding the APP1 segment of `tiff` at `p` (its length field not
/// wrapped) has that segment as the first one walked from `p`, and the
/// search finds `tiff` there.
proof fn lemma_app1_found_at(o: Seq<u8>, p: int, tiff: Seq<u8>)
    requires
        0 <= p,
        tiff.len() + 8 <= 0xFFFF,
        p + app1_segment(tiff).len() <= o.len(),
        o.subrange(p, p + app1_segment(tiff).len()) == app1_segment(tiff),
    ensures
        first_exif_app1(o, jpeg_segs_from(o, p), 0) == Some(tiff),
{
    let a = app1_segment(tiff);
    let n = a.len() as int;
    let v = ((6 + tiff.len() + 2) % 0x10000) as u16;
    assert(v == 8 + tiff.len());
    assert(n == 10 + tiff.len());
    assert(o[p] == 0xFF && o[p + 1] == 0xE1 && o[p + 2] == a[2] && o[p + 3] == a[3]) by {
        assert(o.subrange(p, p + n)[0] == o[p] && o.subrange(p, p + n)[1] == o[p + 1]);
        assert(o.subrange(p, p + n)[2] == o[p + 2] && o.subrange(p, p + n)[3] == o[p + 3]);
    }
    assert(a[2] == (v / 256) as u8 && a[3] == (v % 256) as u8);
    assert(u16_at(o, p + 2, false) == v);
    assert(skip_fill(o, p) == p);
    let segs = jpeg_segs_from(o, p);
    assert(segs[0] == (0xE1u8, p + 4, p + n));
    assert(o.subrange(p + 4, p + n) =~= exif_header() + tiff) by {
        assert forall|k: int| 0 <= k < n - 4 implies o.subrange(p + 4, p + n)[k] == (exif_header() + tiff)[k] by {
            assert(o.subrange(p, p + n)[4 + k] == o[p + 4 + k]);
            assert(a[4 + k] == (exif_header() + tiff)[k]);
        }
    }
    assert(has_at(o.subrange(p + 4, p + n), 0, exif_header())) by {
        assert((exif_header() + tiff).subrange(0, 6) =~= exif_header());
    }
    assert(o.subrange(p + 4 + 6, p + n) =~= tiff) by {
        assert forall|k: int| 0 <= k < tiff.len() implies o.subrange(p + 4 + 6, p + n)[k] == tiff[k] by {
            assert(o.subrange(p + 4, p + n)[6 + k] == (exif_header() + tiff)[6 + k]);
        }
    }
}

/// Walking the output of the graft from `p`, where `o[p..]` is what the
/// graft made of `b[i..]` before placing its segment, the first EXIF APP1
/// found is the grafted one.
proof fn lemma_graft_walk(o: Seq<u8>, p: int, b: Seq<u8>, tiff: Seq<u8>, i: int)
    requires
        0 <= p <= o.len(),
        0 <= i,
        tiff.len() + 8 <= 0xFFFF,
        graft_jpeg_from(b, app1_segment(tiff), i, false) matches Some(t) && o.subrange(p, o.len() as int) == t,
    ensures
        first_exif_app1(o, jpeg_segs_from(o, p), 0) == Some(tiff),
    decreases b.len() - i,
{
    let a = app1_segment(tiff);
    let t = graft_jpeg_from(b, a, i, false)->0;
    let tail = o.subrange(p, o.len() as int);
    if !(i + 1 < b.len()) || b[i] != 0xFF || !is_app_or_com(b[i + 1]) {
        let rest = if !(i + 1 < b.len()) || b[i] != 0xFF {
            if i < b.len() {
                b.subrange(i, b.len() as int)
            } else {
                Seq::empty()
            }
        } else {
            b.subrange(i, b.len() as int)
        };
        assert(t == a + rest);
        assert(tail.len() >= a.len());
        assert(o.subrange(p, p + a.len()) =~= a) by {
            assert forall|k: int| 0 <= k < a.len() implies o.subrange(p, p + a.len())[k] == a[k] by {
                assert(tail[k] == o[p + k]);
                assert(t[k] == a[k]);
            }
        }
        lemma_app1_found_at(o, p, tiff);
    } else {
        let len = u16_at(b, i + 2, false) as int;
        let se = i + 2 + len;
        let hit = exif_app1_at(b, i, se);
        let rest = graft_jpeg_from(b, a, se, hit)->0;
        if hit {
            assert(t == a + rest);
            assert(o.subrange(p, p + a.len()) =~= a) by {
                assert forall|k: int| 0 <= k < a.len() implies o.subrange(p, p + a.len())[k] == a[k] by {
                    assert(tail[k] == o[p + k]);
                    assert(t[k] == a[k]);
                }
            }
            lemma_app1_found_at(o, p, tiff);
        } else {
            let piece = b.subrange(i, se);
            assert(t == piece + rest);
            assert forall|k: int| 0 <= k < 2 + len implies #[trigger] tail[k] == b[i + k] by {
                assert(t[k] == piece[k]);
            }
            let m = b[i + 1];
            assert(tail[0] == b[i] && tail[1] == b[i + 1] && tail[2] == b[i + 2] && tail[3] == b[i + 3]);
            assert(o[p] == 0xFF && o[p + 1] == m);
            assert(skip_fill(o, p) == p);
            assert(u16_at(o, p + 2, false) == len);
            let np = p + 2 + len;
            assert(o.subrange(np, o.len() as int) =~= rest) by {
                assert forall|k: int| 0 <= k < rest.len() implies o.subrange(np, o.len() as int)[k] == rest[k] by {
                    assert(tail[2 + len + k] == o[np + k]);
                    assert(t[2 + len + k] == rest[k]);
                }
            }
            lemma_graft_walk(o, np, b, tiff, se);
            let segs = jpeg_segs_from(o, p);
            let segs2 = jpeg_segs_from(o, np);
            assert(segs == seq![(m, p + 4, np)] + segs2);
            assert(!(m == 0xE1 && has_at(o.subrange(p + 4, np), 0, exif_header()))) by {
                if m == 0xE1 && has_at(o.subrange(p + 4, np), 0, exif_header()) {
                    assert(o.subrange(p + 4, np).subrange(0, 6) =~= b.subrange(i + 4, i + 10)) by {
                        assert forall|k: int| 0 <= k < 6 implies #[trigger] o.subrange(p + 4, np).subrange(0, 6)[k] == b.subrange(
                            i + 4,
                            i + 10,
                        )[k] by {
                            assert(tail[4 + k] == b[i + 4 + k]);
                        }
                    }
                    assert(has_at(b, i + 4, exif_header()));
                }
            }
            lemma_first_exif_app1_shift(o, (m, p + 4, np), segs2, 0);
        }
    }
}

/// Grafting a block of at most 65527 bytes onto a JPEG: extraction then
/// finds exactly that block.
pub proof fn lemma_graft_jpeg_then_extract(b: Seq<u8>, tiff: Seq<u8>)
    requires
        tiff.len() + 8 <= 0xFFFF,
        spec_rewrite_jpeg_exif_segment(b, tiff) is Some,
    ensures
        spec_extract_exif_tiff(spec_rewrite_jpeg_exif_segment(b, tiff)->0) == Some(tiff),
{
    let out = spec_rewrite_jpeg_exif_segment(b, tiff)->0;
    let t = graft_jpeg_from(b, app1_segment(tiff), 2, false)->0;
    assert(out == b.subrange(0, 2) + t);
    assert(out[0] == 0xFF && out[1] == 0xD8);
    assert(out.subrange(2, out.len() as int) =~= t);
    lemma_graft_walk(out, 2, b, tiff, 2);
}

/// The block the scan finds lies inside its APP1 segment, whose 16-bit
/// length field bounds it.
proof fn lemma_jpeg_exif_scan_bounds(b: Seq<u8>, i: int)
    ensures
        jpeg_exif_scan(b, i) matches ExifScan::At(s, e) ==> 0 <= s <= e <= b.len() && e - s + 8 <= 0xFFFF,
    decreases b.len() - i,
{
    if !(i < 0 || i + 3 >= b.len() || b[i] != 0xFF) {
        let len = u16_at(b, i + 2, false) as int;
        let se = i + 2 + len;
        if b[i + 1] == 0xE1 {
            if !(se < i + 4 || se > b.len()) && !exif_app1_at(b, i, se) {
                lemma_jpeg_exif_scan_bounds(b, se);
            }
        } else if se <= b.len() {
            lemma_jpeg_exif_scan_bounds(b, se);
        }
    }
}

/// After the GPS strip of a JPEG, extraction finds the EXIF block the strip
/// worked on (the first EXIF APP1 its scan reaches) with the GPS pointer
/// removed; a JPEG whose scan finds none is left as it was.
pub proof fn lemma_jpeg_strip_gps_then_extract(b: Seq<u8>)
    requires
        spec_is_jpeg(b),
        jpeg_gps_input_ok(b),
        spec_jpeg_without_gps(b) is Some,
    ensures
        jpeg_exif_scan(b, 2) matches ExifScan::At(s, e) ==> spec_extract_exif_tiff(spec_jpeg_without_gps(b)->0)
            == Some(spec_strip_gps_from_tiff(b.subrange(s, e))),
        !(jpeg_exif_scan(b, 2) is At) ==> spec_jpeg_without_gps(b) == Some(b),
{
    lemma_jpeg_exif_scan_bounds(b, 2);
    if let ExifScan::At(s, e) = jpeg_exif_scan(b, 2) {
        lemma_strip_gps_len(b.subrange(s, e));
        lemma_graft_jpeg_then_extract(b, spec_strip_gps_from_tiff(b.subrange(s, e)));
    }
}


/// From `i` up to the start of scan (or the end of the image), the marker
/// segments follow one another with no fill byte, no standalone marker
/// (TEM, RSTn, a repeated SOI) and no length field below 2.
pub open spec fn segments_back_to_back(b: Seq<u8>, i: int) -> bool
    decreases b.len() - i,
{
    if i < 0 || !(i + 3 < b.len()) || b[i] != 0xFF {
        true
    } else {
        let m = b[i + 1];
        if m == 0xDA || m == 0xD9 {
            true
        } else if m == 0xFF || m == 0x01 || (0xD0 <= m && m <= 0xD8) {
            false
        } else {
            let len = u16_at(b, i + 2, false) as int;
            if i + 2 + len > b.len() {
                true
            } else {
                len >= 2 && segments_back_to_back(b, i + 2 + len)
            }
        }
    }
}

/// On back-to-back segments, the GPS strip's scan reaches the EXIF block
/// that extraction finds, whatever segments come before it.
proof fn lemma_scan_meets_extracted(b: Seq<u8>, i: int)
    requires
        2 <= i,
        segments_back_to_back(b, i),
    ensures
        first_exif_app1(b, jpeg_segs_from(b, i), 0) matches Some(t) ==> (jpeg_exif_scan(b, i) matches ExifScan::At(
            s,
            e,
        ) && 0 <= s <= e <= b.len() && b.subrange(s, e) == t),
    decreases b.len() - i,
{
    let segs = jpeg_segs_from(b, i);
    if i >= b.len() || b[i] != 0xFF {
        return;
    }
    if !(i + 3 < b.len()) {
        lemma_short_walk_no_app1(b, i);
        lemma_no_app1(b, segs, 0);
        return;
    }
    let m = b[i + 1];
    assert(skip_fill(b, i) == i);
    if m == 0xDA || m == 0xD9 {
        return;
    }
    let len = u16_at(b, i + 2, false) as int;
    let se = i + 2 + len;
    if len < 2 || se > b.len() {
        assert(segs.len() == 0);
        return;
    }
    let rest = jpeg_segs_from(b, se);
    assert(segs == seq![(m, i + 4, se)] + rest);
    if m == 0xE1 && has_at(b.subrange(i + 4, se), 0, exif_header()) {
        assert(b.subrange(i + 4, se).subrange(0, 6) =~= b.subrange(i + 4, i + 10));
        assert(has_at(b, i + 4, exif_header()));
        assert(exif_app1_at(b, i, se));
        return;
    }
    if m == 0xE1 {
        assert(!exif_app1_at(b, i, se)) by {
            if exif_app1_at(b, i, se) {
                assert(b.subrange(i + 4, se).subrange(0, 6) =~= b.subrange(i + 4, i + 10));
            }
        }
    }
    lemma_first_exif_app1_shift(b, (m, i + 4, se), rest, 0);
    lemma_scan_meets_extracted(b, se);
}

/// Removing GPS from a JPEG removes it from the EXIF block that extraction
/// finds, whatever APPn segments come before that block's APP1: extraction
/// afterwards gives that same block with its GPS pointer removed, and (for
/// a block with at most one GPS entry, IFD0 after its header) the block has
/// no GPSInfo entry left in IFD0.  This holds when the header segments are
/// back to back (see `segments_back_to_back`).
pub proof fn lemma_jpeg_gps_strip_reaches_the_extracted_block(b: Seq<u8>)
    requires
        spec_is_jpeg(b),
        jpeg_gps_input_ok(b),
        spec_jpeg_without_gps(b) is Some,
        segments_back_to_back(b, 2),
        spec_extract_exif_tiff(b) is Some,
    ensures
        spec_extract_exif_tiff(spec_jpeg_without_gps(b)->0) == Some(
            spec_strip_gps_from_tiff(spec_extract_exif_tiff(b)->0),
        ),
        ({
            let t = spec_extract_exif_tiff(b)->0;
            at_most_one_gps_entry(t) && (ifd0_info(t) matches Some((le, ifd, count)) ==> ifd >= 8)
                ==> ifd0_entry(spec_extract_exif_tiff(spec_jpeg_without_gps(b)->0)->0, 0x8825) is None
        }),
{
    lemma_scan_meets_extracted(b, 2);
    lemma_jpeg_strip_gps_then_extract(b);
    let t = spec_extract_exif_tiff(b)->0;
    assert(gps_table_fits(t));
    if at_most_one_gps_entry(t) && (ifd0_info(t) matches Some((le, ifd, count)) ==> ifd >= 8) {
        lemma_strip_gps_removes_gps(t);
    }
}

/// From `i` up to the start of scan (or the end of the image), the marker
/// segments follow one another back to back (see `segments_back_to_back`)
/// and each of them lies whole inside the file.
pub open spec fn segments_complete(b: Seq<u8>, i: int) -> bool
    decreases b.len() - i,
{
    if i < 0 || !(i + 1 < b.len()) || b[i] != 0xFF {
        true
    } else {
        let m = b[i + 1];
        if m == 0xDA || m == 0xD9 {
            true
        } else if !(i + 3 < b.len()) || m == 0xFF || m == 0x01 || (0xD0 <= m && m <= 0xD8) {
            false
        } else {
            let len = u16_at(b, i + 2, false) as int;
            len >= 2 && i + 2 + len <= b.len() && segments_complete(b, i + 2 + len)
        }
    }
}

proof fn lemma_complete_segments(b: Seq<u8>, a: Seq<u8>, i: int, ins: bool)
    requires
        0 <= i,
        segments_complete(b, i),
    ensures
        segments_back_to_back(b, i),
        graft_jpeg_from(b, a, i, ins) is Some,
    decreases b.len() - i,
{
    if i + 1 < b.len() && b[i] == 0xFF {
        let m = b[i + 1];
        if m != 0xDA && m != 0xD9 {
            let len = u16_at(b, i + 2, false) as int;
            let se = i + 2 + len;
            lemma_complete_segments(b, a, se, ins || exif_app1_at(b, i, se));
            lemma_complete_segments(b, a, se, ins);
            lemma_complete_segments(b, a, se, true);
        }
    }
}

/// Removing GPS from a JPEG whose header segments are complete (see
/// `segments_complete`), and whose EXIF block the strip accepts, succeeds.
pub proof fn lemma_jpeg_gps_strip_succeeds(b: Seq<u8>)
    requires
        spec_is_jpeg(b),
        segments_complete(b, 2),
    ensures
        spec_jpeg_without_gps(b) is Some,
        segments_back_to_back(b, 2),
{
    let a = match jpeg_exif_scan(b, 2) {
        ExifScan::At(s, e) => app1_segment(spec_strip_gps_from_tiff(b.subrange(s, e))),
        _ => Seq::empty(),
    };
    lemma_complete_segments(b, a, 2, false);
}

} // verus!
