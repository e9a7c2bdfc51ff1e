//! A self-contained, metadata-only copy of a TIFF: IFD0 without the
//! pixel-layout tags (and, for grayscale output, without the colour-model
//! tags), the Exif/GPS/Interop sub-IFDs copied recursively, out-of-line
//! values re-homed next to their IFDs.
use vstd::prelude::*;
use crate::bytes::{
    extend_range, lemma_read_after_write16, lemma_read_after_write32, overwrite, put16, put32, rd16, rd32, read_u16,
    read_u32, to_vec, u16_at, u32_at, write_u16, write_u32,
};
use crate::exif::container::{is_tiff, spec_is_tiff};
use crate::exif::heic::zeros;
use crate::exif::tiff::{entry_at, ifd0_entry, tiff_order};
use super::tiff_edit::lemma_find_entry_none;
use super::tiff_graft::{all_entries, etag, ev, pad_even};

verus! {

/// IFD0 tags that describe how the source image's pixels are stored
/// (dimensions, bit depth, compression, strip/tile layout, sample format,
/// JPEG-in-TIFF and YCbCr parameters, sub-image pointers).  The encoded
/// output already carries its own values for all of them.
pub open spec fn is_structure_tag(t: u16) -> bool {
    (0x00FE <= t <= 0x00FF) || (0x0100 <= t <= 0x0103) || (0x0106 <= t <= 0x010A) || t == 0x0111 || (
    0x0115 <= t <= 0x0119) || t == 0x011C || (0x0120 <= t <= 0x0125) || t == 0x013D || (0x0140 <= t
        <= 0x0148) || t == 0x014A || (0x014C <= t <= 0x0150) || (0x0152 <= t <= 0x0156) || (0x0200
        <= t <= 0x0209) || (0x0211 <= t <= 0x0214)
}

pub fn is_tiff_structure_tag(t: u16) -> (r: bool)
    ensures
        r == is_structure_tag(t),
{
    (0x00FE <= t && t <= 0x00FF) || (0x0100 <= t && t <= 0x0103) || (0x0106 <= t && t <= 0x010A) || t
        == 0x0111 || (0x0115 <= t && t <= 0x0119) || t == 0x011C || (0x0120 <= t && t <= 0x0125) || t
        == 0x013D || (0x0140 <= t && t <= 0x0148) || t == 0x014A || (0x014C <= t && t <= 0x0150) || (
    0x0152 <= t && t <= 0x0156) || (0x0200 <= t && t <= 0x0209) || (0x0211 <= t && t <= 0x0214)
}

/// IFD0 tags that describe the source's colour model (TransferFunction,
/// WhitePoint, PrimaryChromaticities, ICC profile); they never fit a
/// single-channel image.
pub open spec fn is_colour_tag(t: u16) -> bool {
    t == 0x012D || t == 0x013E || t == 0x013F || t == 0x8773
}

pub fn is_tiff_colour_description_tag(t: u16) -> (r: bool)
    ensures
        r == is_colour_tag(t),
{
    t == 0x012D || t == 0x013E || t == 0x013F || t == 0x8773
}

/// Sub-IFD pointers that are followed: ExifOffset, GPSInfo, Interop.
pub open spec fn is_sub_ifd_pointer(t: u16) -> bool {
    t == 0x8769 || t == 0x8825 || t == 0xA005
}

/// Bytes per value (no entry for type 13).
pub open spec fn copy_type_size(typ: u16) -> int {
    if typ == 1 || typ == 2 || typ == 6 || typ == 7 {
        1
    } else if typ == 3 || typ == 8 {
        2
    } else if typ == 4 || typ == 9 || typ == 11 {
        4
    } else if typ == 5 || typ == 10 || typ == 12 {
        8
    } else {
        0
    }
}

fn type_size(typ: u16) -> (r: u64)
    ensures
        r == copy_type_size(typ),
{
    if typ == 1 || typ == 2 || typ == 6 || typ == 7 {
        1
    } else if typ == 3 || typ == 8 {
        2
    } else if typ == 4 || typ == 9 || typ == 11 {
        4
    } else if typ == 5 || typ == 10 || typ == 12 {
        8
    } else {
        0
    }
}

/// Byte size of the value of a 12-byte entry.
pub open spec fn entry_total(e: Seq<u8>, le: bool) -> int {
    u32_at(e, 4, le) * copy_type_size(u16_at(e, 2, le))
}

/// Whether an entry is copied: layout (and, for grayscale, colour-model)
/// tags are dropped in IFD0, and an inline sub-IFD pointer only survives
/// when it leads to a readable IFD (at offset 8 or later, entry table inside
/// the file).
pub open spec fn keep_entry(src: Seq<u8>, e: Seq<u8>, le: bool, depth: int, gray: bool) -> bool {
    let tag = etag(e, le);
    if depth == 0 && (is_structure_tag(tag) || (gray && is_colour_tag(tag))) {
        false
    } else if is_sub_ifd_pointer(tag) && entry_total(e, le) <= 4 {
        let sub_off = u32_at(e, 8, le) as int;
        match rd16(src, sub_off, le) {
            Some(sc) => sub_off >= 8 && sub_off + 2 + 12 * sc <= src.len(),
            None => false,
        }
    } else {
        true
    }
}

/// The kept entries among the first `n` entries of the IFD at `off`; `None`
/// when one of them does not lie inside `src`.
pub open spec fn kept_upto(src: Seq<u8>, off: int, le: bool, depth: int, gray: bool, n: int) -> Option<Seq<Seq<u8>>>
    decreases n,
{
    if n <= 0 {
        Some(Seq::empty())
    } else {
        match kept_upto(src, off, le, depth, gray, n - 1) {
            None => None,
            Some(r) => {
                let eo = off + 2 + 12 * (n - 1);
                if !(0 <= eo && eo + 12 <= src.len()) {
                    None
                } else {
                    let e = src.subrange(eo, eo + 12);
                    if keep_entry(src, e, le, depth, gray) {
                        Some(r.push(e))
                    } else {
                        Some(r)
                    }
                }
            },
        }
    }
}

/// `b` with `s` written over it at `at`.
pub open spec fn splice(b: Seq<u8>, at: int, s: Seq<u8>) -> Seq<u8> {
    b.subrange(0, at) + s + b.subrange(at + s.len(), b.len() as int)
}

/// Copy the IFD at `off` of `src` (nesting `depth`) to the end of `out`:
/// the even-padded output gets a zeroed IFD of the kept entries, whose
/// entries are then filled in by `fill_entries`.  The result is the new
/// output and the new IFD's offset; `None` below depth 16, for an unreadable
/// count, or for an entry outside `src`.
pub open spec fn copy_ifd(src: Seq<u8>, off: int, le: bool, out: Seq<u8>, depth: int, gray: bool) -> Option<(Seq<u8>, int)>
    decreases 17 - depth, 1int, 0int,
{
    if depth > 16 || depth < 0 {
        None
    } else {
        match rd16(src, off, le) {
            None => None,
            Some(count) => match kept_upto(src, off, le, depth, gray, count as int) {
                None => None,
                Some(kept) => {
                    let p = pad_even(out);
                    let no = p.len() as int;
                    let out1 = put16(p + zeros(2 + 12 * kept.len() as int + 4), no, (kept.len() % 0x10000) as u16, le);
                    Some((fill_entries(src, le, out1, kept, 0, no, depth, gray), no))
                },
            },
        }
    }
}

/// Entries `i..` of `kept` written into the IFD at `no`: tag, type and
/// count verbatim; an inline sub-IFD pointer is replaced by the offset of
/// the recursively copied sub-IFD (kept verbatim when that copy fails); an
/// out-of-line value is appended (even-padded; zeros when it lies outside
/// `src`) and pointed at; other inline values are copied verbatim.
pub open spec fn fill_entries(src: Seq<u8>, le: bool, out: Seq<u8>, kept: Seq<Seq<u8>>, i: int, no: int, depth: int, gray: bool) -> Seq<u8>
    decreases 17 - depth, 0int, kept.len() - i,
{
    if depth > 16 || depth < 0 || i < 0 || i >= kept.len() {
        out
    } else {
        let e = kept[i];
        let eo = no + 2 + 12 * i;
        let out1 = splice(out, eo, e.subrange(0, 8));
        let total = entry_total(e, le);
        if is_sub_ifd_pointer(etag(e, le)) && total <= 4 {
            match copy_ifd(src, u32_at(e, 8, le) as int, le, out1, depth + 1, gray) {
                Some((out2, ns)) => fill_entries(src, le, put32(out2, eo + 8, (ns % 0x1_0000_0000) as u32, le), kept, i + 1, no, depth, gray),
                None => fill_entries(src, le, splice(out1, eo + 8, e.subrange(8, 12)), kept, i + 1, no, depth, gray),
            }
        } else if total > 4 {
            let vo = u32_at(e, 8, le) as int;
            let value = if vo + total <= src.len() {
                src.subrange(vo, vo + total)
            } else {
                zeros(total)
            };
            let p = pad_even(out1);
            fill_entries(src, le, put32(p + value, eo + 8, (p.len() % 0x1_0000_0000) as u32, le), kept, i + 1, no, depth, gray)
        } else {
            fill_entries(src, le, splice(out1, eo + 8, e.subrange(8, 12)), kept, i + 1, no, depth, gray)
        }
    }
}

fn entry_tag(e: &Vec<u8>, le: bool) -> (r: u16)
    requires
        e@.len() == 12,
    ensures
        r == etag(e@, le),
{
    read_u16(e, 0, le).unwrap()
}

fn entry_value_total(e: &Vec<u8>, le: bool) -> (r: u64)
    requires
        e@.len() == 12,
    ensures
        r == entry_total(e@, le),
        r <= 0xFFFF_FFFF * 8,
{
    let typ = read_u16(e, 2, le).unwrap();
    let cnt = read_u32(e, 4, le).unwrap() as u64;
    let sz = type_size(typ);
    assert(cnt * sz <= 0xFFFF_FFFFu64 * 8) by (nonlinear_arith)
        requires
            cnt <= 0xFFFF_FFFFu64,
            sz <= 8,
    ;
    cnt * sz
}

fn keep(src: &[u8], e: &Vec<u8>, le: bool, depth: u64, gray: bool) -> (r: bool)
    requires
        e@.len() == 12,
    ensures
        r == keep_entry(src@, e@, le, depth as int, gray),
{
    let tag = entry_tag(e, le);
    if depth == 0 && (is_tiff_structure_tag(tag) || (gray && is_tiff_colour_description_tag(tag))) {
        return false;
    }
    if (tag == 0x8769 || tag == 0x8825 || tag == 0xA005) && entry_value_total(e, le) <= 4 {
        let sub_off = read_u32(e, 8, le).unwrap() as u64;
        match read_u16(src, sub_off, le) {
            Some(sc) => sub_off >= 8 && sub_off + 2 + 12 * (sc as u64) <= src.len() as u64,
            None => false,
        }
    } else {
        true
    }
}

fn collect_kept(src: &[u8], off: u64, count: u64, le: bool, depth: u64, gray: bool) -> (r: Option<Vec<Vec<u8>>>)
    requires
        off <= u32::MAX,
        count <= u16::MAX,
    ensures
        match r {
            Some(v) => kept_upto(src@, off as int, le, depth as int, gray, count as int) == Some(ev(v@))
                && all_entries(ev(v@)) && v@.len() <= count,
            None => kept_upto(src@, off as int, le, depth as int, gray, count as int) is None,
        },
{
    let mut out: Vec<Vec<u8>> = Vec::new();
    let mut i: u64 = 0;
    while i < count
        invariant
            off <= u32::MAX,
            count <= u16::MAX,
            i <= count,
            kept_upto(src@, off as int, le, depth as int, gray, i as int) == Some(ev(out@)),
            all_entries(ev(out@)),
            out@.len() <= i,
        decreases count - i,
    {
        let eo = off + 2 + 12 * i;
        if eo > src.len() as u64 || src.len() as u64 - eo < 12 {
            assert(kept_upto(src@, off as int, le, depth as int, gray, i + 1) is None);
            proof {
                lemma_kept_none_stays(src@, off as int, le, depth as int, gray, i + 1, count as int);
            }
            return None;
        }
        let mut e: Vec<u8> = Vec::new();
        extend_range(&mut e, src, eo as usize, (eo + 12) as usize);
        if keep(src, &e, le, depth, gray) {
            let ghost before = ev(out@);
            out.push(e);
            assert(ev(out@) =~= before.push(src@.subrange(eo as int, eo + 12)));
        }
        i = i + 1;
    }
    Some(out)
}

proof fn lemma_kept_none_stays(src: Seq<u8>, off: int, le: bool, depth: int, gray: bool, n: int, m: int)
    requires
        kept_upto(src, off, le, depth, gray, n) is None,
        n <= m,
    ensures
        kept_upto(src, off, le, depth, gray, m) is None,
    decreases m - n,
{
    if n < m {
        lemma_kept_none_stays(src, off, le, depth, gray, n, m - 1);
    }
}

/// Append `n` zero bytes.
fn push_zeros(out: &mut Vec<u8>, n: u64)
    ensures
        final(out)@ == old(out)@ + zeros(n as int),
{
    let mut k: u64 = 0;
    while k < n
        invariant
            k <= n,
            out@ == old(out)@ + zeros(k as int),
        decreases n - k,
    {
        out.push(0);
        k = k + 1;
        assert(out@ =~= old(out)@ + zeros(k as int));
    }
}

fn pad_to_even(out: &mut Vec<u8>)
    ensures
        final(out)@ == pad_even(old(out)@),
{
    if out.len() % 2 == 1 {
        out.push(0);
    }
}

#[verifier::rlimit(60)]
/// Copy the IFD at `off` of `src` and, recursively, its sub-IFDs to the end
/// of `out` (see `copy_ifd`); the new IFD's offset, or `None` with `out`
/// untouched.
fn copy_tiff_ifd_metadata(src: &[u8], off: u64, le: bool, out: &mut Vec<u8>, depth: u64, gray: bool) -> (r: Option<u64>)
    requires
        off <= u32::MAX,
        depth <= 17,
    ensures
        match r {
            Some(no) => copy_ifd(src@, off as int, le, old(out)@, depth as int, gray) == Some((final(out)@, no as int)),
            None => copy_ifd(src@, off as int, le, old(out)@, depth as int, gray) is None && final(out)@ == old(out)@,
        },
        final(out)@.len() >= old(out)@.len(),
    decreases 17 - depth,
{
    if depth > 16 {
        return None;
    }
    let count = match read_u16(src, off, le) {
        Some(c) => c as u64,
        None => return None,
    };
    let kept = match collect_kept(src, off, count, le, depth, gray) {
        Some(k) => k,
        None => return None,
    };
    let ghost ks = ev(kept@);
    assert(ks.len() <= 0xFFFF);
    pad_to_even(out);
    let no = out.len();
    push_zeros(out, 2 + 12 * (kept.len() as u64) + 4);
    write_u16(out, no as u64, (kept.len() % 0x10000) as u16, le);
    let ghost out1 = out@;
    let mut i: usize = 0;
    while i < kept.len()
        invariant
            ks == ev(kept@),
            all_entries(ks),
            depth <= 16,
            i <= ks.len(),
            out@.len() >= no + 2 + 12 * ks.len() + 4,
            out@.len() >= old(out)@.len(),
            fill_entries(src@, le, out1, ks, 0, no as int, depth as int, gray) == fill_entries(
                src@,
                le,
                out@,
                ks,
                i as int,
                no as int,
                depth as int,
                gray,
            ),
        decreases kept.len() - i,
    {
        let e = &kept[i];
        assert(e@ == ks[i as int]);
        assert(out@.len() == out.len());
        let eo = no + 2 + 12 * i;
        overwrite(out, eo, &e.as_slice()[0..8]);
        let total = entry_value_total(e, le);
        let tag = entry_tag(e, le);
        if (tag == 0x8769 || tag == 0x8825 || tag == 0xA005) && total <= 4 {
            let sub_off = read_u32(e, 8, le).unwrap() as u64;
            match copy_tiff_ifd_metadata(src, sub_off, le, out, depth + 1, gray) {
                Some(ns) => write_u32(out, (eo + 8) as u64, (ns % 0x1_0000_0000) as u32, le),
                None => overwrite(out, eo + 8, &e.as_slice()[8..12]),
            }
        } else if total > 4 {
            let vo = read_u32(e, 8, le).unwrap() as u64;
            pad_to_even(out);
            let no2 = out.len();
            if vo + total <= src.len() as u64 {
                extend_range(out, src, vo as usize, (vo + total) as usize);
            } else {
                push_zeros(out, total);
            }
            write_u32(out, (eo + 8) as u64, (no2 as u64 % 0x1_0000_0000) as u32, le);
        } else {
            overwrite(out, eo + 8, &e.as_slice()[8..12]);
        }
        i = i + 1;
    }
    Some(no as u64)
}

/// A metadata-only TIFF built from `source`: its header, then IFD0 and its
/// sub-IFDs as `copy_ifd` copies them, with the header pointing at the new
/// IFD0.  `source` itself when it is not a TIFF of at least eight bytes or
/// IFD0 cannot be copied.
pub open spec fn spec_tiff_metadata_only(source: Seq<u8>, gray: bool) -> Seq<u8> {
    if !spec_is_tiff(source) || source.len() < 8 {
        source
    } else {
        let le = source[0] == 0x49;
        let ifd0 = u32_at(source, 4, le) as int;
        match copy_ifd(source, ifd0, le, source.subrange(0, 4) + zeros(4), 0, gray) {
            Some((out, no)) => put32(out, 4, (no % 0x1_0000_0000) as u32, le),
            None => source,
        }
    }
}

/// Build a self-contained metadata-only TIFF from `source`, dropping all
/// pixel-layout tags and the strips they reference.  Sub-IFDs (ExifOffset,
/// GPSInfo, Interop) are copied recursively, so EXIF values survive.  With
/// `is_grayscale` the source's colour-model description is dropped as well.
pub fn extract_tiff_metadata_only(source: &[u8], is_grayscale: bool) -> (r: Vec<u8>)
    ensures
        r@ == spec_tiff_metadata_only(source@, is_grayscale),
{
    if !is_tiff(source) || source.len() < 8 {
        return to_vec(source);
    }
    let le = source[0] == 0x49;
    let ifd0 = read_u32(source, 4, le).unwrap() as u64;
    let mut out: Vec<u8> = Vec::new();
    extend_range(&mut out, source, 0, 4);
    push_zeros(&mut out, 4);
    match copy_tiff_ifd_metadata(source, ifd0, le, &mut out, 0, is_grayscale) {
        Some(no) => {
            write_u32(&mut out, 4, (no % 0x1_0000_0000) as u32, le);
            out
        },
        None => to_vec(source),
    }
}

proof fn lemma_kept_upto_entries(src: Seq<u8>, off: int, le: bool, depth: int, gray: bool, n: int)
    ensures
        kept_upto(src, off, le, depth, gray, n) matches Some(r) ==> all_entries(r) && r.len() <= if n >= 0 {
            n
        } else {
            0
        } && forall|j: int| 0 <= j < r.len() ==> keep_entry(src, #[trigger] r[j], le, depth, gray),
    decreases n,
{
    if n > 0 {
        lemma_kept_upto_entries(src, off, le, depth, gray, n - 1);
    }
}

/// Filling the entries `i..` of the IFD at `no` writes the first eight
/// bytes (tag, type, count) of each of them, keeps the first eight bytes of
/// the entries before `i`, keeps every byte below `lim` (at most the start
/// of the entry table), and never shortens the output.
proof fn lemma_fill_entries_frame(
    src: Seq<u8>,
    le: bool,
    out: Seq<u8>,
    kept: Seq<Seq<u8>>,
    i: int,
    no: int,
    depth: int,
    gray: bool,
    lim: int,
)
    requires
        0 <= i,
        0 <= no,
        0 <= depth <= 16,
        lim <= no + 2,
        all_entries(kept),
        no + 2 + 12 * kept.len() + 4 <= out.len(),
    ensures
        fill_entries(src, le, out, kept, i, no, depth, gray).len() >= out.len(),
        forall|k: int| 0 <= k < lim ==> #[trigger] fill_entries(src, le, out, kept, i, no, depth, gray)[k] == out[k],
        forall|j: int|
            0 <= j < kept.len() ==> fill_entries(src, le, out, kept, i, no, depth, gray).subrange(
                #[trigger] entry_at(no, j),
                entry_at(no, j) + 8,
            ) == if j >= i {
                kept[j].subrange(0, 8)
            } else {
                out.subrange(entry_at(no, j), entry_at(no, j) + 8)
            },
    decreases 17 - depth, 0int, kept.len() - i,
{
    if i < kept.len() {
        let e = kept[i];
        let eo = no + 2 + 12 * i;
        assert(eo == entry_at(no, i));
        let out1 = splice(out, eo, e.subrange(0, 8));
        assert(e.len() == 12);
        assert(out1.len() == out.len());
        let total = entry_total(e, le);
        let nxt = if is_sub_ifd_pointer(etag(e, le)) && total <= 4 {
            match copy_ifd(src, u32_at(e, 8, le) as int, le, out1, depth + 1, gray) {
                Some((out2, ns)) => put32(out2, eo + 8, (ns % 0x1_0000_0000) as u32, le),
                None => splice(out1, eo + 8, e.subrange(8, 12)),
            }
        } else if total > 4 {
            let vo = u32_at(e, 8, le) as int;
            let value = if vo + total <= src.len() {
                src.subrange(vo, vo + total)
            } else {
                zeros(total)
            };
            let p = pad_even(out1);
            put32(p + value, eo + 8, (p.len() % 0x1_0000_0000) as u32, le)
        } else {
            splice(out1, eo + 8, e.subrange(8, 12))
        };
        assert(fill_entries(src, le, out, kept, i, no, depth, gray) == fill_entries(src, le, nxt, kept, i + 1, no, depth, gray));
        // `nxt` agrees with `out1` below `eo + 8` and is at least as long.
        if is_sub_ifd_pointer(etag(e, le)) && total <= 4 {
            lemma_copy_ifd_prefix(src, u32_at(e, 8, le) as int, le, out1, depth + 1, gray);
            if let Some((out2, ns)) = copy_ifd(src, u32_at(e, 8, le) as int, le, out1, depth + 1, gray) {
                lemma_read_after_write32(out2, eo + 8, (ns % 0x1_0000_0000) as u32, le);
            }
        } else if total > 4 {
            let vo = u32_at(e, 8, le) as int;
            let value = if vo + total <= src.len() {
                src.subrange(vo, vo + total)
            } else {
                zeros(total)
            };
            let p = pad_even(out1);
            lemma_read_after_write32(p + value, eo + 8, (p.len() % 0x1_0000_0000) as u32, le);
            assert forall|k: int| 0 <= k < out1.len() implies #[trigger] (p + value)[k] == out1[k] by {}
        }
        assert(nxt.len() >= out1.len());
        assert forall|k: int| 0 <= k < eo + 8 implies #[trigger] nxt[k] == out1[k] by {}
        lemma_fill_entries_frame(src, le, nxt, kept, i + 1, no, depth, gray, lim);
        let r = fill_entries(src, le, nxt, kept, i + 1, no, depth, gray);
        assert forall|k: int| 0 <= k < lim implies #[trigger] r[k] == out[k] by {
            assert(nxt[k] == out1[k]);
        }
        assert forall|j: int| 0 <= j < kept.len() implies r.subrange(#[trigger] entry_at(no, j), entry_at(no, j) + 8)
            == if j >= i {
            kept[j].subrange(0, 8)
        } else {
            out.subrange(entry_at(no, j), entry_at(no, j) + 8)
        } by {
            let ej = entry_at(no, j);
            if j <= i {
                assert(r.subrange(ej, ej + 8) == nxt.subrange(ej, ej + 8));
                assert(nxt.subrange(ej, ej + 8) =~= out1.subrange(ej, ej + 8)) by {
                    assert forall|t: int| 0 <= t < 8 implies #[trigger] nxt.subrange(ej, ej + 8)[t] == out1.subrange(ej, ej + 8)[t] by {
                        assert(nxt[ej + t] == out1[ej + t]);
                    }
                }
                if j == i {
                    assert(out1.subrange(ej, ej + 8) =~= e.subrange(0, 8));
                } else {
                    assert(out1.subrange(ej, ej + 8) =~= out.subrange(ej, ej + 8));
                }
            }
        }
    }
}

/// Copying an IFD only appends to the output: its new IFD starts at or
/// after the old end, and every byte already there stays.
proof fn lemma_copy_ifd_prefix(src: Seq<u8>, off: int, le: bool, out: Seq<u8>, depth: int, gray: bool)
    ensures
        copy_ifd(src, off, le, out, depth, gray) matches Some((out2, no)) ==> out.len() <= no && no + 2 <= out2.len()
            && out2.len() >= out.len() && forall|k: int| 0 <= k < out.len() ==> #[trigger] out2[k] == out[k],
    decreases 17 - depth, 1int, 0int,
{
    if !(depth > 16 || depth < 0) {
        if let Some(count) = rd16(src, off, le) {
            lemma_kept_upto_entries(src, off, le, depth, gray, count as int);
            if let Some(kept) = kept_upto(src, off, le, depth, gray, count as int) {
                let p = pad_even(out);
                let no = p.len() as int;
                let z = p + zeros(2 + 12 * kept.len() as int + 4);
                let out1 = put16(z, no, (kept.len() % 0x10000) as u16, le);
                lemma_read_after_write16(z, no, (kept.len() % 0x10000) as u16, le);
                lemma_fill_entries_frame(src, le, out1, kept, 0, no, depth, gray, out.len() as int);
                let r = fill_entries(src, le, out1, kept, 0, no, depth, gray);
                assert forall|k: int| 0 <= k < out.len() implies #[trigger] r[k] == out[k] by {
                    assert(out1[k] == z[k]);
                    assert(z[k] == p[k]);
                }
            }
        }
    }
}

/// The source is a TIFF whose IFD0 the metadata-only copy could copy.
pub open spec fn metadata_copy_made(src: Seq<u8>, gray: bool) -> bool {
    spec_is_tiff(src) && src.len() >= 8 && copy_ifd(
        src,
        u32_at(src, 4, src[0] == 0x49) as int,
        src[0] == 0x49,
        src.subrange(0, 4) + zeros(4),
        0,
        gray,
    ) is Some
}

/// The IFD0 that the metadata-only copy writes: at offset 8, holding the
/// kept entries' tags, types and counts, every kept entry one that
/// `keep_entry` keeps at the top level.
#[verifier::rlimit(40)]
proof fn lemma_copied_ifd0(src: Seq<u8>, gray: bool) -> (kept: Seq<Seq<u8>>)
    requires
        metadata_copy_made(src, gray),
    ensures
        ({
            let le = src[0] == 0x49;
            let (out, no) = copy_ifd(src, u32_at(src, 4, le) as int, le, src.subrange(0, 4) + zeros(4), 0, gray)->0;
            &&& no == 8
            &&& out.len() >= 10 + 12 * kept.len()
            &&& out[0] == src[0] && out[1] == src[1]
            &&& rd16(out, 8, le) == Some(kept.len() as u16)
            &&& kept.len() <= u16::MAX
            &&& forall|j: int|
                0 <= j < kept.len() ==> out.subrange(#[trigger] entry_at(8, j), entry_at(8, j) + 8) == kept[j].subrange(
                    0,
                    8,
                ) && keep_entry(src, kept[j], le, 0, gray) && kept[j].len() == 12
        }),
{
    let le = src[0] == 0x49;
    let base = src.subrange(0, 4) + zeros(4);
    let off = u32_at(src, 4, le) as int;
    let (out, no) = copy_ifd(src, off, le, base, 0, gray)->0;
    let count = rd16(src, off, le)->0;
    let kept = kept_upto(src, off, le, 0, gray, count as int)->0;
    lemma_kept_upto_entries(src, off, le, 0, gray, count as int);
    assert(pad_even(base) == base);
    let z = base + zeros(2 + 12 * kept.len() as int + 4);
    let k16 = (kept.len() % 0x10000) as u16;
    assert(k16 == kept.len());
    let out1 = put16(z, 8, k16, le);
    lemma_read_after_write16(z, 8, k16, le);
    assert(out == fill_entries(src, le, out1, kept, 0, 8, 0, gray));
    lemma_fill_entries_frame(src, le, out1, kept, 0, 8, 0, gray, 10);
    assert(out[0] == out1[0] && out[1] == out1[1] && out[8] == out1[8] && out[9] == out1[9]);
    assert(out1[0] == z[0] && out1[1] == z[1]);
    assert(rd16(out, 8, le) == rd16(out1, 8, le));
    kept
}

/// The metadata-only copy of a TIFF keeps no pixel-layout entry in IFD0,
/// nor, for grayscale output, a colour-model entry: a reader finds none.
/// When no copy can be made, the source comes back unchanged.
#[verifier::rlimit(40)]
pub proof fn lemma_metadata_only_drops_layout_tags(src: Seq<u8>, gray: bool, tag: u16)
    requires
        is_structure_tag(tag) || (gray && is_colour_tag(tag)),
    ensures
        metadata_copy_made(src, gray) ==> ifd0_entry(spec_tiff_metadata_only(src, gray), tag) is None,
        !metadata_copy_made(src, gray) ==> spec_tiff_metadata_only(src, gray) == src,
{
    if metadata_copy_made(src, gray) {
        let le = src[0] == 0x49;
        let kept = lemma_copied_ifd0(src, gray);
        let (out, no) = copy_ifd(src, u32_at(src, 4, le) as int, le, src.subrange(0, 4) + zeros(4), 0, gray)->0;
        let res = spec_tiff_metadata_only(src, gray);
        assert(res == put32(out, 4, 8u32, le));
        lemma_read_after_write32(out, 4, 8u32, le);
        assert(tiff_order(res) == Some(le));
        assert(rd32(res, 4, le) == Some(8u32));
        assert(res[8] == out[8] && res[9] == out[9]);
        assert(rd16(res, 8, le) == Some(kept.len() as u16));
        assert forall|j: int| 0 <= j < kept.len() implies rd16(res, #[trigger] entry_at(8, j), le) != Some(tag) by {
            let ej = entry_at(8, j);
            assert(out.subrange(ej, ej + 8) == kept[j].subrange(0, 8));
            assert(res[ej] == out[ej] && res[ej + 1] == out[ej + 1]);
            assert(out.subrange(ej, ej + 8)[0] == kept[j][0] && out.subrange(ej, ej + 8)[1] == kept[j][1]);
            assert(rd16(res, ej, le) == Some(etag(kept[j], le)));
        }
        lemma_find_entry_none(res, 8, kept.len() as int, le, tag, 0);
    }
}

} // verus!
