//! In-place edits of a TIFF/EXIF block: removing the GPS pointer, resetting
//! the orientation, marking the colour space uncalibrated, and clearing
//! descriptive metadata entries along the IFD chain.
use vstd::prelude::*;
use crate::bytes::{
    extend_range, lemma_read_after_write16, put16, put32, rd16, rd32, read_u16, read_u32, to_vec, write_u16,
    write_u32,
};
use crate::error::BatImgError;
use crate::exif::container::{is_tiff, spec_is_tiff};
use crate::exif::heic::{zeroed, zeros};
use crate::exif::tiff::{
    contains_u64, entry_at, find_entry, find_ifd_entry, ifd0_entry, lemma_find_entry_bounds, tiff_byte_order,
    tiff_order, u64_seq,
};
use crate::bytes::{u16_at, u32_at, zero_range};

verus! {

/// Byte order, IFD0 offset and IFD0 entry count of a TIFF block of at least
/// eight bytes.
pub open spec fn ifd0_info(b: Seq<u8>) -> Option<(bool, int, int)> {
    if b.len() < 8 {
        None
    } else {
        match tiff_order(b) {
            None => None,
            Some(le) => match rd32(b, 4, le) {
                None => None,
                Some(ifd) => match rd16(b, ifd as int, le) {
                    None => None,
                    Some(c) => Some((le, ifd as int, c as int)),
                },
            },
        }
    }
}

pub fn read_ifd0(b: &[u8]) -> (r: Option<(bool, u64, u64)>)
    ensures
        match r {
            Some((le, ifd, c)) => ifd0_info(b@) == Some((le, ifd as int, c as int)) && ifd <= u32::MAX
                && c <= u16::MAX,
            None => ifd0_info(b@) is None,
        },
{
    if b.len() < 8 {
        return None;
    }
    let le = match tiff_byte_order(b) {
        Some(le) => le,
        None => return None,
    };
    let ifd = match read_u32(b, 4, le) {
        Some(v) => v as u64,
        None => return None,
    };
    match read_u16(b, ifd, le) {
        Some(c) => Some((le, ifd, c as u64)),
        None => None,
    }
}

// ---- removing the GPS pointer -------------------------------------------------

/// When IFD0 holds a GPSInfo entry, its entry table and next-IFD pointer lie
/// inside the block (otherwise the entries cannot be shifted).
pub open spec fn gps_table_fits(b: Seq<u8>) -> bool {
    match ifd0_info(b) {
        Some((le, ifd, count)) => find_entry(b, ifd, count, le, 0x8825, 0) is Some ==> ifd + 2 + 12
            * count + 4 <= b.len(),
        None => true,
    }
}

/// The block with IFD0's first GPSInfo (0x8825) entry removed: later entries
/// and the next-IFD pointer move up by one entry, the freed 12 bytes are
/// zeroed and the entry count drops by one.  Blocks without such an entry are
/// unchanged.
pub open spec fn spec_strip_gps_from_tiff(b: Seq<u8>) -> Seq<u8> {
    match ifd0_info(b) {
        None => b,
        Some((le, ifd, count)) => match find_entry(b, ifd, count, le, 0x8825, 0) {
            None => b,
            Some(e) => {
                let end = ifd + 2 + 12 * count + 4;
                put16(
                    b.subrange(0, e) + b.subrange(e + 12, end) + zeros(12) + b.subrange(
                        end,
                        b.len() as int,
                    ),
                    ifd,
                    (count - 1) as u16,
                    le,
                )
            },
        },
    }
}

/// Strip GPS from a raw TIFF/EXIF block by removing the GPSInfo IFD pointer tag.
pub fn strip_gps_from_tiff(tiff: &[u8]) -> (r: Result<Vec<u8>, BatImgError>)
    requires
        gps_table_fits(tiff@),
    ensures
        r matches Ok(v) && v@ == spec_strip_gps_from_tiff(tiff@),
{
    let (le, ifd, count) = match read_ifd0(tiff) {
        Some(x) => x,
        None => return Ok(to_vec(tiff)),
    };
    match find_ifd_entry(tiff, ifd, count, le, 0x8825) {
        None => Ok(to_vec(tiff)),
        Some(e) => {
            assert(find_entry(tiff@, ifd as int, count as int, le, 0x8825, 0) is Some);
            assert(ifd + 2 + 12 * count + 4 <= tiff@.len());
            assert(e + 12 <= ifd + 2 + 12 * count);
            let n = tiff.len();
            assert(n as int == tiff@.len());
            let end = (ifd + 2 + 12 * count + 4) as usize;
            let e = e as usize;
            assert(end as int == ifd + 2 + 12 * count + 4);
            assert(e + 12 <= end);
            let mut out: Vec<u8> = Vec::new();
            extend_range(&mut out, tiff, 0, e);
            extend_range(&mut out, tiff, e + 12, end);
            let mut k: usize = 0;
            while k < 12
                invariant
                    k <= 12,
                    out@ == tiff@.subrange(0, e as int) + tiff@.subrange(e + 12, end as int) + zeros(
                        k as int,
                    ),
                decreases 12 - k,
            {
                out.push(0);
                k = k + 1;
                assert(out@ =~= tiff@.subrange(0, e as int) + tiff@.subrange(e + 12, end as int)
                    + zeros(k as int));
            }
            extend_range(&mut out, tiff, end, tiff.len());
            write_u16(&mut out, ifd, (count - 1) as u16, le);
            Ok(out)
        },
    }
}

/// Whether `tiff` is an input `strip_gps_from_tiff` accepts.
pub fn gps_strip_applies(tiff: &[u8]) -> (r: bool)
    ensures
        r == gps_table_fits(tiff@),
{
    match read_ifd0(tiff) {
        None => true,
        Some((le, ifd, count)) => match find_ifd_entry(tiff, ifd, count, le, 0x8825) {
            None => true,
            Some(_) => ifd + 2 + 12 * count + 4 <= tiff.len() as u64,
        },
    }
}

/// Removing the GPS entry keeps the block's length.
pub proof fn lemma_strip_gps_len(b: Seq<u8>)
    requires
        gps_table_fits(b),
    ensures
        spec_strip_gps_from_tiff(b).len() == b.len(),
{
    if let Some((le, ifd, count)) = ifd0_info(b) {
        lemma_find_entry_bounds(b, ifd, count, le, 0x8825, 0);
    }
}

/// No entry in `i..count` reads as `tag`: the search finds nothing.
pub proof fn lemma_find_entry_none(b: Seq<u8>, ifd: int, count: int, le: bool, tag: u16, i: int)
    requires
        forall|j: int| i <= j < count ==> rd16(b, #[trigger] entry_at(ifd, j), le) != Some(tag),
    ensures
        find_entry(b, ifd, count, le, tag, i) is None,
    decreases count - i,
{
    if i < count {
        lemma_find_entry_none(b, ifd, count, le, tag, i + 1);
    }
}

/// The entry found is entry `k`, the first one from `i` on with the tag.
proof fn lemma_find_entry_index(b: Seq<u8>, ifd: int, count: int, le: bool, tag: u16, i: int) -> (k: int)
    requires
        find_entry(b, ifd, count, le, tag, i) is Some,
    ensures
        i <= k < count,
        find_entry(b, ifd, count, le, tag, i) == Some(entry_at(ifd, k)),
        rd16(b, entry_at(ifd, k), le) == Some(tag),
        forall|j: int| i <= j < k ==> rd16(b, #[trigger] entry_at(ifd, j), le) != Some(tag),
    decreases count - i,
{
    if rd16(b, entry_at(ifd, i), le) == Some(tag) {
        i
    } else {
        lemma_find_entry_index(b, ifd, count, le, tag, i + 1)
    }
}

/// IFD0 holds at most one GPSInfo (0x8825) entry.
pub open spec fn at_most_one_gps_entry(b: Seq<u8>) -> bool {
    match ifd0_info(b) {
        Some((le, ifd, count)) => forall|i: int, j: int|
            0 <= i < j < count ==> !(rd16(b, #[trigger] entry_at(ifd, i), le) == Some(0x8825u16) && rd16(
                b,
                #[trigger] entry_at(ifd, j),
                le,
            ) == Some(0x8825u16)),
        None => true,
    }
}

/// Stripping GPS from a block whose IFD0 follows the 8-byte header and holds
/// at most one GPSInfo entry leaves no GPSInfo entry in IFD0 (as a reader
/// finds it), and keeps the block's length.
pub proof fn lemma_strip_gps_removes_gps(b: Seq<u8>)
    requires
        gps_table_fits(b),
        at_most_one_gps_entry(b),
        ifd0_info(b) matches Some((le, ifd, count)) ==> ifd >= 8,
    ensures
        spec_strip_gps_from_tiff(b).len() == b.len(),
        ifd0_entry(spec_strip_gps_from_tiff(b), 0x8825) is None,
{
    lemma_strip_gps_len(b);
    match ifd0_info(b) {
        None => {},
        Some((le, ifd, count)) => {
            match find_entry(b, ifd, count, le, 0x8825, 0) {
                None => {},
                Some(e) => {
                    let k = lemma_find_entry_index(b, ifd, count, le, 0x8825, 0);
                    let end = ifd + 2 + 12 * count + 4;
                    let m = b.subrange(0, e) + b.subrange(e + 12, end) + zeros(12) + b.subrange(end, b.len() as int);
                    let r = spec_strip_gps_from_tiff(b);
                    assert(m.len() == b.len());
                    assert(r == put16(m, ifd, (count - 1) as u16, le));
                    lemma_read_after_write16(m, ifd, (count - 1) as u16, le);
                    assert(forall|p: int| 0 <= p < e ==> #[trigger] m[p] == b[p]);
                    assert(forall|p: int| e <= p < end - 12 ==> #[trigger] m[p] == b[p + 12]);
                    assert(r[0] == b[0] && r[1] == b[1] && r[4] == b[4] && r[5] == b[5] && r[6] == b[6] && r[7] == b[7]);
                    assert(tiff_order(r) == tiff_order(b));
                    assert(rd32(r, 4, le) == rd32(b, 4, le));
                    assert(rd16(r, ifd, le) == Some((count - 1) as u16));
                    assert forall|j: int| 0 <= j < count - 1 implies rd16(r, #[trigger] entry_at(ifd, j), le) != Some(
                        0x8825u16,
                    ) by {
                        let p = entry_at(ifd, j);
                        if j < k {
                            assert(r[p] == b[p] && r[p + 1] == b[p + 1]);
                            assert(rd16(r, p, le) == rd16(b, p, le));
                        } else {
                            assert(r[p] == b[p + 12] && r[p + 1] == b[p + 13]);
                            assert(entry_at(ifd, j + 1) == p + 12);
                            assert(rd16(r, p, le) == rd16(b, entry_at(ifd, j + 1), le));
                            assert(rd16(b, entry_at(ifd, k), le) == Some(0x8825u16));
                        }
                    }
                    lemma_find_entry_none(r, ifd, count - 1, le, 0x8825, 0);
                    assert(tiff_order(b) == Some(le));
                },
            }
        },
    }
}

/// IFD0 starts after the eight-byte header (or the block has no IFD0).
pub open spec fn ifd0_after_header(b: Seq<u8>) -> bool {
    ifd0_info(b) matches Some((le, ifd, count)) ==> ifd >= 8
}

/// The GPS strip keeps the length and the eight-byte header of a block whose
/// IFD0 follows that header.
pub proof fn lemma_strip_gps_keeps_header(b: Seq<u8>)
    requires
        gps_table_fits(b),
        ifd0_after_header(b),
    ensures
        spec_strip_gps_from_tiff(b).len() == b.len(),
        forall|p: int| 0 <= p < 8 && p < b.len() ==> #[trigger] spec_strip_gps_from_tiff(b)[p] == b[p],
{
    lemma_strip_gps_len(b);
    if let Some((le, ifd, count)) = ifd0_info(b) {
        if let Some(e) = find_entry(b, ifd, count, le, 0x8825, 0) {
            let k = lemma_find_entry_index(b, ifd, count, le, 0x8825, 0);
            let end = ifd + 2 + 12 * count + 4;
            let m = b.subrange(0, e) + b.subrange(e + 12, end) + zeros(12) + b.subrange(end, b.len() as int);
            let r = spec_strip_gps_from_tiff(b);
            assert(r == put16(m, ifd, (count - 1) as u16, le));
            assert(e >= ifd + 2);
            assert forall|p: int| 0 <= p < 8 && p < b.len() implies #[trigger] r[p] == b[p] by {
                assert(m[p] == b[p]);
            }
        }
    }
}

/// The search finds entry `m` when it has the tag and no entry from `i`
/// before it does.
proof fn lemma_find_entry_first(b: Seq<u8>, ifd: int, count: int, le: bool, tag: u16, i: int, m: int)
    requires
        i <= m < count,
        rd16(b, entry_at(ifd, m), le) == Some(tag),
        forall|j: int| i <= j < m ==> rd16(b, #[trigger] entry_at(ifd, j), le) != Some(tag),
    ensures
        find_entry(b, ifd, count, le, tag, i) == Some(entry_at(ifd, m)),
    decreases m - i,
{
    if i < m {
        lemma_find_entry_first(b, ifd, count, le, tag, i + 1, m);
    }
}

/// When the search finds nothing, no entry from `i` on has the tag.
proof fn lemma_find_entry_absent(b: Seq<u8>, ifd: int, count: int, le: bool, tag: u16, i: int)
    requires
        find_entry(b, ifd, count, le, tag, i) is None,
    ensures
        forall|j: int| i <= j < count ==> rd16(b, #[trigger] entry_at(ifd, j), le) != Some(tag),
    decreases count - i,
{
    if i < count {
        lemma_find_entry_absent(b, ifd, count, le, tag, i + 1);
    }
}

/// Stripping GPS keeps every other IFD0 entry: an entry with any other tag
/// is found in the stripped block exactly when it is found in the input block,
/// with the same twelve bytes.
#[verifier::rlimit(80)]
#[verifier::spinoff_prover]
pub proof fn lemma_strip_gps_keeps_other_entries(b: Seq<u8>, tag: u16)
    requires
        gps_table_fits(b),
        ifd0_after_header(b),
        tag != 0x8825,
    ensures
        match (ifd0_entry(b, tag), ifd0_entry(spec_strip_gps_from_tiff(b), tag)) {
            (None, None) => true,
            (Some((e, le)), Some((e2, le2))) => le2 == le && spec_strip_gps_from_tiff(b).subrange(e2, e2 + 12)
                == b.subrange(e, e + 12),
            _ => false,
        },
{
    lemma_strip_gps_len(b);
    if let Some((le, ifd, count)) = ifd0_info(b) {
        if let Some(e) = find_entry(b, ifd, count, le, 0x8825, 0) {
            let k = lemma_find_entry_index(b, ifd, count, le, 0x8825, 0);
            let end = ifd + 2 + 12 * count + 4;
            let m = b.subrange(0, e) + b.subrange(e + 12, end) + zeros(12) + b.subrange(end, b.len() as int);
            let r = spec_strip_gps_from_tiff(b);
            assert(m.len() == b.len());
            assert(r == put16(m, ifd, (count - 1) as u16, le));
            lemma_read_after_write16(m, ifd, (count - 1) as u16, le);
            assert(forall|p: int| 0 <= p < e ==> #[trigger] m[p] == b[p]);
            assert(forall|p: int| e <= p < end - 12 ==> #[trigger] m[p] == b[p + 12]);
            assert(r[0] == b[0] && r[1] == b[1] && r[4] == b[4] && r[5] == b[5] && r[6] == b[6] && r[7] == b[7]);
            assert(tiff_order(r) == tiff_order(b));
            assert(tiff_order(b) == Some(le));
            assert(rd32(r, 4, le) == rd32(b, 4, le));
            assert(rd16(r, ifd, le) == Some((count - 1) as u16));
            match find_entry(b, ifd, count, le, tag, 0) {
                None => {
                    lemma_find_entry_absent(b, ifd, count, le, tag, 0);
                    assert forall|j: int| 0 <= j < count - 1 implies rd16(r, #[trigger] entry_at(ifd, j), le)
                        != Some(tag) by {
                        let p = entry_at(ifd, j);
                        if j < k {
                            assert(r[p] == b[p] && r[p + 1] == b[p + 1]);
                            assert(rd16(r, p, le) == rd16(b, entry_at(ifd, j), le));
                        } else {
                            assert(r[p] == b[p + 12] && r[p + 1] == b[p + 13]);
                            assert(entry_at(ifd, j + 1) == p + 12);
                            assert(rd16(r, p, le) == rd16(b, entry_at(ifd, j + 1), le));
                        }
                    }
                    lemma_find_entry_none(r, ifd, count - 1, le, tag, 0);
                },
                Some(et) => {
                    let mt = lemma_find_entry_index(b, ifd, count, le, tag, 0);
                    assert(mt != k);
                    let m2 = if mt < k {
                        mt
                    } else {
                        mt - 1
                    };
                    let src = entry_at(ifd, mt);
                    let p2 = entry_at(ifd, m2);
                    assert forall|j: int| 0 <= j < m2 implies rd16(r, #[trigger] entry_at(ifd, j), le) != Some(tag) by {
                        let p = entry_at(ifd, j);
                        if j < k {
                            assert(r[p] == b[p] && r[p + 1] == b[p + 1]);
                            assert(rd16(r, p, le) == rd16(b, entry_at(ifd, j), le));
                        } else {
                            assert(r[p] == b[p + 12] && r[p + 1] == b[p + 13]);
                            assert(entry_at(ifd, j + 1) == p + 12);
                            assert(rd16(r, p, le) == rd16(b, entry_at(ifd, j + 1), le));
                        }
                    }
                    assert forall|q: int| 0 <= q < 12 implies #[trigger] r.subrange(p2, p2 + 12)[q] == b.subrange(
                        src,
                        src + 12,
                    )[q] by {
                        if mt < k {
                            assert(r[p2 + q] == b[p2 + q]);
                        } else {
                            assert(r[p2 + q] == b[p2 + q + 12]);
                        }
                    }
                    assert(r.subrange(p2, p2 + 12) =~= b.subrange(src, src + 12));
                    assert(r[p2] == b[src] && r[p2 + 1] == b[src + 1]) by {
                        assert(r.subrange(p2, p2 + 12)[0] == b.subrange(src, src + 12)[0]);
                        assert(r.subrange(p2, p2 + 12)[1] == b.subrange(src, src + 12)[1]);
                    }
                    assert(rd16(r, p2, le) == rd16(b, src, le));
                    lemma_find_entry_first(r, ifd, count - 1, le, tag, 0, m2);
                },
            }
        }
    }
}

// ---- overwriting a SHORT / LONG value -------------------------------------------

/// Bytes per value of the field types a value can be rewritten in.
pub open spec fn value_size(typ: u16) -> Option<int> {
    if typ == 1 || typ == 2 || typ == 6 || typ == 7 {
        Some(1)
    } else if typ == 3 || typ == 8 {
        Some(2)
    } else if typ == 4 || typ == 9 || typ == 11 {
        Some(4)
    } else if typ == 5 || typ == 10 || typ == 12 {
        Some(8)
    } else {
        None
    }
}

/// Types whose value is rewritten as 32 bits (LONG, SLONG, FLOAT).
pub open spec fn wide_type(typ: u16) -> bool {
    typ == 4 || typ == 9 || typ == 11
}

/// The block with the value of the entry at `e` set to `v`: inline when the
/// value fits in the entry, else at the offset the entry holds; written as
/// 32 bits for LONG-like types and 16 bits otherwise.  A missing type reads
/// as SHORT and a missing count as 1; an unknown type leaves the block alone.
pub open spec fn set_entry_value(b: Seq<u8>, e: int, le: bool, v: u16) -> Seq<u8> {
    let typ = match rd16(b, e + 2, le) {
        Some(t) => t,
        None => 3u16,
    };
    let cnt = match rd32(b, e + 4, le) {
        Some(c) => c,
        None => 1u32,
    };
    match value_size(typ) {
        None => b,
        Some(sz) => if cnt * sz <= 4 {
            if wide_type(typ) {
                put32(b, e + 8, v as u32, le)
            } else {
                put16(b, e + 8, v, le)
            }
        } else {
            match rd32(b, e + 8, le) {
                Some(vo) => if wide_type(typ) {
                    put32(b, vo as int, v as u32, le)
                } else {
                    put16(b, vo as int, v, le)
                },
                None => b,
            }
        },
    }
}

fn write_entry_value(b: &mut Vec<u8>, e: u64, le: bool, v: u16)
    requires
        e <= u32::MAX + 2 + 12 * 0xFFFF,
    ensures
        final(b)@ == set_entry_value(old(b)@, e as int, le, v),
{
    let typ = match read_u16(b, e + 2, le) {
        Some(t) => t,
        None => 3,
    };
    let cnt = match read_u32(b, e + 4, le) {
        Some(c) => c,
        None => 1,
    };
    let sz: u64 = if typ == 1 || typ == 2 || typ == 6 || typ == 7 {
        1
    } else if typ == 3 || typ == 8 {
        2
    } else if typ == 4 || typ == 9 || typ == 11 {
        4
    } else if typ == 5 || typ == 10 || typ == 12 {
        8
    } else {
        return ;
    };
    let wide = typ == 4 || typ == 9 || typ == 11;
    assert((cnt as u64) * sz <= 0xFFFF_FFFFu64 * 8) by (nonlinear_arith)
        requires
            cnt <= 0xFFFF_FFFFu32,
            sz <= 8,
    ;
    if (cnt as u64) * sz <= 4 {
        if wide {
            write_u32(b, e + 8, v as u32, le);
        } else {
            write_u16(b, e + 8, v, le);
        }
    } else {
        match read_u32(b, e + 8, le) {
            Some(vo) => if wide {
                write_u32(b, vo as u64, v as u32, le);
            } else {
                write_u16(b, vo as u64, v, le);
            },
            None => {},
        }
    }
}

/// The block with IFD0's Orientation (0x0112) value set to 1 (top-left).
pub open spec fn spec_reset_orientation(b: Seq<u8>) -> Seq<u8> {
    match ifd0_info(b) {
        None => b,
        Some((le, ifd, count)) => match find_entry(b, ifd, count, le, 0x0112, 0) {
            None => b,
            Some(e) => set_entry_value(b, e, le, 1),
        },
    }
}

/// Reset IFD0's Orientation to 1, since the pixels have been rotated to match.
pub fn reset_orientation_in_tiff(tiff: &mut Vec<u8>)
    ensures
        final(tiff)@ == spec_reset_orientation(old(tiff)@),
{
    let (le, ifd, count) = match read_ifd0(tiff) {
        Some(x) => x,
        None => return ,
    };
    match find_ifd_entry(tiff, ifd, count, le, 0x0112) {
        Some(e) => write_entry_value(tiff, e, le, 1),
        None => {},
    }
}

/// The block with the Exif sub-IFD's ColorSpace (0xA001) set to 0xFFFF
/// (uncalibrated).  The sub-IFD is the one IFD0's first ExifOffset (0x8769)
/// entry points at.
pub open spec fn spec_set_color_space_uncalibrated(b: Seq<u8>) -> Seq<u8> {
    match ifd0_info(b) {
        None => b,
        Some((le, ifd, count)) => match find_entry(b, ifd, count, le, 0x8769, 0) {
            None => b,
            Some(e) => match rd32(b, e + 8, le) {
                None => b,
                Some(xo) => match rd16(b, xo as int, le) {
                    None => b,
                    Some(xc) => match find_entry(b, xo as int, xc as int, le, 0xA001, 0) {
                        None => b,
                        Some(e2) => set_entry_value(b, e2, le, 0xFFFF),
                    },
                },
            },
        },
    }
}

/// Sets the EXIF ColorSpace tag (0xA001) in the Exif sub-IFD to Uncalibrated (0xFFFF).
pub fn set_exif_color_space_to_uncalibrated(tiff: &mut Vec<u8>)
    ensures
        final(tiff)@ == spec_set_color_space_uncalibrated(old(tiff)@),
{
    let (le, ifd, count) = match read_ifd0(tiff) {
        Some(x) => x,
        None => return ,
    };
    let e = match find_ifd_entry(tiff, ifd, count, le, 0x8769) {
        Some(e) => e,
        None => return ,
    };
    let xo = match read_u32(tiff, e + 8, le) {
        Some(v) => v as u64,
        None => return ,
    };
    let xc = match read_u16(tiff, xo, le) {
        Some(c) => c as u64,
        None => return ,
    };
    match find_ifd_entry(tiff, xo, xc, le, 0xA001) {
        Some(e2) => write_entry_value(tiff, e2, le, 0xFFFF),
        None => {},
    }
}

// ---- clearing descriptive metadata ------------------------------------------------

/// Descriptive IFD tags (document name, description, make, model,
/// orientation, resolution, page name, software, date, artist, host,
/// white point, primaries, transfer range, XMP, copyright, ICC profile) and
/// the Exif / GPS sub-IFD pointers.
pub open spec fn is_metadata_tag(t: u16) -> bool {
    t == 0x010D || t == 0x010E || t == 0x010F || t == 0x0110 || t == 0x0112 || t == 0x011A || t
        == 0x011B || t == 0x011D || t == 0x0128 || t == 0x0131 || t == 0x0132 || t == 0x013B || t
        == 0x013C || t == 0x013E || t == 0x013F || t == 0x0156 || t == 0x02BC || t == 0x8298 || t
        == 0x8769 || t == 0x8773 || t == 0x8825
}

fn metadata_tag(t: u16) -> (r: bool)
    ensures
        r == is_metadata_tag(t),
{
    t == 0x010D || t == 0x010E || t == 0x010F || t == 0x0110 || t == 0x0112 || t == 0x011A || t
        == 0x011B || t == 0x011D || t == 0x0128 || t == 0x0131 || t == 0x0132 || t == 0x013B || t
        == 0x013C || t == 0x013E || t == 0x013F || t == 0x0156 || t == 0x02BC || t == 0x8298 || t
        == 0x8769 || t == 0x8773 || t == 0x8825
}

/// Entries `i..count` of the IFD at `ifd` whose tag is descriptive metadata
/// overwritten by twelve zero bytes (tag 0 is reserved, so readers skip it).
pub open spec fn clear_entries_from(b: Seq<u8>, ifd: int, count: int, le: bool, i: int) -> Seq<u8>
    decreases count - i,
{
    if i >= count {
        b
    } else {
        let e = entry_at(ifd, i);
        let b1 = match rd16(b, e, le) {
            Some(t) => if is_metadata_tag(t) {
                zeroed(b, e, e + 12)
            } else {
                b
            },
            None => b,
        };
        clear_entries_from(b1, ifd, count, le, i + 1)
    }
}

/// The walk along the IFD chain (`pending` a stack of IFD offsets, `visited`
/// the IFDs already cleared, `n` the block length): each IFD whose entry
/// table and next pointer fit is cleared once, then its next IFD is queued.
pub open spec fn metadata_walk(b: Seq<u8>, n: int, le: bool, pending: Seq<int>, visited: Seq<int>) -> Seq<u8>
    decreases n - visited.len(), pending.len(),
{
    if pending.len() == 0 {
        b
    } else {
        let ifd = pending.last();
        let rest = pending.drop_last();
        if visited.contains(ifd) {
            metadata_walk(b, n, le, rest, visited)
        } else {
            match rd16(b, ifd, le) {
                None => metadata_walk(b, n, le, rest, visited),
                Some(count) => {
                    let end = ifd + 2 + 12 * count + 4;
                    if end > n || visited.len() >= n {
                        metadata_walk(b, n, le, rest, visited)
                    } else {
                        let b1 = clear_entries_from(b, ifd, count as int, le, 0);
                        let next = match rd32(b1, end - 4, le) {
                            Some(v) => v as int,
                            None => 0,
                        };
                        let rest1 = if next != 0 {
                            rest.push(next)
                        } else {
                            rest
                        };
                        metadata_walk(b1, n, le, rest1, visited.push(ifd))
                    }
                },
            }
        }
    }
}

/// The TIFF with the descriptive entries of every IFD on its page chain
/// cleared; anything that is not a TIFF of at least 8 bytes is unchanged.
pub open spec fn spec_strip_tiff_metadata(b: Seq<u8>) -> Seq<u8> {
    if b.len() < 8 || !spec_is_tiff(b) {
        b
    } else {
        let le = b[0] == 0x49;
        match rd32(b, 4, le) {
            Some(first) => if first != 0 {
                metadata_walk(b, b.len() as int, le, seq![first as int], Seq::empty())
            } else {
                b
            },
            None => b,
        }
    }
}

/// `x` is `b` with some of its bytes set to zero.
pub open spec fn only_cleared(x: Seq<u8>, b: Seq<u8>) -> bool {
    x.len() == b.len() && forall|k: int| 0 <= k < b.len() ==> #[trigger] x[k] == b[k] || x[k] == 0
}

proof fn lemma_clear_entries_only_clears(b: Seq<u8>, ifd: int, count: int, le: bool, i: int)
    ensures
        only_cleared(clear_entries_from(b, ifd, count, le, i), b),
    decreases count - i,
{
    if i < count {
        let e = entry_at(ifd, i);
        let b1 = match rd16(b, e, le) {
            Some(t) => if is_metadata_tag(t) {
                zeroed(b, e, e + 12)
            } else {
                b
            },
            None => b,
        };
        lemma_clear_entries_only_clears(b1, ifd, count, le, i + 1);
        let x = clear_entries_from(b1, ifd, count, le, i + 1);
        assert forall|k: int| 0 <= k < b.len() implies #[trigger] x[k] == b[k] || x[k] == 0 by {
            assert(b1[k] == b[k] || b1[k] == 0);
            assert(x[k] == b1[k] || x[k] == 0);
        }
    }
}

proof fn lemma_walk_only_clears(b: Seq<u8>, n: int, le: bool, pending: Seq<int>, visited: Seq<int>)
    ensures
        only_cleared(metadata_walk(b, n, le, pending, visited), b),
    decreases n - visited.len(), pending.len(),
{
    if pending.len() > 0 {
        let ifd = pending.last();
        let rest = pending.drop_last();
        if visited.contains(ifd) {
            lemma_walk_only_clears(b, n, le, rest, visited);
        } else {
            match rd16(b, ifd, le) {
                None => lemma_walk_only_clears(b, n, le, rest, visited),
                Some(count) => {
                    let end = ifd + 2 + 12 * count + 4;
                    if end > n || visited.len() >= n {
                        lemma_walk_only_clears(b, n, le, rest, visited);
                    } else {
                        let b1 = clear_entries_from(b, ifd, count as int, le, 0);
                        let next = match rd32(b1, end - 4, le) {
                            Some(v) => v as int,
                            None => 0,
                        };
                        let rest1 = if next != 0 {
                            rest.push(next)
                        } else {
                            rest
                        };
                        lemma_clear_entries_only_clears(b, ifd, count as int, le, 0);
                        lemma_walk_only_clears(b1, n, le, rest1, visited.push(ifd));
                        let x = metadata_walk(b1, n, le, rest1, visited.push(ifd));
                        assert forall|k: int| 0 <= k < b.len() implies #[trigger] x[k] == b[k] || x[k] == 0 by {
                            assert(b1[k] == b[k] || b1[k] == 0);
                            assert(x[k] == b1[k] || x[k] == 0);
                        }
                    }
                },
            }
        }
    }
}

/// Clearing entries `i..count` leaves every byte outside their table alone.
proof fn lemma_clear_entries_frame(b: Seq<u8>, ifd: int, count: int, le: bool, i: int)
    ensures
        clear_entries_from(b, ifd, count, le, i).len() == b.len(),
        forall|k: int|
            0 <= k < b.len() && (k < entry_at(ifd, i) || k >= entry_at(ifd, count)) ==> #[trigger] clear_entries_from(
                b,
                ifd,
                count,
                le,
                i,
            )[k] == b[k],
    decreases count - i,
{
    if i < count {
        let e = entry_at(ifd, i);
        let b1 = match rd16(b, e, le) {
            Some(t) => if is_metadata_tag(t) {
                zeroed(b, e, e + 12)
            } else {
                b
            },
            None => b,
        };
        lemma_clear_entries_frame(b1, ifd, count, le, i + 1);
        assert(entry_at(ifd, i + 1) == e + 12);
    }
}

/// After clearing entries `i..count`, none of them reads as a metadata tag.
proof fn lemma_clear_entries_settled(b: Seq<u8>, ifd: int, count: int, le: bool, i: int)
    ensures
        forall|j: int|
            i <= j < count ==> (rd16(clear_entries_from(b, ifd, count, le, i), #[trigger] entry_at(ifd, j), le) matches Some(
                t,
            ) ==> !is_metadata_tag(t)),
    decreases count - i,
{
    if i < count {
        let e = entry_at(ifd, i);
        let b1 = match rd16(b, e, le) {
            Some(t) => if is_metadata_tag(t) {
                zeroed(b, e, e + 12)
            } else {
                b
            },
            None => b,
        };
        let x = clear_entries_from(b1, ifd, count, le, i + 1);
        lemma_clear_entries_settled(b1, ifd, count, le, i + 1);
        lemma_clear_entries_frame(b1, ifd, count, le, i + 1);
        assert(entry_at(ifd, i + 1) == e + 12);
        if 0 <= e && e + 2 <= b.len() {
            assert(x[e] == b1[e] && x[e + 1] == b1[e + 1]);
            assert(rd16(x, e, le) == rd16(b1, e, le));
        }
    }
}

/// Clearing entries none of which reads as a metadata tag changes nothing.
proof fn lemma_clear_entries_noop(x: Seq<u8>, ifd: int, count: int, le: bool, i: int)
    requires
        forall|j: int| i <= j < count ==> (rd16(x, #[trigger] entry_at(ifd, j), le) matches Some(t) ==> !is_metadata_tag(t)),
    ensures
        clear_entries_from(x, ifd, count, le, i) == x,
    decreases count - i,
{
    if i < count {
        lemma_clear_entries_noop(x, ifd, count, le, i + 1);
    }
}

/// Along the walk from this state, no clearing lands on a byte the walk
/// reads: the count of an IFD met, and the entry table and next pointer of
/// an IFD cleared, keep in the final result the values the walk read.
pub open spec fn metadata_walk_settled(b: Seq<u8>, n: int, le: bool, pending: Seq<int>, visited: Seq<int>) -> bool
    decreases n - visited.len(), pending.len(),
{
    if pending.len() == 0 {
        true
    } else {
        let ifd = pending.last();
        let rest = pending.drop_last();
        if visited.contains(ifd) {
            metadata_walk_settled(b, n, le, rest, visited)
        } else {
            match rd16(b, ifd, le) {
                None => metadata_walk_settled(b, n, le, rest, visited),
                Some(count) => {
                    let end = ifd + 2 + 12 * count + 4;
                    let fin = metadata_walk(b, n, le, pending, visited);
                    if end > n || visited.len() >= n {
                        fin.subrange(ifd, ifd + 2) == b.subrange(ifd, ifd + 2) && metadata_walk_settled(
                            b,
                            n,
                            le,
                            rest,
                            visited,
                        )
                    } else {
                        let b1 = clear_entries_from(b, ifd, count as int, le, 0);
                        let next = match rd32(b1, end - 4, le) {
                            Some(v) => v as int,
                            None => 0,
                        };
                        let rest1 = if next != 0 {
                            rest.push(next)
                        } else {
                            rest
                        };
                        fin.subrange(ifd, end) == b1.subrange(ifd, end) && metadata_walk_settled(
                            b1,
                            n,
                            le,
                            rest1,
                            visited.push(ifd),
                        )
                    }
                },
            }
        }
    }
}

/// Walking a settled walk's result again changes nothing.
proof fn lemma_metadata_walk_again(b: Seq<u8>, n: int, le: bool, pending: Seq<int>, visited: Seq<int>)
    requires
        n <= b.len(),
        metadata_walk_settled(b, n, le, pending, visited),
    ensures
        metadata_walk(metadata_walk(b, n, le, pending, visited), n, le, pending, visited) == metadata_walk(
            b,
            n,
            le,
            pending,
            visited,
        ),
    decreases n - visited.len(), pending.len(),
{
    let fin = metadata_walk(b, n, le, pending, visited);
    lemma_walk_only_clears(b, n, le, pending, visited);
    if pending.len() > 0 {
        let ifd = pending.last();
        let rest = pending.drop_last();
        if visited.contains(ifd) {
            lemma_metadata_walk_again(b, n, le, rest, visited);
        } else {
            match rd16(b, ifd, le) {
                None => {
                    lemma_metadata_walk_again(b, n, le, rest, visited);
                },
                Some(count) => {
                    let end = ifd + 2 + 12 * count + 4;
                    if end > n || visited.len() >= n {
                        assert(fin[ifd] == b[ifd] && fin[ifd + 1] == b[ifd + 1]) by {
                            assert(fin.subrange(ifd, ifd + 2)[0] == b.subrange(ifd, ifd + 2)[0]);
                            assert(fin.subrange(ifd, ifd + 2)[1] == b.subrange(ifd, ifd + 2)[1]);
                        }
                        assert(rd16(fin, ifd, le) == rd16(b, ifd, le));
                        lemma_metadata_walk_again(b, n, le, rest, visited);
                    } else {
                        let b1 = clear_entries_from(b, ifd, count as int, le, 0);
                        let next = match rd32(b1, end - 4, le) {
                            Some(v) => v as int,
                            None => 0,
                        };
                        let rest1 = if next != 0 {
                            rest.push(next)
                        } else {
                            rest
                        };
                        lemma_clear_entries_frame(b, ifd, count as int, le, 0);
                        lemma_clear_entries_settled(b, ifd, count as int, le, 0);
                        assert(fin == metadata_walk(b1, n, le, rest1, visited.push(ifd)));
                        assert(fin.len() == b.len() && b1.len() == b.len() && 0 <= ifd);
                        assert forall|k: int| ifd <= k < end implies #[trigger] fin[k] == b1[k] by {
                            assert(fin.subrange(ifd, end)[k - ifd] == b1.subrange(ifd, end)[k - ifd]);
                        }
                        assert(b1[ifd] == b[ifd] && b1[ifd + 1] == b[ifd + 1]);
                        assert(fin[ifd] == b[ifd] && fin[ifd + 1] == b[ifd + 1]);
                        assert(rd16(fin, ifd, le) == Some(count));
                        assert forall|j: int| 0 <= j < count implies (rd16(fin, #[trigger] entry_at(ifd, j), le) matches Some(
                            t,
                        ) ==> !is_metadata_tag(t)) by {
                            let e = entry_at(ifd, j);
                            assert(fin[e] == b1[e] && fin[e + 1] == b1[e + 1]);
                            assert(rd16(fin, e, le) == rd16(b1, e, le));
                        }
                        lemma_clear_entries_noop(fin, ifd, count as int, le, 0);
                        assert(fin[end - 4] == b1[end - 4] && fin[end - 3] == b1[end - 3]);
                        assert(fin[end - 2] == b1[end - 2] && fin[end - 1] == b1[end - 1]);
                        assert(rd32(fin, end - 4, le) == rd32(b1, end - 4, le));
                        lemma_metadata_walk_again(b1, n, le, rest1, visited.push(ifd));
                    }
                },
            }
        }
    }
}

/// The descriptive tags that stripping all metadata removes from every
/// IFD of the page chain: DocumentName, ImageDescription, Make, Model,
/// Orientation, XResolution, YResolution, PageName, ResolutionUnit,
/// Software, DateTime, Artist, HostComputer, WhitePoint,
/// PrimaryChromaticities, TransferRange, XMP, Copyright, and the pointers
/// that make metadata reachable: ExifOffset (0x8769), the ICC profile
/// (0x8773) and GPSInfo (0x8825).
pub open spec fn descriptive_tag(t: u16) -> bool {
    t == 0x010D || t == 0x010E || t == 0x010F || t == 0x0110 || t == 0x0112 || t == 0x011A || t == 0x011B
        || t == 0x011D || t == 0x0128 || t == 0x0131 || t == 0x0132 || t == 0x013B || t == 0x013C || t
        == 0x013E || t == 0x013F || t == 0x0156 || t == 0x02BC || t == 0x8298 || t == 0x8769 || t == 0x8773
        || t == 0x8825
}

/// The entry at `e` of `x` holds a descriptive tag.
pub open spec fn descriptive_at(x: Seq<u8>, e: int, le: bool) -> bool {
    rd16(x, e, le) matches Some(t) && descriptive_tag(t)
}

/// The IFD tables the strip walks along the page chain, as `(offset,
/// entry count)`, in the order it clears them.
pub open spec fn walk_tables(b: Seq<u8>, n: int, le: bool, pending: Seq<int>, visited: Seq<int>) -> Seq<(int, int)>
    decreases n - visited.len(), pending.len(),
{
    if pending.len() == 0 {
        Seq::empty()
    } else {
        let ifd = pending.last();
        let rest = pending.drop_last();
        if visited.contains(ifd) {
            walk_tables(b, n, le, rest, visited)
        } else {
            match rd16(b, ifd, le) {
                None => walk_tables(b, n, le, rest, visited),
                Some(count) => {
                    let end = ifd + 2 + 12 * count + 4;
                    if end > n || visited.len() >= n {
                        walk_tables(b, n, le, rest, visited)
                    } else {
                        let b1 = clear_entries_from(b, ifd, count as int, le, 0);
                        let next = match rd32(b1, end - 4, le) {
                            Some(v) => v as int,
                            None => 0,
                        };
                        let rest1 = if next != 0 {
                            rest.push(next)
                        } else {
                            rest
                        };
                        seq![(ifd, count as int)] + walk_tables(b1, n, le, rest1, visited.push(ifd))
                    }
                },
            }
        }
    }
}

/// The page chain's IFD tables of a TIFF as the strip walks them, IFD0
/// first.
pub open spec fn strip_tables(b: Seq<u8>) -> Seq<(int, int)> {
    if b.len() < 8 || !spec_is_tiff(b) {
        Seq::empty()
    } else {
        let le = b[0] == 0x49;
        match rd32(b, 4, le) {
            Some(first) => if first != 0 {
                walk_tables(b, b.len() as int, le, seq![first as int], Seq::empty())
            } else {
                Seq::empty()
            },
            None => Seq::empty(),
        }
    }
}

/// Zeroing bytes never makes an entry's tag descriptive: every descriptive
/// tag has two nonzero bytes.
proof fn lemma_clearing_keeps_not_descriptive(x: Seq<u8>, y: Seq<u8>, e: int, le: bool)
    requires
        only_cleared(x, y),
        !descriptive_at(y, e, le),
    ensures
        !descriptive_at(x, e, le),
{
    if 0 <= e && e + 2 <= x.len() {
        let a = x[e];
        let c = x[e + 1];
        assert(x[e] == y[e] || x[e] == 0);
        assert(x[e + 1] == y[e + 1] || x[e + 1] == 0);
        if a == 0 || c == 0 {
            let t = u16_at(x, e, le);
            assert(t < 256 || t % 256 == 0) by {
                if le {
                    assert(t == a + c * 256);
                } else {
                    assert(t == a * 256 + c);
                }
            }
        } else {
            assert(u16_at(x, e, le) == u16_at(y, e, le));
        }
    }
}

/// After the entries of an IFD are cleared, none of them holds a
/// descriptive tag.
proof fn lemma_clear_entries_no_descriptive(b: Seq<u8>, ifd: int, count: int, le: bool, i: int, j: int)
    requires
        0 <= ifd,
        0 <= i <= j < count,
    ensures
        !descriptive_at(clear_entries_from(b, ifd, count, le, i), entry_at(ifd, j), le),
    decreases count - i,
{
    let e = entry_at(ifd, i);
    let b1 = match rd16(b, e, le) {
        Some(t) => if is_metadata_tag(t) {
            zeroed(b, e, e + 12)
        } else {
            b
        },
        None => b,
    };
    let r = clear_entries_from(b, ifd, count, le, i);
    assert(r == clear_entries_from(b1, ifd, count, le, i + 1));
    if j > i {
        lemma_clear_entries_no_descriptive(b1, ifd, count, le, i + 1, j);
    } else {
        if let Some(t) = rd16(b, e, le) {
            if is_metadata_tag(t) {
                assert(b1[e] == 0 && b1[e + 1] == 0);
                assert(u16_at(b1, e, le) == 0);
            } else {
                assert(!descriptive_tag(t));
            }
        }
        assert(!descriptive_at(b1, e, le));
        lemma_clear_entries_only_clears(b1, ifd, count, le, i + 1);
        lemma_clearing_keeps_not_descriptive(r, b1, e, le);
    }
}

proof fn lemma_walk_no_descriptive(b: Seq<u8>, n: int, le: bool, pending: Seq<int>, visited: Seq<int>, k: int, i: int)
    requires
        forall|q: int| 0 <= q < pending.len() ==> 0 <= #[trigger] pending[q],
        0 <= k < walk_tables(b, n, le, pending, visited).len(),
        0 <= i < walk_tables(b, n, le, pending, visited)[k].1,
    ensures
        !descriptive_at(
            metadata_walk(b, n, le, pending, visited),
            entry_at(walk_tables(b, n, le, pending, visited)[k].0, i),
            le,
        ),
    decreases n - visited.len(), pending.len(),
{
    let ifd = pending.last();
    let rest = pending.drop_last();
    assert(forall|q: int| 0 <= q < rest.len() ==> 0 <= #[trigger] rest[q]) by {
        assert forall|q: int| 0 <= q < rest.len() implies 0 <= #[trigger] rest[q] by {
            assert(rest[q] == pending[q]);
        }
    }
    if visited.contains(ifd) {
        lemma_walk_no_descriptive(b, n, le, rest, visited, k, i);
    } else {
        match rd16(b, ifd, le) {
            None => lemma_walk_no_descriptive(b, n, le, rest, visited, k, i),
            Some(count) => {
                let end = ifd + 2 + 12 * count + 4;
                if end > n || visited.len() >= n {
                    lemma_walk_no_descriptive(b, n, le, rest, visited, k, i);
                } else {
                    let b1 = clear_entries_from(b, ifd, count as int, le, 0);
                    let next = match rd32(b1, end - 4, le) {
                        Some(v) => v as int,
                        None => 0,
                    };
                    let rest1 = if next != 0 {
                        rest.push(next)
                    } else {
                        rest
                    };
                    assert(forall|q: int| 0 <= q < rest1.len() ==> 0 <= #[trigger] rest1[q]) by {
                        assert forall|q: int| 0 <= q < rest1.len() implies 0 <= #[trigger] rest1[q] by {
                            if q < rest.len() {
                                assert(rest1[q] == rest[q]);
                            }
                        }
                    }
                    let tail = walk_tables(b1, n, le, rest1, visited.push(ifd));
                    assert(walk_tables(b, n, le, pending, visited) == seq![(ifd, count as int)] + tail);
                    if k == 0 {
                        assert(0 <= ifd) by {
                            assert(pending[pending.len() - 1] == ifd);
                        }
                        lemma_clear_entries_no_descriptive(b, ifd, count as int, le, 0, i);
                        lemma_walk_only_clears(b1, n, le, rest1, visited.push(ifd));
                        lemma_clearing_keeps_not_descriptive(
                            metadata_walk(b1, n, le, rest1, visited.push(ifd)),
                            b1,
                            entry_at(ifd, i),
                            le,
                        );
                    } else {
                        assert(walk_tables(b, n, le, pending, visited)[k] == tail[k - 1]);
                        lemma_walk_no_descriptive(b1, n, le, rest1, visited.push(ifd), k - 1, i);
                    }
                }
            },
        }
    }
}

/// The strip walks IFD0 first, whole, whenever its entry table and next
/// pointer lie inside the file.
pub proof fn lemma_strip_walks_ifd0(b: Seq<u8>)
    requires
        b.len() >= 8,
        spec_is_tiff(b),
        u32_at(b, 4, b[0] == 0x49) != 0,
        rd16(b, u32_at(b, 4, b[0] == 0x49) as int, b[0] == 0x49) matches Some(c) && u32_at(b, 4, b[0] == 0x49) + 2
            + 12 * c + 4 <= b.len(),
    ensures
        strip_tables(b).len() > 0,
        strip_tables(b)[0] == (
            u32_at(b, 4, b[0] == 0x49) as int,
            rd16(b, u32_at(b, 4, b[0] == 0x49) as int, b[0] == 0x49)->0 as int,
        ),
{
    let le = b[0] == 0x49;
    let first = u32_at(b, 4, le);
    let count = rd16(b, first as int, le)->0;
    let n = b.len() as int;
    let e: Seq<int> = Seq::empty();
    let pending = seq![first as int];
    assert(pending.last() == first as int);
    assert(pending.drop_last() =~= e);
    assert(!e.contains(first as int));
    let end = first + 2 + 12 * count + 4;
    let b1 = clear_entries_from(b, first as int, count as int, le, 0);
    let next = match rd32(b1, end - 4, le) {
        Some(v) => v as int,
        None => 0,
    };
    let rest1 = if next != 0 {
        e.push(next)
    } else {
        e
    };
    assert(walk_tables(b, n, le, pending, e) == seq![(first as int, count as int)] + walk_tables(
        b1,
        n,
        le,
        rest1,
        e.push(first as int),
    ));
}

/// Stripping all metadata from a TIFF leaves no descriptive tag (see
/// `descriptive_tag`: among them ExifOffset and GPSInfo, so the Exif and
/// GPS sub-IFDs become unreachable) in any entry of any IFD on its page
/// chain, IFD0 first.
pub proof fn lemma_strip_tiff_metadata_leaves_no_descriptive_tag(b: Seq<u8>, k: int, i: int)
    requires
        0 <= k < strip_tables(b).len(),
        0 <= i < strip_tables(b)[k].1,
    ensures
        !descriptive_at(spec_strip_tiff_metadata(b), entry_at(strip_tables(b)[k].0, i), b[0] == 0x49),
        strip_tables(b)[0].0 == u32_at(b, 4, b[0] == 0x49),
{
    let le = b[0] == 0x49;
    let first = rd32(b, 4, le)->0;
    let pending = seq![first as int];
    assert(pending.last() == first as int);
    assert(pending.drop_last() =~= Seq::<int>::empty());
    assert(!Seq::<int>::empty().contains(first as int));
    let n = b.len() as int;
    let e: Seq<int> = Seq::empty();
    assert(walk_tables(b, n, le, e, e).len() == 0);
    if let Some(count) = rd16(b, first as int, le) {
        let end = first + 2 + 12 * count + 4;
        if end <= n {
            let b1 = clear_entries_from(b, first as int, count as int, le, 0);
            let next = match rd32(b1, end - 4, le) {
                Some(v) => v as int,
                None => 0,
            };
            let rest1 = if next != 0 {
                e.push(next)
            } else {
                e
            };
            assert(walk_tables(b, n, le, pending, e) == seq![(first as int, count as int)] + walk_tables(
                b1,
                n,
                le,
                rest1,
                e.push(first as int),
            ));
        }
    }
    lemma_walk_no_descriptive(b, n, le, pending, e, k, i);
}

/// A TIFF whose metadata walk is settled (see `metadata_walk_settled`) and
/// whose 8-byte header no clearing lands on.
pub open spec fn tiff_strip_settled(b: Seq<u8>) -> bool {
    b.len() >= 8 && spec_is_tiff(b) ==> {
        let le = b[0] == 0x49;
        spec_strip_tiff_metadata(b).subrange(0, 8) == b.subrange(0, 8) && match rd32(b, 4, le) {
            Some(first) => first != 0 ==> metadata_walk_settled(b, b.len() as int, le, seq![first as int], Seq::empty()),
            None => true,
        }
    }
}

/// Stripping a TIFF's metadata a second time changes nothing, when its walk
/// is settled (no clearing lands on a count, entry table, next pointer or
/// header byte that the walk reads).
pub proof fn lemma_strip_tiff_metadata_idempotent(b: Seq<u8>)
    requires
        tiff_strip_settled(b),
    ensures
        spec_strip_tiff_metadata(spec_strip_tiff_metadata(b)) == spec_strip_tiff_metadata(b),
{
    let out = spec_strip_tiff_metadata(b);
    lemma_strip_tiff_metadata_only_clears(b);
    if b.len() >= 8 && spec_is_tiff(b) {
        let le = b[0] == 0x49;
        assert forall|k: int| 0 <= k < 8 implies out[k] == b[k] by {
            assert(out.subrange(0, 8)[k] == b.subrange(0, 8)[k]);
        }
        assert(spec_is_tiff(out));
        assert(rd32(out, 4, le) == rd32(b, 4, le));
        if let Some(first) = rd32(b, 4, le) {
            if first != 0 {
                lemma_metadata_walk_again(b, b.len() as int, le, seq![first as int], Seq::empty());
            }
        }
    }
}

/// Stripping a TIFF's metadata only ever zeroes bytes: the length and every
/// byte it does not clear (pixel data among them) stay as they were, and
/// anything that is not a TIFF passes through unchanged.
pub proof fn lemma_strip_tiff_metadata_only_clears(b: Seq<u8>)
    ensures
        only_cleared(spec_strip_tiff_metadata(b), b),
        !spec_is_tiff(b) ==> spec_strip_tiff_metadata(b) == b,
{
    if b.len() >= 8 && spec_is_tiff(b) {
        let le = b[0] == 0x49;
        if let Some(first) = rd32(b, 4, le) {
            if first != 0 {
                lemma_walk_only_clears(b, b.len() as int, le, seq![first as int], Seq::empty());
            }
        }
    }
}

/// Distinct offsets below `n` number at most `n`.
pub proof fn lemma_distinct_below(v: Seq<int>, n: int)
    requires
        0 <= n,
        v.no_duplicates(),
        forall|k: int| 0 <= k < v.len() ==> 0 <= #[trigger] v[k] < n,
    ensures
        v.len() <= n,
{
    v.unique_seq_to_set();
    vstd::set_lib::lemma_int_range(0, n);
    assert(v.to_set().subset_of(vstd::set_lib::set_int_range(0, n)));
    vstd::set_lib::lemma_len_subset(v.to_set(), vstd::set_lib::set_int_range(0, n));
}

/// Remove EXIF/descriptive metadata from a TIFF without rewriting pixel data.
///
/// Pixel data is referenced by offsets from IFD entries, so the metadata
/// entries are cleared in place; every pixel offset and the compression
/// details stay as they were.  The Exif/GPS pointers are cleared too, which
/// makes their sub-IFDs unreachable.
pub fn strip_tiff_metadata(tiff: &[u8]) -> (r: Result<Vec<u8>, BatImgError>)
    ensures
        r matches Ok(v) && v@ == spec_strip_tiff_metadata(tiff@),
{
    let mut out = to_vec(tiff);
    let n = tiff.len();
    if n < 8 || !is_tiff(tiff) {
        return Ok(out);
    }
    let le = tiff[0] == 0x49;
    let first = match read_u32(tiff, 4, le) {
        Some(v) => v,
        None => return Ok(out),
    };
    if first == 0 {
        return Ok(out);
    }
    let ghost target = metadata_walk(tiff@, n as int, le, seq![first as int], Seq::empty());
    let mut pending: Vec<u64> = Vec::new();
    pending.push(first as u64);
    let mut visited: Vec<u64> = Vec::new();
    assert(u64_seq(pending@) =~= seq![first as int]);
    assert(u64_seq(visited@) =~= Seq::<int>::empty());
    loop
        invariant
            out@.len() == n,
            metadata_walk(out@, n as int, le, u64_seq(pending@), u64_seq(visited@)) == target,
            u64_seq(visited@).no_duplicates(),
            forall|k: int| 0 <= k < visited@.len() ==> #[trigger] visited@[k] < n,
            forall|k: int| 0 <= k < pending@.len() ==> #[trigger] pending@[k] <= u32::MAX,
        ensures
            out@ == target,
        decreases n - visited@.len(), pending@.len(),
    {
        let ghost p0 = u64_seq(pending@);
        let ghost v0 = u64_seq(visited@);
        proof {
            assert forall|k: int| 0 <= k < v0.len() implies 0 <= #[trigger] v0[k] < n by {
                assert(v0[k] == visited@[k] as int);
            }
            lemma_distinct_below(v0, n as int);
        }
        let ifd = match pending.pop() {
            Some(x) => x,
            None => {
                assert(u64_seq(pending@).len() == 0);
                break;
            },
        };
        assert(u64_seq(pending@) =~= p0.drop_last());
        if contains_u64(&visited, ifd) {
            continue;
        }
        let count = match read_u16(&out, ifd, le) {
            Some(c) => c as u64,
            None => continue,
        };
        let end = ifd + 2 + 12 * count + 4;
        if end > n as u64 {
            continue;
        }
        proof {
            let v1 = v0.push(ifd as int);
            assert(v1.no_duplicates()) by {
                assert forall|i: int, j: int| 0 <= i < v1.len() && 0 <= j < v1.len() && i != j implies v1[i]
                    != v1[j] by {
                    if i == v0.len() as int {
                        assert(v0.contains(v1[j]) ==> v1[i] != v1[j]);
                        assert(v0[j] == v1[j]);
                    } else if j == v0.len() as int {
                        assert(v0[i] == v1[i]);
                    }
                }
            }
            assert forall|k: int| 0 <= k < v1.len() implies 0 <= #[trigger] v1[k] < n by {
                if k < v0.len() {
                    assert(v1[k] == v0[k]);
                }
            }
            lemma_distinct_below(v1, n as int);
        }
        let ghost before = out@;
        let mut index: u64 = 0;
        while index < count
            invariant
                index <= count,
                count <= u16::MAX,
                ifd + 2 + 12 * count + 4 <= n,
                out@.len() == n,
                clear_entries_from(before, ifd as int, count as int, le, 0) == clear_entries_from(
                    out@,
                    ifd as int,
                    count as int,
                    le,
                    index as int,
                ),
            decreases count - index,
        {
            let entry = ifd + 2 + 12 * index;
            match read_u16(&out, entry, le) {
                Some(t) => if metadata_tag(t) {
                    let ghost cur = out@;
                    zero_range(&mut out, entry as usize, (entry + 12) as usize);
                    assert(out@ =~= zeroed(cur, entry as int, entry + 12));
                },
                None => {},
            }
            index = index + 1;
        }
        let next = match read_u32(&out, end - 4, le) {
            Some(v) => v as u64,
            None => 0,
        };
        visited.push(ifd);
        assert(u64_seq(visited@) =~= v0.push(ifd as int));
        if next != 0 {
            let ghost pb = u64_seq(pending@);
            pending.push(next);
            assert(u64_seq(pending@) =~= pb.push(next as int));
        }
    }
    Ok(out)
}

} // verus!
