//! TIFF structure: byte order, IFD entry lookup and the extent of a TIFF
//! block embedded in a larger file.
use vstd::prelude::*;
use crate::bytes::{rd16, rd32, read_u16, read_u32};
use super::container::{is_tiff, spec_is_tiff};

verus! {

/// The byte order announced by the first two bytes (`II` little endian,
/// `MM` big endian).
pub open spec fn tiff_order(b: Seq<u8>) -> Option<bool> {
    if b.len() >= 2 && b[0] == 0x49 && b[1] == 0x49 {
        Some(true)
    } else if b.len() >= 2 && b[0] == 0x4D && b[1] == 0x4D {
        Some(false)
    } else {
        None
    }
}

pub fn tiff_byte_order(b: &[u8]) -> (r: Option<bool>)
    ensures
        r == tiff_order(b@),
{
    if b.len() >= 2 && b[0] == 0x49 && b[1] == 0x49 {
        Some(true)
    } else if b.len() >= 2 && b[0] == 0x4D && b[1] == 0x4D {
        Some(false)
    } else {
        None
    }
}

/// Offset of entry `i` of the IFD at `ifd`.
pub open spec fn entry_at(ifd: int, i: int) -> int {
    ifd + 2 + i * 12
}

/// The first entry in `i..count` of the IFD at `ifd` whose tag reads as `tag`.
pub open spec fn find_entry(b: Seq<u8>, ifd: int, count: int, le: bool, tag: u16, i: int) -> Option<int>
    decreases count - i,
{
    if i >= count {
        None
    } else if rd16(b, entry_at(ifd, i), le) == Some(tag) {
        Some(entry_at(ifd, i))
    } else {
        find_entry(b, ifd, count, le, tag, i + 1)
    }
}

/// The offset of the first IFD0 entry with tag `tag`, with the byte order.
pub open spec fn ifd0_entry(b: Seq<u8>, tag: u16) -> Option<(int, bool)> {
    match tiff_order(b) {
        None => None,
        Some(le) => match rd32(b, 4, le) {
            None => None,
            Some(ifd) => match rd16(b, ifd as int, le) {
                None => None,
                Some(count) => match find_entry(b, ifd as int, count as int, le, tag, 0) {
                    None => None,
                    Some(e) => Some((e, le)),
                },
            },
        },
    }
}

/// The inline SHORT value of `tag` in IFD0.
pub open spec fn spec_read_short_tag(b: Seq<u8>, tag: u16) -> Option<u16> {
    match ifd0_entry(b, tag) {
        None => None,
        Some((e, le)) => rd16(b, e + 8, le),
    }
}

/// Find the first entry with tag `tag` among entries `0..count` of the IFD
/// at `ifd`.
pub fn find_ifd_entry(b: &[u8], ifd: u64, count: u64, le: bool, tag: u16) -> (r: Option<u64>)
    requires
        ifd <= u32::MAX,
        count <= u16::MAX,
    ensures
        match r {
            Some(e) => find_entry(b@, ifd as int, count as int, le, tag, 0) == Some(e as int)
                && ifd + 2 <= e && e + 12 <= ifd + 2 + 12 * count,
            None => find_entry(b@, ifd as int, count as int, le, tag, 0) is None,
        },
{
    let mut i: u64 = 0;
    while i < count
        invariant
            ifd <= u32::MAX,
            count <= u16::MAX,
            i <= count,
            find_entry(b@, ifd as int, count as int, le, tag, 0) == find_entry(
                b@,
                ifd as int,
                count as int,
                le,
                tag,
                i as int,
            ),
        decreases count - i,
    {
        let e = ifd + 2 + i * 12;
        if read_u16(b, e, le) == Some(tag) {
            return Some(e);
        }
        i = i + 1;
    }
    None
}

/// An entry found by `find_entry` is one of the `count` entries of the IFD.
pub proof fn lemma_find_entry_bounds(b: Seq<u8>, ifd: int, count: int, le: bool, tag: u16, i: int)
    requires
        0 <= i,
    ensures
        find_entry(b, ifd, count, le, tag, i) matches Some(e) ==> ifd + 2 + 12 * i <= e && e + 12 <= ifd
            + 2 + 12 * count && rd16(b, e, le) == Some(tag),
    decreases count - i,
{
    if i < count && rd16(b, entry_at(ifd, i), le) != Some(tag) {
        lemma_find_entry_bounds(b, ifd, count, le, tag, i + 1);
    }
}

/// Read the inline SHORT value of `target_tag` from IFD0 of a TIFF block.
pub fn read_short_tag_from_tiff(tiff: &[u8], target_tag: u16) -> (r: Option<u16>)
    ensures
        r == spec_read_short_tag(tiff@, target_tag),
{
    let le = match tiff_byte_order(tiff) {
        Some(le) => le,
        None => return None,
    };
    let ifd = match read_u32(tiff, 4, le) {
        Some(v) => v as u64,
        None => return None,
    };
    let count = match read_u16(tiff, ifd, le) {
        Some(c) => c as u64,
        None => return None,
    };
    match find_ifd_entry(tiff, ifd, count, le, target_tag) {
        Some(e) => read_u16(tiff, e + 8, le),
        None => None,
    }
}

/// Bytes per value of a TIFF field type (0 for an unknown type).
pub open spec fn spec_type_size(typ: u16) -> int {
    if typ == 1 || typ == 2 || typ == 6 || typ == 7 {
        1
    } else if typ == 3 || typ == 8 {
        2
    } else if typ == 4 || typ == 9 || typ == 11 || typ == 13 {
        4
    } else if typ == 5 || typ == 10 || typ == 12 {
        8
    } else {
        0
    }
}

pub fn tiff_type_size(typ: u16) -> (r: usize)
    ensures
        r == spec_type_size(typ),
{
    match typ {
        1 | 2 | 6 | 7 => 1,
        3 | 8 => 2,
        4 | 9 | 11 | 13 => 4,
        5 | 10 | 12 => 8,
        _ => 0,
    }
}

// ---- extent of an embedded TIFF block --------------------------------------

/// At most this many IFDs are visited when measuring a TIFF block.
pub open spec fn max_ifds() -> int {
    64
}

/// What scanning entries `i..count` of one IFD contributes: the running end,
/// the IFD offsets still to visit, and the thumbnail offset and length.
pub open spec fn ifd_scan(
    b: Seq<u8>,
    ifd: int,
    count: int,
    le: bool,
    i: int,
    acc: (int, Seq<int>, int, int),
) -> (int, Seq<int>, int, int)
    decreases count - i,
{
    if i >= count {
        acc
    } else {
        let e = entry_at(ifd, i);
        match (rd16(b, e, le), rd16(b, e + 2, le), rd32(b, e + 4, le), rd32(b, e + 8, le)) {
            (Some(tag), Some(typ), Some(n), Some(value)) => {
                let size = n * spec_type_size(typ);
                let end1 = if size > 4 && value + size > acc.0 {
                    value + size
                } else {
                    acc.0
                };
                let pending1 = if tag == 0x8769 || tag == 0x8825 || tag == 0xA005 {
                    acc.1.push(value as int)
                } else {
                    acc.1
                };
                let th_off = if tag == 0x0201 {
                    value as int
                } else {
                    acc.2
                };
                let th_len = if tag == 0x0202 {
                    value as int
                } else {
                    acc.3
                };
                ifd_scan(b, ifd, count, le, i + 1, (end1, pending1, th_off, th_len))
            },
            _ => acc,
        }
    }
}

/// The walk over reachable IFDs: `pending` is a stack of IFD offsets, `seen`
/// the IFDs already measured, `end` the furthest byte found so far.
pub open spec fn extent_walk(b: Seq<u8>, le: bool, pending: Seq<int>, seen: Seq<int>, end: int) -> int
    decreases max_ifds() - seen.len(), pending.len(),
{
    if pending.len() == 0 || seen.len() > max_ifds() {
        end
    } else {
        let ifd = pending.last();
        let rest = pending.drop_last();
        if ifd < 8 || seen.contains(ifd) || seen.len() >= max_ifds() {
            extent_walk(b, le, rest, seen, end)
        } else {
            let seen1 = seen.push(ifd);
            match rd16(b, ifd, le) {
                None => extent_walk(b, le, rest, seen1, end),
                Some(count) => {
                    let table_end = ifd + 2 + count * 12 + 4;
                    let end1 = if table_end > end {
                        table_end
                    } else {
                        end
                    };
                    let scan = ifd_scan(b, ifd, count as int, le, 0, (end1, rest, 0, 0));
                    let end2 = if scan.2 > 0 && scan.3 > 0 && scan.2 + scan.3 > scan.0 {
                        scan.2 + scan.3
                    } else {
                        scan.0
                    };
                    let pending2 = match rd32(b, ifd + 2 + count * 12, le) {
                        Some(next) => scan.1.push(next as int),
                        None => scan.1,
                    };
                    extent_walk(b, le, pending2, seen1, end2)
                },
            }
        }
    }
}

/// Length of the TIFF structure that starts at `b[0]`: header, every IFD
/// reachable from it (next-IFD links and Exif/GPS/Interop sub-IFDs, at most
/// 64 of them) and every out-of-line value or thumbnail they reference,
/// clamped to `b.len()`.
pub open spec fn spec_tiff_extent(b: Seq<u8>) -> Option<int> {
    if !spec_is_tiff(b) {
        None
    } else {
        let le = b[0] == 0x49;
        match rd32(b, 4, le) {
            None => None,
            Some(first) => {
                let end = extent_walk(b, le, seq![first as int], Seq::empty(), 8);
                Some(
                    if end < b.len() {
                        end
                    } else {
                        b.len() as int
                    },
                )
            },
        }
    }
}

proof fn lemma_ifd_scan_grows(b: Seq<u8>, ifd: int, count: int, le: bool, i: int, acc: (int, Seq<int>, int, int))
    ensures
        ifd_scan(b, ifd, count, le, i, acc).0 >= acc.0,
    decreases count - i,
{
    if i < count {
        let e = entry_at(ifd, i);
        match (rd16(b, e, le), rd16(b, e + 2, le), rd32(b, e + 4, le), rd32(b, e + 8, le)) {
            (Some(tag), Some(typ), Some(n), Some(value)) => {
                let size = n * spec_type_size(typ);
                let end1 = if size > 4 && value + size > acc.0 {
                    value + size
                } else {
                    acc.0
                };
                let pending1 = if tag == 0x8769 || tag == 0x8825 || tag == 0xA005 {
                    acc.1.push(value as int)
                } else {
                    acc.1
                };
                let th_off = if tag == 0x0201 {
                    value as int
                } else {
                    acc.2
                };
                let th_len = if tag == 0x0202 {
                    value as int
                } else {
                    acc.3
                };
                lemma_ifd_scan_grows(b, ifd, count, le, i + 1, (end1, pending1, th_off, th_len));
            },
            _ => {},
        }
    }
}

proof fn lemma_extent_walk_grows(b: Seq<u8>, le: bool, pending: Seq<int>, seen: Seq<int>, end: int)
    ensures
        extent_walk(b, le, pending, seen, end) >= end,
    decreases max_ifds() - seen.len(), pending.len(),
{
    if pending.len() != 0 && seen.len() <= max_ifds() {
        let ifd = pending.last();
        let rest = pending.drop_last();
        if ifd < 8 || seen.contains(ifd) || seen.len() >= max_ifds() {
            lemma_extent_walk_grows(b, le, rest, seen, end);
        } else {
            let seen1 = seen.push(ifd);
            match rd16(b, ifd, le) {
                None => lemma_extent_walk_grows(b, le, rest, seen1, end),
                Some(count) => {
                    let table_end = ifd + 2 + count * 12 + 4;
                    let end1 = if table_end > end {
                        table_end
                    } else {
                        end
                    };
                    let scan = ifd_scan(b, ifd, count as int, le, 0, (end1, rest, 0, 0));
                    lemma_ifd_scan_grows(b, ifd, count as int, le, 0, (end1, rest, 0, 0));
                    let end2 = if scan.2 > 0 && scan.3 > 0 && scan.2 + scan.3 > scan.0 {
                        scan.2 + scan.3
                    } else {
                        scan.0
                    };
                    let pending2 = match rd32(b, ifd + 2 + count * 12, le) {
                        Some(next) => scan.1.push(next as int),
                        None => scan.1,
                    };
                    lemma_extent_walk_grows(b, le, pending2, seen1, end2);
                },
            }
        }
    }
}

/// The extent of a TIFF block lies between its 8-byte header and the end of
/// the buffer.
pub proof fn lemma_tiff_extent_le(b: Seq<u8>)
    ensures
        spec_tiff_extent(b) matches Some(n) ==> 8 <= n <= b.len(),
{
    if spec_is_tiff(b) {
        let le = b[0] == 0x49;
        if let Some(first) = rd32(b, 4, le) {
            lemma_extent_walk_grows(b, le, seq![first as int], Seq::empty(), 8);
        }
    }
}

pub open spec fn u64_seq(v: Seq<u64>) -> Seq<int> {
    v.map_values(|x: u64| x as int)
}

/// Scan the entries of one IFD (see `ifd_scan`).
fn scan_ifd(b: &[u8], ifd: u64, count: u64, le: bool, end0: u64, pending: &mut Vec<u64>) -> (r: (u64, u64, u64))
    requires
        ifd <= u32::MAX,
        count <= u16::MAX,
        end0 <= 0x10_0000_0000,
        forall|k: int| 0 <= k < old(pending)@.len() ==> #[trigger] old(pending)@[k] <= u32::MAX,
    ensures
        (r.0 as int, u64_seq(final(pending)@), r.1 as int, r.2 as int) == ifd_scan(
            b@,
            ifd as int,
            count as int,
            le,
            0,
            (end0 as int, u64_seq(old(pending)@), 0, 0),
        ),
        r.0 <= 0x10_0000_0000,
        r.1 <= u32::MAX,
        r.2 <= u32::MAX,
        forall|k: int| 0 <= k < final(pending)@.len() ==> #[trigger] final(pending)@[k] <= u32::MAX,
{
    let mut end = end0;
    let mut th_off: u64 = 0;
    let mut th_len: u64 = 0;
    let mut i: u64 = 0;
    loop
        invariant
            ifd <= u32::MAX,
            count <= u16::MAX,
            i <= count,
            end <= 0x10_0000_0000,
            th_off <= u32::MAX,
            th_len <= u32::MAX,
            forall|k: int| 0 <= k < pending@.len() ==> #[trigger] pending@[k] <= u32::MAX,
            ifd_scan(b@, ifd as int, count as int, le, 0, (end0 as int, u64_seq(old(pending)@), 0, 0))
                == ifd_scan(
                b@,
                ifd as int,
                count as int,
                le,
                i as int,
                (end as int, u64_seq(pending@), th_off as int, th_len as int),
            ),
        decreases count - i,
    {
        if i >= count {
            return (end, th_off, th_len);
        }
        let e = ifd + 2 + i * 12;
        let tag = read_u16(b, e, le);
        let typ = read_u16(b, e + 2, le);
        let n = read_u32(b, e + 4, le);
        let value = read_u32(b, e + 8, le);
        if tag.is_none() || typ.is_none() || n.is_none() || value.is_none() {
            return (end, th_off, th_len);
        }
        let tag = tag.unwrap();
        let typ = typ.unwrap();
        let n = n.unwrap() as u64;
        let value = value.unwrap() as u64;
        let ts = tiff_type_size(typ) as u64;
        assert(n * ts <= 0xFFFF_FFFFu64 * 8) by (nonlinear_arith)
            requires
                n <= 0xFFFF_FFFFu64,
                ts <= 8,
        ;
        let size = n * ts;
        if size > 4 && value + size > end {
            end = value + size;
        }
        if tag == 0x8769 || tag == 0x8825 || tag == 0xA005 {
            let ghost before = u64_seq(pending@);
            pending.push(value);
            assert(u64_seq(pending@) =~= before.push(value as int));
        }
        if tag == 0x0201 {
            th_off = value;
        }
        if tag == 0x0202 {
            th_len = value;
        }
        i = i + 1;
    }
}

/// Whether `v` holds `x`.
pub fn contains_u64(v: &Vec<u64>, x: u64) -> (r: bool)
    ensures
        r == u64_seq(v@).contains(x as int),
{
    let mut k: usize = 0;
    while k < v.len()
        invariant
            0 <= k <= v@.len(),
            forall|j: int| 0 <= j < k ==> v@[j] != x,
        decreases v.len() - k,
    {
        if v[k] == x {
            assert(u64_seq(v@)[k as int] == x as int);
            return true;
        }
        k = k + 1;
    }
    assert(!u64_seq(v@).contains(x as int)) by {
        if u64_seq(v@).contains(x as int) {
            let j = choose|j: int| 0 <= j < u64_seq(v@).len() && u64_seq(v@)[j] == x as int;
            assert(v@[j] == x);
        }
    }
    false
}

/// Length in bytes of the TIFF structure that starts at `tiff[0]` (see
/// `spec_tiff_extent`); `None` when `tiff` is not a TIFF header.  TIFF has
/// no length field, so this is how an EXIF block embedded in a larger file
/// (a HEIC `mdat`, say) is delimited.
pub fn tiff_extent(tiff: &[u8]) -> (r: Option<usize>)
    ensures
        match r {
            Some(n) => spec_tiff_extent(tiff@) == Some(n as int),
            None => spec_tiff_extent(tiff@) is None,
        },
{
    if !is_tiff(tiff) {
        return None;
    }
    let le = tiff[0] == 0x49;
    let first = match read_u32(tiff, 4, le) {
        Some(v) => v,
        None => return None,
    };
    let mut end: u64 = 8;
    let mut pending: Vec<u64> = Vec::new();
    pending.push(first as u64);
    let mut seen: Vec<u64> = Vec::new();
    assert(u64_seq(pending@) =~= seq![first as int]);
    assert(u64_seq(seen@) =~= Seq::<int>::empty());
    loop
        invariant
            spec_is_tiff(tiff@),
            le == (tiff@[0] == 0x49),
            rd32(tiff@, 4, le) == Some(first),
            end <= 0x10_0000_0000,
            seen@.len() <= max_ifds(),
            forall|k: int| 0 <= k < pending@.len() ==> #[trigger] pending@[k] <= u32::MAX,
            extent_walk(tiff@, le, seq![first as int], Seq::empty(), 8) == extent_walk(
                tiff@,
                le,
                u64_seq(pending@),
                u64_seq(seen@),
                end as int,
            ),
        decreases max_ifds() - seen@.len(), pending@.len(),
    {
        let ghost pending0 = u64_seq(pending@);
        let ghost seen0 = u64_seq(seen@);
        let ifd = match pending.pop() {
            Some(x) => x,
            None => {
                assert(u64_seq(pending@).len() == 0);
                let n = tiff.len() as u64;
                let r = if end < n {
                    end as usize
                } else {
                    tiff.len()
                };
                return Some(r);
            },
        };
        assert(u64_seq(pending@) =~= pending0.drop_last());
        let already = contains_u64(&seen, ifd);
        if ifd < 8 || already || seen.len() >= 64 {
            continue;
        }
        seen.push(ifd);
        assert(u64_seq(seen@) =~= seen0.push(ifd as int));
        let count = match read_u16(tiff, ifd, le) {
            Some(c) => c as u64,
            None => continue,
        };
        let table_end = ifd + 2 + count * 12 + 4;
        if table_end > end {
            end = table_end;
        }
        let (e2, th_off, th_len) = scan_ifd(tiff, ifd, count, le, end, &mut pending);
        end = e2;
        if th_off > 0 && th_len > 0 && th_off + th_len > end {
            end = th_off + th_len;
        }
        match read_u32(tiff, ifd + 2 + count * 12, le) {
            Some(next) => {
                let ghost before = u64_seq(pending@);
                pending.push(next as u64);
                assert(u64_seq(pending@) =~= before.push(next as int));
            },
            None => {},
        }
    }
}

} // verus!
