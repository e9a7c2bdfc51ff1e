//! HEIC EXIF handling: ISO-BMFF box walking, locating the EXIF TIFF block
//! (an `Exif` box in `meta`, or a bare TIFF header somewhere in the file),
//! extraction, in-place replacement and blanking.
use vstd::prelude::*;
use crate::bytes::{bytes_at, has_at, read_u32, to_vec, extend_range, overwrite, zero_range, u32_at, u64_be_at};
use crate::error::BatImgError;
use crate::heic::spec_is_heic_bytes;
use super::container::{is_tiff, spec_is_tiff, exif_header};
use super::tiff::{tiff_extent, spec_tiff_extent, lemma_tiff_extent_le};

verus! {

// ---- ISO-BMFF boxes ----------------------------------------------------------

/// `meta`
pub open spec fn meta_tag() -> Seq<u8> {
    seq![0x6Du8, 0x65, 0x74, 0x61]
}

/// `Exif`
pub open spec fn exif_tag() -> Seq<u8> {
    seq![0x45u8, 0x78, 0x69, 0x66]
}

/// `free`
pub open spec fn free_tag() -> Seq<u8> {
    seq![0x66u8, 0x72, 0x65, 0x65]
}

/// The box at `pos`, lying entirely inside `..limit`, as `(type, payload
/// start, end)`.  A 32-bit size of 1 announces a 64-bit "largesize" after
/// the type; a size of 0 means "up to `limit`".
pub open spec fn box_at(b: Seq<u8>, pos: int, limit: int) -> Option<(Seq<u8>, int, int)> {
    if pos < 0 || pos + 8 > limit {
        None
    } else {
        let size32 = u32_at(b, pos, false) as int;
        let hdr: int = if size32 == 1 {
            16
        } else {
            8
        };
        let size: int = if size32 == 0 {
            limit - pos
        } else if size32 == 1 {
            u64_be_at(b, pos + 8) as int
        } else {
            size32
        };
        if size32 == 1 && pos + 16 > b.len() {
            None
        } else if size >= hdr && pos + size <= limit {
            Some((b.subrange(pos + 4, pos + 8), pos + hdr, pos + size))
        } else {
            None
        }
    }
}

/// Sibling boxes from `pos` up to `limit`; the first malformed box ends the list.
pub open spec fn boxes_from(b: Seq<u8>, pos: int, limit: int) -> Seq<(Seq<u8>, int, int)>
    decreases limit - pos,
{
    match box_at(b, pos, limit) {
        None => Seq::empty(),
        Some(x) => seq![x] + boxes_from(b, x.2, limit),
    }
}

/// The `(payload start, end)` of the first box of type `kind` at index `i` or later.
pub open spec fn first_of_kind(bs: Seq<(Seq<u8>, int, int)>, kind: Seq<u8>, i: int) -> Option<(int, int)>
    decreases bs.len() - i,
{
    if i < 0 || i >= bs.len() {
        None
    } else if bs[i].0 == kind {
        Some((bs[i].1, bs[i].2))
    } else {
        first_of_kind(bs, kind, i + 1)
    }
}

pub open spec fn box_view(v: Seq<([u8; 4], usize, usize)>) -> Seq<(Seq<u8>, int, int)> {
    v.map_values(|x: ([u8; 4], usize, usize)| (x.0@, x.1 as int, x.2 as int))
}

/// Payload range of the top-level `meta` box.
pub open spec fn spec_meta_payload(b: Seq<u8>) -> Option<(int, int)> {
    first_of_kind(boxes_from(b, 0, b.len() as int), meta_tag(), 0)
}

/// Payload range (after the FullBox version/flags) of the `Exif` box among
/// the children of `meta`.
pub open spec fn spec_exif_box_payload(b: Seq<u8>) -> Option<(int, int)> {
    match spec_meta_payload(b) {
        None => None,
        Some((ms, me)) => match first_of_kind(boxes_from(b, ms + 4, me), exif_tag(), 0) {
            None => None,
            Some((s, e)) => if s + 4 <= e {
                Some((s + 4, e))
            } else {
                None
            },
        },
    }
}

proof fn lemma_boxes_bounds(b: Seq<u8>, pos: int, limit: int)
    requires
        0 <= pos,
        limit <= b.len(),
    ensures
        forall|i: int|
            0 <= i < boxes_from(b, pos, limit).len() ==> pos + 8 <= #[trigger] boxes_from(b, pos, limit)[i].1
                <= boxes_from(b, pos, limit)[i].2 <= limit,
    decreases limit - pos,
{
    match box_at(b, pos, limit) {
        None => {},
        Some(x) => {
            lemma_boxes_bounds(b, x.2, limit);
            let rest = boxes_from(b, x.2, limit);
            assert forall|i: int| 0 <= i < boxes_from(b, pos, limit).len() implies pos + 8
                <= #[trigger] boxes_from(b, pos, limit)[i].1 <= boxes_from(b, pos, limit)[i].2
                <= limit by {
                if i > 0 {
                    assert(boxes_from(b, pos, limit)[i] == rest[i - 1]);
                }
            }
        },
    }
}

proof fn lemma_first_of_kind_bounds(bs: Seq<(Seq<u8>, int, int)>, kind: Seq<u8>, i: int, lo: int, hi: int)
    requires
        forall|k: int| 0 <= k < bs.len() ==> lo <= #[trigger] bs[k].1 <= bs[k].2 <= hi,
    ensures
        first_of_kind(bs, kind, i) matches Some((s, e)) ==> lo <= s <= e <= hi,
    decreases bs.len() - i,
{
    if 0 <= i < bs.len() && bs[i].0 != kind {
        lemma_first_of_kind_bounds(bs, kind, i + 1, lo, hi);
    }
}

/// The first box of the kind found is one of the boxes, with that kind.
proof fn lemma_first_of_kind_index(bs: Seq<(Seq<u8>, int, int)>, kind: Seq<u8>, i: int) -> (idx: int)
    requires
        0 <= i,
        first_of_kind(bs, kind, i) is Some,
    ensures
        i <= idx < bs.len(),
        bs[idx].0 == kind,
        first_of_kind(bs, kind, i) == Some((bs[idx].1, bs[idx].2)),
    decreases bs.len() - i,
{
    if bs[i].0 == kind {
        i
    } else {
        lemma_first_of_kind_index(bs, kind, i + 1)
    }
}

/// Two buffers of one length that agree on a box's header read it alike.
proof fn lemma_box_at_same(x: Seq<u8>, b: Seq<u8>, pos: int, limit: int)
    requires
        x.len() == b.len(),
        limit <= b.len(),
        forall|k: int| pos <= k < pos + 8 && 0 <= k < b.len() ==> #[trigger] x[k] == b[k],
        pos + 8 <= b.len() && u32_at(b, pos, false) == 1 && pos + 16 <= b.len() ==> forall|k: int|
            pos + 8 <= k < pos + 16 ==> #[trigger] x[k] == b[k],
    ensures
        box_at(x, pos, limit) == box_at(b, pos, limit),
{
    if !(pos < 0 || pos + 8 > limit) {
        assert(x[pos] == b[pos] && x[pos + 1] == b[pos + 1] && x[pos + 2] == b[pos + 2] && x[pos + 3] == b[pos + 3]);
        assert(u32_at(x, pos, false) == u32_at(b, pos, false));
        assert(x.subrange(pos + 4, pos + 8) =~= b.subrange(pos + 4, pos + 8)) by {
            assert forall|k: int| 0 <= k < 4 implies #[trigger] x.subrange(pos + 4, pos + 8)[k] == b.subrange(pos + 4, pos + 8)[k] by {
                assert(x[pos + 4 + k] == b[pos + 4 + k]);
            }
        }
        if u32_at(b, pos, false) == 1 && pos + 16 <= b.len() {
            assert(x[pos + 8] == b[pos + 8] && x[pos + 9] == b[pos + 9] && x[pos + 10] == b[pos + 10]
                && x[pos + 11] == b[pos + 11]);
            assert(x[pos + 12] == b[pos + 12] && x[pos + 13] == b[pos + 13] && x[pos + 14] == b[pos + 14]
                && x[pos + 15] == b[pos + 15]);
            assert(u64_be_at(x, pos + 8) == u64_be_at(b, pos + 8));
        }
    }
}

/// Two buffers of one length that agree from `pos` on walk the boxes from
/// `pos` alike.
proof fn lemma_boxes_same_from(x: Seq<u8>, b: Seq<u8>, pos: int, limit: int)
    requires
        x.len() == b.len(),
        0 <= pos,
        limit <= b.len(),
        forall|k: int| pos <= k < b.len() ==> #[trigger] x[k] == b[k],
    ensures
        boxes_from(x, pos, limit) == boxes_from(b, pos, limit),
    decreases limit - pos,
{
    lemma_box_at_same(x, b, pos, limit);
    if let Some(bx) = box_at(b, pos, limit) {
        lemma_boxes_same_from(x, b, bx.2, limit);
    }
}

/// Two buffers of one length that differ only inside the payload of one of
/// the boxes walked from `pos` walk those boxes alike.
pub proof fn lemma_boxes_same_outside(x: Seq<u8>, b: Seq<u8>, pos: int, limit: int, s: int, e: int, idx: int)
    requires
        x.len() == b.len(),
        0 <= pos,
        limit <= b.len(),
        0 <= idx < boxes_from(b, pos, limit).len(),
        boxes_from(b, pos, limit)[idx].1 <= s <= e <= boxes_from(b, pos, limit)[idx].2,
        forall|k: int| 0 <= k < b.len() && (k < s || k >= e) ==> #[trigger] x[k] == b[k],
    ensures
        boxes_from(x, pos, limit) == boxes_from(b, pos, limit),
    decreases limit - pos,
{
    let bx = box_at(b, pos, limit)->0;
    assert(boxes_from(b, pos, limit)[0] == bx);
    lemma_boxes_bounds(b, pos, limit);
    lemma_boxes_bounds(b, bx.2, limit);
    if idx > 0 {
        assert(boxes_from(b, pos, limit)[idx] == boxes_from(b, bx.2, limit)[idx - 1]);
    }
    assert(bx.2 <= s || idx == 0);
    lemma_box_at_same(x, b, pos, limit);
    if idx == 0 {
        lemma_boxes_same_from(x, b, bx.2, limit);
    } else {
        lemma_boxes_same_outside(x, b, bx.2, limit, s, e, idx - 1);
    }
}

/// A buffer of the same length that differs from `b` only inside the
/// payload of its `Exif` box has that `Exif` box at the same place.
pub proof fn lemma_exif_box_kept(x: Seq<u8>, b: Seq<u8>)
    requires
        x.len() == b.len(),
        spec_exif_box_payload(b) matches Some((s, e)) && forall|k: int|
            0 <= k < b.len() && (k < s || k >= e) ==> #[trigger] x[k] == b[k],
    ensures
        spec_exif_box_payload(x) == spec_exif_box_payload(b),
        spec_exif_box_payload(b) matches Some((s, e)) && 16 <= s,
{
    let (s, e) = spec_exif_box_payload(b)->0;
    let top = boxes_from(b, 0, b.len() as int);
    let mi = lemma_first_of_kind_index(top, meta_tag(), 0);
    let (ms, me) = (top[mi].1, top[mi].2);
    lemma_boxes_bounds(b, 0, b.len() as int);
    let kids = boxes_from(b, ms + 4, me);
    let ki = lemma_first_of_kind_index(kids, exif_tag(), 0);
    lemma_boxes_bounds(b, ms + 4, me);
    assert(s == kids[ki].1 + 4 && e == kids[ki].2);
    lemma_boxes_same_outside(x, b, 0, b.len() as int, s, e, mi);
    lemma_boxes_same_outside(x, b, ms + 4, me, s, e, ki);
}

/// Read the box at `pos`, requiring it to lie entirely inside `..limit`.
fn read_box(bytes: &[u8], pos: usize, limit: usize) -> (r: Option<([u8; 4], usize, usize)>)
    requires
        limit <= bytes@.len(),
    ensures
        match r {
            Some(x) => box_at(bytes@, pos as int, limit as int) == Some((x.0@, x.1 as int, x.2 as int)),
            None => box_at(bytes@, pos as int, limit as int) is None,
        },
{
    if pos > limit || limit - pos < 8 {
        return None;
    }
    let size32 = read_u32(bytes, pos as u64, false).unwrap();
    let kind: [u8; 4] = [bytes[pos + 4], bytes[pos + 5], bytes[pos + 6], bytes[pos + 7]];
    assert(kind@ =~= bytes@.subrange(pos + 4, pos + 8));
    let avail = (limit - pos) as u64;
    if size32 == 1 {
        if bytes.len() - pos < 16 {
            return None;
        }
        let hi = read_u32(bytes, (pos + 8) as u64, false).unwrap() as u64;
        let lo = read_u32(bytes, (pos + 12) as u64, false).unwrap() as u64;
        let large = hi * 4294967296 + lo;
        assert(large == u64_be_at(bytes@, pos + 8));
        if large >= 16 && large <= avail {
            let end = pos + large as usize;
            Some((kind, pos + 16, end))
        } else {
            None
        }
    } else if size32 == 0 {
        Some((kind, pos + 8, limit))
    } else {
        let size = size32 as u64;
        if size >= 8 && size <= avail {
            Some((kind, pos + 8, pos + size as usize))
        } else {
            None
        }
    }
}

/// Sibling boxes in `start..limit` as `(type, payload start, end)`; the first
/// malformed box ends the list.  `limit` must not exceed `bytes.len()`.
pub fn boxes(bytes: &[u8], start: usize, limit: usize) -> (r: Vec<([u8; 4], usize, usize)>)
    requires
        limit <= bytes@.len(),
    ensures
        box_view(r@) == boxes_from(bytes@, start as int, limit as int),
{
    let mut out: Vec<([u8; 4], usize, usize)> = Vec::new();
    let mut pos = start;
    loop
        invariant
            limit <= bytes@.len(),
            box_view(out@) + boxes_from(bytes@, pos as int, limit as int) == boxes_from(
                bytes@,
                start as int,
                limit as int,
            ),
        decreases limit - pos,
    {
        match read_box(bytes, pos, limit) {
            None => {
                assert(box_view(out@) =~= boxes_from(bytes@, start as int, limit as int));
                return out;
            },
            Some(x) => {
                let ghost before = box_view(out@);
                out.push(x);
                assert(box_view(out@) =~= before + seq![(x.0@, x.1 as int, x.2 as int)]);
                assert(box_view(out@) + boxes_from(bytes@, x.2 as int, limit as int) =~= before
                    + boxes_from(bytes@, pos as int, limit as int));
                pos = x.2;
            },
        }
    }
}

/// Whether two four-byte codes are equal.
pub fn same_fourcc(a: &[u8; 4], b: &[u8; 4]) -> (r: bool)
    ensures
        r == (a@ == b@),
{
    let r = a[0] == b[0] && a[1] == b[1] && a[2] == b[2] && a[3] == b[3];
    if r {
        assert(a@ =~= b@);
    }
    r
}

/// First box of type `kind` in `bs`, as `(payload start, end)`.
fn find_box(bs: &Vec<([u8; 4], usize, usize)>, kind: &[u8; 4]) -> (r: Option<(usize, usize)>)
    ensures
        match r {
            Some((s, e)) => first_of_kind(box_view(bs@), kind@, 0) == Some((s as int, e as int)),
            None => first_of_kind(box_view(bs@), kind@, 0) is None,
        },
{
    let mut i: usize = 0;
    while i < bs.len()
        invariant
            i <= bs@.len(),
            first_of_kind(box_view(bs@), kind@, 0) == first_of_kind(box_view(bs@), kind@, i as int),
        decreases bs.len() - i,
    {
        if same_fourcc(&bs[i].0, kind) {
            return Some((bs[i].1, bs[i].2));
        }
        i = i + 1;
    }
    None
}

/// Payload range of the top-level `meta` box.
fn meta_payload(bytes: &[u8]) -> (r: Option<(usize, usize)>)
    ensures
        match r {
            Some((s, e)) => spec_meta_payload(bytes@) == Some((s as int, e as int)) && s <= e <= bytes@.len(),
            None => spec_meta_payload(bytes@) is None,
        },
{
    let bs = boxes(bytes, 0, bytes.len());
    proof {
        lemma_boxes_bounds(bytes@, 0, bytes@.len() as int);
        lemma_first_of_kind_bounds(box_view(bs@), meta_tag(), 0, 0, bytes@.len() as int);
    }
    let tag: [u8; 4] = [0x6D, 0x65, 0x74, 0x61];
    assert(tag@ =~= meta_tag());
    find_box(&bs, &tag)
}

/// Payload range (without the FullBox version/flags) of the `Exif` box inside `meta`.
pub fn exif_box_payload(bytes: &[u8]) -> (r: Option<(usize, usize)>)
    ensures
        match r {
            Some((s, e)) => spec_exif_box_payload(bytes@) == Some((s as int, e as int)) && s <= e
                <= bytes@.len(),
            None => spec_exif_box_payload(bytes@) is None,
        },
{
    let (ms, me) = match meta_payload(bytes) {
        Some(m) => m,
        None => return None,
    };
    if me - ms < 4 {
        assert(boxes_from(bytes@, ms + 4, me as int) =~= Seq::empty());
        assert(first_of_kind(boxes_from(bytes@, ms + 4, me as int), exif_tag(), 0) is None);
        return None;
    }
    let bs = boxes(bytes, ms + 4, me);
    proof {
        lemma_boxes_bounds(bytes@, ms + 4, me as int);
        lemma_first_of_kind_bounds(box_view(bs@), exif_tag(), 0, ms + 4, me as int);
    }
    let tag: [u8; 4] = [0x45, 0x78, 0x69, 0x66];
    assert(tag@ =~= exif_tag());
    match find_box(&bs, &tag) {
        None => None,
        Some((s, e)) => if e - s >= 4 {
            Some((s + 4, e))
        } else {
            None
        },
    }
}

// ---- finding a TIFF header ----------------------------------------------------

/// `Exif\0\0` at `i`, followed by a TIFF header.
pub open spec fn prefixed_tiff_at(b: Seq<u8>, i: int) -> bool {
    0 <= i && i + 10 <= b.len() && has_at(b, i, exif_header()) && spec_is_tiff(b.subrange(i + 6, i + 10))
}

/// A TIFF header (`II*\0` or `MM\0*`) at `i`.
pub open spec fn bare_tiff_at(b: Seq<u8>, i: int) -> bool {
    0 <= i && i + 4 <= b.len() && spec_is_tiff(b.subrange(i, i + 4))
}

/// The first `i' >= i` where `prefixed_tiff_at` holds.
pub open spec fn first_prefixed_from(b: Seq<u8>, i: int) -> Option<int>
    decreases b.len() - i,
{
    if i < 0 || i + 10 > b.len() {
        None
    } else if prefixed_tiff_at(b, i) {
        Some(i)
    } else {
        first_prefixed_from(b, i + 1)
    }
}

/// The first `i' >= i` where `bare_tiff_at` holds.
pub open spec fn first_bare_from(b: Seq<u8>, i: int) -> Option<int>
    decreases b.len() - i,
{
    if i < 0 || i + 4 > b.len() {
        None
    } else if bare_tiff_at(b, i) {
        Some(i)
    } else {
        first_bare_from(b, i + 1)
    }
}

/// Where a TIFF header starts: after the first `Exif\0\0` prefix that is
/// followed by one, else at the first bare header.
pub open spec fn spec_find_tiff_header(b: Seq<u8>) -> Option<int> {
    match first_prefixed_from(b, 0) {
        Some(i) => Some(i + 6),
        None => first_bare_from(b, 0),
    }
}

/// No TIFF header anywhere in `b`.
pub open spec fn no_tiff_header(b: Seq<u8>) -> bool {
    forall|j: int| !#[trigger] bare_tiff_at(b, j)
}

proof fn lemma_first_bare(b: Seq<u8>, i: int)
    requires
        0 <= i,
    ensures
        first_bare_from(b, i) matches Some(k) ==> i <= k && bare_tiff_at(b, k),
        first_bare_from(b, i) is None ==> forall|j: int| i <= j ==> !#[trigger] bare_tiff_at(b, j),
    decreases b.len() - i,
{
    if i + 4 <= b.len() && !bare_tiff_at(b, i) {
        lemma_first_bare(b, i + 1);
        assert forall|j: int| i <= j && first_bare_from(b, i) is None implies !#[trigger] bare_tiff_at(b, j) by {
            if j == i {
            }
        }
    }
}

proof fn lemma_first_prefixed(b: Seq<u8>, i: int)
    requires
        0 <= i,
    ensures
        first_prefixed_from(b, i) matches Some(k) ==> i <= k && prefixed_tiff_at(b, k),
        first_prefixed_from(b, i) is None ==> forall|j: int| i <= j ==> !#[trigger] prefixed_tiff_at(b, j),
    decreases b.len() - i,
{
    if i + 10 <= b.len() && !prefixed_tiff_at(b, i) {
        lemma_first_prefixed(b, i + 1);
        assert forall|j: int| i <= j && first_prefixed_from(b, i) is None implies !#[trigger] prefixed_tiff_at(b, j) by {
            if j == i {
            }
        }
    }
}

/// A header found by the scan is a real TIFF header inside `b`, and the scan
/// finds nothing exactly when `b` holds no TIFF header at all.
pub proof fn lemma_find_tiff_header(b: Seq<u8>)
    ensures
        spec_find_tiff_header(b) matches Some(s) ==> bare_tiff_at(b, s),
        spec_find_tiff_header(b) is None <==> no_tiff_header(b),
{
    lemma_first_bare(b, 0);
    lemma_first_prefixed(b, 0);
    if let Some(i) = first_prefixed_from(b, 0) {
        assert(b.subrange(i + 6, i + 10) =~= b.subrange(i + 6, i + 6 + 4));
        assert(bare_tiff_at(b, i + 6));
    }
    if first_prefixed_from(b, 0) is None && first_bare_from(b, 0) is None {
        assert forall|j: int| !#[trigger] bare_tiff_at(b, j) by {
            if j >= 0 {
            }
        }
    }
}

/// Robust scan for a TIFF header.  A header announced by the `Exif\0\0`
/// prefix wins over a bare `II*\0` / `MM\0*` that may occur by chance.
pub fn find_tiff_header(bytes: &[u8]) -> (r: Option<usize>)
    ensures
        match r {
            Some(s) => spec_find_tiff_header(bytes@) == Some(s as int),
            None => spec_find_tiff_header(bytes@) is None,
        },
{
    let n = bytes.len();
    let hdr: [u8; 6] = [0x45, 0x78, 0x69, 0x66, 0, 0];
    assert(hdr@ =~= exif_header());
    let mut i: usize = 0;
    while n >= 10 && i <= n - 10
        invariant
            n == bytes@.len(),
            hdr@ == exif_header(),
            first_prefixed_from(bytes@, 0) == first_prefixed_from(bytes@, i as int),
        decreases n - i,
    {
        if bytes_at(bytes, i, &hdr) && is_tiff(&bytes[i + 6..i + 10]) {
            return Some(i + 6);
        }
        i = i + 1;
    }
    let mut j: usize = 0;
    while n >= 4 && j <= n - 4
        invariant
            n == bytes@.len(),
            first_prefixed_from(bytes@, 0) is None,
            first_bare_from(bytes@, 0) == first_bare_from(bytes@, j as int),
        decreases n - j,
    {
        if is_tiff(&bytes[j..j + 4]) {
            return Some(j);
        }
        j = j + 1;
    }
    None
}

// ---- locating the EXIF bytes -----------------------------------------------------

/// Where the EXIF TIFF block lives, `(start, end, exact)`: an `Exif` box
/// payload (end known exactly), else from the first TIFF header to the end
/// of the file.
pub open spec fn spec_locate_exif(b: Seq<u8>) -> Option<(int, int, bool)> {
    match spec_exif_box_payload(b) {
        Some((s, e)) => Some((s, e, true)),
        None => match spec_find_tiff_header(b) {
            Some(s) => Some((s, b.len() as int, false)),
            None => None,
        },
    }
}

fn locate_exif(bytes: &[u8]) -> (r: Option<(usize, usize, bool)>)
    ensures
        match r {
            Some((s, e, x)) => spec_locate_exif(bytes@) == Some((s as int, e as int, x)) && s <= e
                <= bytes@.len(),
            None => spec_locate_exif(bytes@) is None,
        },
{
    match exif_box_payload(bytes) {
        Some((s, e)) => Some((s, e, true)),
        None => match find_tiff_header(bytes) {
            Some(s) => {
                proof {
                    lemma_find_tiff_header(bytes@);
                }
                Some((s, bytes.len(), false))
            },
            None => None,
        },
    }
}

/// Raw EXIF bytes of a HEIC file: the `Exif` box payload, or everything from
/// the first TIFF header to the end of the file.
pub open spec fn spec_heic_exif_raw(b: Seq<u8>) -> Option<Seq<u8>> {
    match spec_locate_exif(b) {
        Some((s, e, _)) => Some(b.subrange(s, e)),
        None => None,
    }
}

/// The EXIF TIFF block of a HEIC file, cut to the TIFF structure's own
/// extent when it was found by scanning.
pub open spec fn spec_heic_exif_tiff(b: Seq<u8>) -> Option<Seq<u8>> {
    match spec_locate_exif(b) {
        Some((s, e, true)) => Some(b.subrange(s, e)),
        Some((s, e, false)) => match spec_tiff_extent(b.subrange(s, e)) {
            Some(n) => Some(b.subrange(s, s + n)),
            None => None,
        },
        None => None,
    }
}

pub open spec fn opt_bytes(r: Option<Vec<u8>>) -> Option<Seq<u8>> {
    match r {
        Some(v) => Some(v@),
        None => None,
    }
}

/// Extract raw TIFF bytes from a HEIC file.  For an `Exif` box that is the
/// box payload; otherwise everything from the first TIFF header to the end of
/// the file (use `extract_heic_exif_tiff` for the exact block).
pub fn extract_heic_exif_raw(bytes: &[u8]) -> (r: Option<Vec<u8>>)
    ensures
        opt_bytes(r) == spec_heic_exif_raw(bytes@),
{
    match locate_exif(bytes) {
        Some((s, e, _)) => Some(to_vec(&bytes[s..e])),
        None => None,
    }
}

/// Like `extract_heic_exif_raw`, but the block is cut to the extent of the
/// TIFF structure itself, so it does not drag the image data along.
pub fn extract_heic_exif_tiff(bytes: &[u8]) -> (r: Option<Vec<u8>>)
    ensures
        opt_bytes(r) == spec_heic_exif_tiff(bytes@),
{
    match locate_exif(bytes) {
        Some((s, e, exact)) => {
            let tiff = &bytes[s..e];
            if exact {
                Some(to_vec(tiff))
            } else {
                match tiff_extent(tiff) {
                    Some(n) => {
                        proof {
                            lemma_tiff_extent_le(tiff@);
                        }
                        let r = to_vec(&tiff[0..n]);
                        assert(r@ =~= bytes@.subrange(s as int, s + n));
                        Some(r)
                    },
                    None => None,
                }
            }
        },
        None => None,
    }
}

// ---- replacing -----------------------------------------------------------------

/// `n` zero bytes.
pub open spec fn zeros(n: int) -> Seq<u8> {
    Seq::new(n as nat, |_i: int| 0u8)
}

/// The file with its EXIF block overwritten by `new`, file length and box
/// sizes unchanged; the unused tail of an `Exif` box is zeroed.  `None` when
/// there is no EXIF block or `new` does not fit in it.
pub open spec fn spec_replace_heic_exif(b: Seq<u8>, new: Seq<u8>) -> Option<Seq<u8>> {
    match spec_locate_exif(b) {
        None => None,
        Some((s, e, exact)) => if new.len() > e - s {
            None
        } else if exact {
            Some(b.subrange(0, s) + new + zeros(e - s - new.len()) + b.subrange(e, b.len() as int))
        } else {
            Some(b.subrange(0, s) + new + b.subrange(s + new.len(), b.len() as int))
        },
    }
}

pub proof fn lemma_locate_exif_bounds(b: Seq<u8>)
    ensures
        spec_locate_exif(b) matches Some((s, e, x)) ==> 0 <= s <= e <= b.len(),
{
    lemma_meta_payload_bounds(b);
    if let Some((ms, me)) = spec_meta_payload(b) {
        lemma_boxes_bounds(b, ms + 4, me);
        lemma_first_of_kind_bounds(boxes_from(b, ms + 4, me), exif_tag(), 0, ms + 4, me);
    }
    lemma_find_tiff_header(b);
}

/// Replacing the EXIF block writes the new block where the old one was
/// found: the file keeps its length, the new block reads back at that
/// offset, and every byte outside the old block's range is unchanged.
pub proof fn lemma_replace_heic_exif_in_place(b: Seq<u8>, new: Seq<u8>)
    requires
        spec_replace_heic_exif(b, new) is Some,
    ensures
        ({
            let r = spec_replace_heic_exif(b, new)->0;
            let (s, e, x) = spec_locate_exif(b)->0;
            &&& r.len() == b.len()
            &&& s + new.len() <= e
            &&& r.subrange(s, s + new.len()) == new
            &&& forall|k: int| 0 <= k < b.len() && (k < s || k >= e) ==> #[trigger] r[k] == b[k]
        }),
{
    lemma_locate_exif_bounds(b);
    let r = spec_replace_heic_exif(b, new)->0;
    let (s, e, x) = spec_locate_exif(b)->0;
    assert(r.subrange(s, s + new.len()) =~= new);
}

/// Overwrite the EXIF TIFF block with `new_tiff`, keeping the file length and
/// every box size unchanged.  When the block has a known size (an `Exif` box)
/// the unused tail is zeroed.  `new_tiff` must fit.
pub fn replace_heic_exif_payload(bytes: &[u8], new_tiff: &[u8]) -> (r: Result<Vec<u8>, BatImgError>)
    ensures
        match r {
            Ok(v) => spec_replace_heic_exif(bytes@, new_tiff@) == Some(v@),
            Err(e) => spec_replace_heic_exif(bytes@, new_tiff@) is None && e is Exif,
        },
{
    let (s, e, exact) = match locate_exif(bytes) {
        Some(x) => x,
        None => return Err(BatImgError::Exif("No Exif or TIFF header found".to_owned())),
    };
    if new_tiff.len() > e - s {
        return Err(BatImgError::Exif("new EXIF block does not fit in the space available".to_owned()));
    }
    let mut out = to_vec(bytes);
    overwrite(&mut out, s, new_tiff);
    let end = s + new_tiff.len();
    if exact {
        let ghost mid = out@;
        zero_range(&mut out, end, e);
        assert(out@ =~= bytes@.subrange(0, s as int) + new_tiff@ + zeros(e - s - new_tiff@.len())
            + bytes@.subrange(e as int, bytes@.len() as int));
    } else {
        assert(out@ =~= bytes@.subrange(0, s as int) + new_tiff@ + bytes@.subrange(
            s + new_tiff@.len(),
            bytes@.len() as int,
        ));
    }
    Ok(out)
}

/// The TIFF payload of a libheif EXIF metadata block: after an `Exif\0\0`
/// prefix, the block itself, or after a 4-byte big-endian offset.
pub open spec fn spec_tiff_from_heic_metadata(d: Seq<u8>) -> Option<Seq<u8>> {
    if has_at(d, 0, exif_header()) {
        if spec_is_tiff(d.subrange(6, d.len() as int)) {
            Some(d.subrange(6, d.len() as int))
        } else {
            None
        }
    } else if spec_is_tiff(d) {
        Some(d)
    } else if d.len() < 4 {
        None
    } else {
        let start = 4 + u32_at(d, 0, false);
        if start > d.len() {
            None
        } else if spec_is_tiff(d.subrange(start, d.len() as int)) {
            Some(d.subrange(start, d.len() as int))
        } else {
            None
        }
    }
}

/// Return the TIFF payload from a libheif EXIF metadata block (handles the
/// `Exif\0\0` prefix and the 4-byte offset form).
pub fn tiff_from_heic_metadata(data: &[u8]) -> (r: Option<&[u8]>)
    ensures
        match r {
            Some(t) => spec_tiff_from_heic_metadata(data@) == Some(t@),
            None => spec_tiff_from_heic_metadata(data@) is None,
        },
{
    let hdr: [u8; 6] = [0x45, 0x78, 0x69, 0x66, 0, 0];
    assert(hdr@ =~= exif_header());
    let n = data.len();
    if bytes_at(data, 0, &hdr) {
        let t = &data[6..n];
        return if is_tiff(t) {
            Some(t)
        } else {
            None
        };
    }
    if is_tiff(data) {
        return Some(data);
    }
    if n < 4 {
        return None;
    }
    let offset = read_u32(data, 0, false).unwrap() as usize;
    if offset > n - 4 {
        return None;
    }
    let t = &data[4 + offset..n];
    if is_tiff(t) {
        Some(t)
    } else {
        None
    }
}

// ---- blanking ---------------------------------------------------------------------

/// `b` with `s..e` overwritten by zeros.
pub open spec fn zeroed(b: Seq<u8>, s: int, e: int) -> Seq<u8> {
    Seq::new(b.len(), |k: int| if s <= k < e { 0u8 } else { b[k] })
}

/// The number of nonzero bytes in `b`.
pub open spec fn nonzero_count(b: Seq<u8>) -> nat
    decreases b.len(),
{
    if b.len() == 0 {
        0
    } else {
        nonzero_count(b.drop_last()) + if b.last() != 0 {
            1nat
        } else {
            0nat
        }
    }
}

pub proof fn lemma_count_le(b: Seq<u8>, t: Seq<u8>)
    requires
        t.len() == b.len(),
        forall|j: int| 0 <= j < b.len() ==> t[j] == b[j] || t[j] == 0,
    ensures
        nonzero_count(t) <= nonzero_count(b),
    decreases b.len(),
{
    if b.len() > 0 {
        assert(t[t.len() - 1] == b[b.len() - 1] || t[t.len() - 1] == 0);
        lemma_count_le(b.drop_last(), t.drop_last());
    }
}

pub proof fn lemma_count_lt(b: Seq<u8>, t: Seq<u8>, k: int)
    requires
        t.len() == b.len(),
        forall|j: int| 0 <= j < b.len() ==> t[j] == b[j] || t[j] == 0,
        0 <= k < b.len(),
        b[k] != 0,
        t[k] == 0,
    ensures
        nonzero_count(t) < nonzero_count(b),
    decreases b.len(),
{
    assert(t[t.len() - 1] == b[b.len() - 1] || t[t.len() - 1] == 0);
    if k == b.len() - 1 {
        lemma_count_le(b.drop_last(), t.drop_last());
    } else {
        lemma_count_lt(b.drop_last(), t.drop_last(), k);
    }
}

/// End of the region blanked for a TIFF header at `start`: the block's own
/// extent, but at least 1024 bytes, clamped to the file.
pub open spec fn blank_end(b: Seq<u8>, start: int) -> int {
    let ext = match spec_tiff_extent(b.subrange(start, b.len() as int)) {
        Some(n) => n,
        None => 0,
    };
    let len = if ext > 1024 {
        ext
    } else {
        1024
    };
    if start + len < b.len() {
        start + len
    } else {
        b.len() as int
    }
}

pub proof fn lemma_blank_step(b: Seq<u8>, start: int)
    requires
        spec_find_tiff_header(b) == Some(start),
    ensures
        0 <= start < blank_end(b, start) <= b.len(),
        nonzero_count(zeroed(b, start, blank_end(b, start))) < nonzero_count(b),
{
    lemma_find_tiff_header(b);
    let t = zeroed(b, start, blank_end(b, start));
    assert(b.subrange(start, start + 4)[0] == b[start]);
    lemma_count_lt(b, t, start);
}

/// Blank every TIFF block that the scan finds, over its full extent, until
/// none is left.
pub open spec fn blank_tiff_blocks(b: Seq<u8>) -> Seq<u8>
    decreases nonzero_count(b),
{
    match spec_find_tiff_header(b) {
        None => b,
        Some(start) => {
            proof {
                lemma_blank_step(b, start);
            }
            blank_tiff_blocks(zeroed(b, start, blank_end(b, start)))
        },
    }
}

/// Rename every `Exif` in `i..stop` (scanning left to right) to `free`.
pub open spec fn rename_exif_from(b: Seq<u8>, i: int, stop: int) -> Seq<u8>
    decreases stop - i,
{
    if i >= stop {
        b
    } else {
        let b1 = if has_at(b, i, exif_tag()) {
            b.subrange(0, i) + free_tag() + b.subrange(i + 4, b.len() as int)
        } else {
            b
        };
        rename_exif_from(b1, i + 1, stop)
    }
}

/// Complete removal: the `Exif` box payload zeroed, every TIFF block found
/// by scanning blanked, and `Exif` renamed to `free` inside `meta`.
pub open spec fn spec_strip_all_heic(b: Seq<u8>) -> Seq<u8> {
    let b1 = match spec_exif_box_payload(b) {
        Some((s, e)) => zeroed(b, s, e),
        None => b,
    };
    let b2 = blank_tiff_blocks(b1);
    match spec_meta_payload(b2) {
        Some((ms, me)) => rename_exif_from(b2, ms, me - 3),
        None => b2,
    }
}

proof fn lemma_blank_leaves_no_header(b: Seq<u8>)
    ensures
        no_tiff_header(blank_tiff_blocks(b)),
        blank_tiff_blocks(b).len() == b.len(),
    decreases nonzero_count(b),
{
    lemma_find_tiff_header(b);
    if let Some(start) = spec_find_tiff_header(b) {
        lemma_blank_step(b, start);
        lemma_blank_leaves_no_header(zeroed(b, start, blank_end(b, start)));
    }
}

proof fn lemma_rename_keeps_no_header(b: Seq<u8>, i: int, stop: int)
    requires
        no_tiff_header(b),
        0 <= i,
    ensures
        no_tiff_header(rename_exif_from(b, i, stop)),
        rename_exif_from(b, i, stop).len() == b.len(),
    decreases stop - i,
{
    if i < stop {
        let b1 = if has_at(b, i, exif_tag()) {
            b.subrange(0, i) + free_tag() + b.subrange(i + 4, b.len() as int)
        } else {
            b
        };
        assert(b1.len() == b.len());
        assert(forall|k: int| 0 <= k < b1.len() ==> b1[k] == b[k] || b1[k] == 0x66 || b1[k] == 0x72 || b1[k] == 0x65);
        assert forall|j: int| !#[trigger] bare_tiff_at(b1, j) by {
            if bare_tiff_at(b1, j) {
                let w = b1.subrange(j, j + 4);
                assert(w[0] == b1[j] && w[1] == b1[j + 1] && w[2] == b1[j + 2] && w[3] == b1[j + 3]);
                assert(b.subrange(j, j + 4) =~= w);
                assert(bare_tiff_at(b, j));
            }
        }
        lemma_rename_keeps_no_header(b1, i + 1, stop);
    }
}

/// After complete removal no TIFF header is left anywhere in the file.
pub proof fn lemma_strip_all_heic_leaves_no_tiff(b: Seq<u8>)
    ensures
        spec_strip_all_heic(b).len() == b.len(),
        no_tiff_header(spec_strip_all_heic(b)),
        spec_find_tiff_header(spec_strip_all_heic(b)) is None,
{
    let b1 = match spec_exif_box_payload(b) {
        Some((s, e)) => zeroed(b, s, e),
        None => b,
    };
    lemma_blank_leaves_no_header(b1);
    let b2 = blank_tiff_blocks(b1);
    if let Some((ms, me)) = spec_meta_payload(b2) {
        lemma_meta_payload_bounds(b2);
        lemma_rename_keeps_no_header(b2, ms, me - 3);
    }
    lemma_find_tiff_header(spec_strip_all_heic(b));
}

proof fn lemma_meta_payload_bounds(b: Seq<u8>)
    ensures
        spec_meta_payload(b) matches Some((s, e)) ==> 0 <= s <= e <= b.len(),
{
    lemma_boxes_bounds(b, 0, b.len() as int);
    lemma_first_of_kind_bounds(boxes_from(b, 0, b.len() as int), meta_tag(), 0, 0, b.len() as int);
}

/// Complete HEIC metadata removal: blank every EXIF block and rename `Exif`
/// boxes / item types inside `meta` to `free`.  File length is unchanged,
/// and no TIFF header is left in the result.
pub fn strip_all_heic_metadata(bytes: &[u8]) -> (r: Result<Vec<u8>, BatImgError>)
    ensures
        r matches Ok(v) && v@ == spec_strip_all_heic(bytes@),
        r matches Ok(v) && v@.len() == bytes@.len() && spec_find_tiff_header(v@) is None,
{
    let mut out = to_vec(bytes);
    match exif_box_payload(&out) {
        Some((s, e)) => {
            zero_range(&mut out, s, e);
            assert(out@ =~= zeroed(bytes@, s as int, e as int));
        },
        None => {},
    }
    let ghost b1 = out@;
    loop
        invariant
            blank_tiff_blocks(out@) == blank_tiff_blocks(b1),
        ensures
            out@ == blank_tiff_blocks(b1),
        decreases nonzero_count(out@),
    {
        let start = match find_tiff_header(&out) {
            Some(s) => s,
            None => {
                assert(blank_tiff_blocks(out@) == out@);
                break;
            },
        };
        proof {
            lemma_blank_step(out@, start as int);
        }
        let ext = match tiff_extent(&out.as_slice()[start..out.len()]) {
            Some(n) => n,
            None => 0,
        };
        let len: usize = if ext > 1024 {
            ext
        } else {
            1024
        };
        let end = if len < out.len() - start {
            start + len
        } else {
            out.len()
        };
        assert(end == blank_end(out@, start as int));
        let ghost before = out@;
        zero_range(&mut out, start, end);
        assert(out@ =~= zeroed(before, start as int, end as int));
    }
    let ghost b2 = out@;
    assert(b2 == blank_tiff_blocks(b1));
    match meta_payload(&out) {
        Some((ms, me)) => {
            let stop = if me >= 3 {
                me - 3
            } else {
                0
            };
            let tag: [u8; 4] = [0x45, 0x78, 0x69, 0x66];
            let free: [u8; 4] = [0x66, 0x72, 0x65, 0x65];
            assert(tag@ =~= exif_tag());
            assert(free@ =~= free_tag());
            let mut i = ms;
            while i < stop
                invariant
                    tag@ == exif_tag(),
                    free@ == free_tag(),
                    ms <= i,
                    stop as int == if me >= 3 {
                        me - 3
                    } else {
                        0
                    },
                    stop <= me <= b2.len(),
                    out@.len() == b2.len(),
                    rename_exif_from(b2, ms as int, me - 3) == rename_exif_from(out@, i as int, me - 3),
                decreases stop - i,
            {
                if bytes_at(&out, i, &tag) {
                    let ghost before = out@;
                    overwrite(&mut out, i, &free);
                    assert(out@ =~= before.subrange(0, i as int) + free_tag() + before.subrange(
                        i + 4,
                        before.len() as int,
                    ));
                }
                i = i + 1;
            }
        },
        None => {},
    }
    proof {
        lemma_strip_all_heic_leaves_no_tiff(bytes@);
    }
    Ok(out)
}

/// The bytes `ExiExif`.
pub open spec fn exi_exif() -> Seq<u8> {
    seq![0x45u8, 0x78, 0x69, 0x45, 0x78, 0x69, 0x66]
}

/// A byte that renaming to `free` writes.
pub open spec fn free_byte(x: u8) -> bool {
    x == 0x66 || x == 0x72 || x == 0x65
}

/// Blanking only ever zeroes bytes.
proof fn lemma_blank_only_zeroes(b: Seq<u8>)
    ensures
        blank_tiff_blocks(b).len() == b.len(),
        forall|k: int| 0 <= k < b.len() ==> #[trigger] blank_tiff_blocks(b)[k] == b[k] || blank_tiff_blocks(b)[k] == 0,
    decreases nonzero_count(b),
{
    if let Some(start) = spec_find_tiff_header(b) {
        lemma_blank_step(b, start);
        let z = zeroed(b, start, blank_end(b, start));
        lemma_blank_only_zeroes(z);
        assert forall|k: int| 0 <= k < b.len() implies #[trigger] blank_tiff_blocks(b)[k] == b[k]
            || blank_tiff_blocks(b)[k] == 0 by {
            assert(blank_tiff_blocks(z)[k] == z[k] || blank_tiff_blocks(z)[k] == 0);
        }
    }
}

/// Renaming writes only inside `i..stop + 3`.
proof fn lemma_rename_frame(b: Seq<u8>, i: int, stop: int)
    requires
        0 <= i,
    ensures
        rename_exif_from(b, i, stop).len() == b.len(),
        forall|k: int| 0 <= k < b.len() && (k < i || k >= stop + 3) ==> #[trigger] rename_exif_from(b, i, stop)[k] == b[k],
    decreases stop - i,
{
    if i < stop {
        let b1 = if has_at(b, i, exif_tag()) {
            b.subrange(0, i) + free_tag() + b.subrange(i + 4, b.len() as int)
        } else {
            b
        };
        lemma_rename_frame(b1, i + 1, stop);
        assert forall|k: int| 0 <= k < b.len() && (k < i || k >= stop + 3) implies #[trigger] rename_exif_from(b, i, stop)[k]
            == b[k] by {
            assert(b1[k] == b[k]);
        }
    }
}

/// Renaming where no `Exif` is left changes nothing.
proof fn lemma_rename_noop(b: Seq<u8>, i: int, stop: int)
    requires
        forall|j: int| i <= j < stop ==> !#[trigger] has_at(b, j, exif_tag()),
    ensures
        rename_exif_from(b, i, stop) == b,
    decreases stop - i,
{
    if i < stop {
        lemma_rename_noop(b, i + 1, stop);
    }
}

/// Renaming from `i` on, in a buffer `c` that is `b0` with some bytes
/// renamed before `i + 3` and no `Exif` left in `lo..i`, leaves no `Exif` in
/// `lo..stop`, provided `ExiExif` occurs nowhere in `b0`.
proof fn lemma_rename_clears(b0: Seq<u8>, c: Seq<u8>, lo: int, i: int, stop: int)
    requires
        0 <= lo <= i,
        c.len() == b0.len(),
        forall|k: int| 0 <= k < c.len() ==> #[trigger] c[k] == b0[k] || free_byte(c[k]),
        forall|k: int| i + 3 <= k < c.len() ==> #[trigger] c[k] == b0[k],
        forall|j: int| lo <= j < i ==> !#[trigger] has_at(c, j, exif_tag()),
        forall|j: int| !#[trigger] has_at(b0, j, exi_exif()),
    ensures
        forall|j: int| lo <= j < stop ==> !#[trigger] has_at(rename_exif_from(c, i, stop), j, exif_tag()),
    decreases stop - i,
{
    if i < stop {
        let hit = has_at(c, i, exif_tag());
        let c1 = if hit {
            c.subrange(0, i) + free_tag() + c.subrange(i + 4, c.len() as int)
        } else {
            c
        };
        assert(c1.len() == c.len());
        assert forall|k: int| 0 <= k < c1.len() implies #[trigger] c1[k] == if hit && i <= k < i + 4 {
            free_tag()[k - i]
        } else {
            c[k]
        } by {
            if hit {
                if k < i {
                    assert(c1[k] == c.subrange(0, i)[k]);
                } else if k < i + 4 {
                    assert(c1[k] == free_tag()[k - i]);
                } else {
                    assert(c1[k] == c.subrange(i + 4, c.len() as int)[k - i - 4]);
                }
            }
        }
        assert forall|k: int| 0 <= k < c1.len() implies #[trigger] c1[k] == b0[k] || free_byte(c1[k]) by {
            if hit && i <= k < i + 4 {
                assert(free_tag()[k - i] == c1[k]);
            } else {
                assert(c1[k] == c[k]);
            }
        }
        assert forall|k: int| i + 1 + 3 <= k < c1.len() implies #[trigger] c1[k] == b0[k] by {
            assert(c1[k] == c[k]);
        }
        assert forall|j: int| lo <= j < i + 1 implies !#[trigger] has_at(c1, j, exif_tag()) by {
            if has_at(c1, j, exif_tag()) {
                let w = c1.subrange(j, j + 4);
                assert(w == exif_tag());
                assert(w[0] == 0x45 && w[1] == 0x78 && w[2] == 0x69 && w[3] == 0x66);
                assert(w[0] == c1[j] && w[1] == c1[j + 1] && w[2] == c1[j + 2] && w[3] == c1[j + 3]);
                if !hit {
                    assert(c1 == c);
                    assert(has_at(c, j, exif_tag()));
                    assert(j == i);
                } else if j == i {
                    assert(c1[i] == free_tag()[0]);
                } else if j <= i - 4 {
                    assert(c[j] == c1[j] && c[j + 1] == c1[j + 1] && c[j + 2] == c1[j + 2] && c[j + 3] == c1[j + 3]);
                    assert(c.subrange(j, j + 4) =~= w);
                    assert(has_at(c, j, exif_tag()));
                } else if j == i - 1 {
                    assert(c1[i] == free_tag()[0]);
                } else if j == i - 2 {
                    assert(c1[i] == free_tag()[0]);
                } else {
                    // j == i - 3: a new `Exif` here needs `Exi` before the renamed one.
                    assert(j == i - 3);
                    assert(c1[i] == free_tag()[0]);
                    assert(c[j] == c1[j] && c[j + 1] == c1[j + 1] && c[j + 2] == c1[j + 2]);
                    assert(c[j] == b0[j] && c[j + 1] == b0[j + 1] && c[j + 2] == b0[j + 2]);
                    let v = c.subrange(i, i + 4);
                    assert(v == exif_tag());
                    assert(v[0] == c[i] && v[1] == c[i + 1] && v[2] == c[i + 2] && v[3] == c[i + 3]);
                    assert(c[i] == b0[i] && c[i + 1] == b0[i + 1] && c[i + 2] == b0[i + 2] && c[i + 3] == b0[i + 3]);
                    assert(b0.subrange(j, j + 7) =~= exi_exif());
                    assert(has_at(b0, j, exi_exif()));
                }
            }
        }
        lemma_rename_clears(b0, c1, lo, i + 1, stop);
        assert(rename_exif_from(c, i, stop) == rename_exif_from(c1, i + 1, stop));
    }
}

/// No box of the kind: none is found.
proof fn lemma_no_box_of_kind(bs: Seq<(Seq<u8>, int, int)>, kind: Seq<u8>, i: int)
    requires
        forall|k: int| 0 <= k < bs.len() ==> (#[trigger] bs[k]).0 != kind,
    ensures
        first_of_kind(bs, kind, i) is None,
    decreases bs.len() - i,
{
    if 0 <= i < bs.len() {
        lemma_no_box_of_kind(bs, kind, i + 1);
    }
}

/// The type of the `k`-th box walked from `pos` is the four bytes after the
/// size field of a header that lies inside `pos..limit`.
proof fn lemma_box_type_at(b: Seq<u8>, pos: int, limit: int, k: int) -> (h: int)
    requires
        0 <= k < boxes_from(b, pos, limit).len(),
    ensures
        pos <= h,
        h + 8 <= limit,
        boxes_from(b, pos, limit)[k].0 == b.subrange(h + 4, h + 8),
    decreases limit - pos,
{
    let bx = box_at(b, pos, limit)->0;
    assert(boxes_from(b, pos, limit)[0] == bx);
    if k == 0 {
        pos
    } else {
        assert(boxes_from(b, pos, limit)[k] == boxes_from(b, bx.2, limit)[k - 1]);
        lemma_box_type_at(b, bx.2, limit, k - 1)
    }
}

/// Complete removal from a HEIC file leaves no `Exif` box, and doing it a
/// second time changes nothing, when the bytes `ExiExif` occur nowhere in
/// it (renaming `Exif` to `free` left to right would otherwise complete a
/// new `Exif` right before a renamed one).
pub proof fn lemma_strip_all_heic_idempotent(b: Seq<u8>)
    requires
        forall|j: int| !#[trigger] has_at(b, j, exi_exif()),
    ensures
        spec_exif_box_payload(spec_strip_all_heic(b)) is None,
        spec_strip_all_heic(spec_strip_all_heic(b)) == spec_strip_all_heic(b),
{
    let b1 = match spec_exif_box_payload(b) {
        Some((s, e)) => zeroed(b, s, e),
        None => b,
    };
    let b2 = blank_tiff_blocks(b1);
    let out = spec_strip_all_heic(b);
    lemma_blank_only_zeroes(b1);
    lemma_blank_leaves_no_header(b1);
    assert forall|k: int| 0 <= k < b.len() implies #[trigger] b2[k] == b[k] || b2[k] == 0 by {
        assert(b2[k] == b1[k] || b2[k] == 0);
        assert(b1[k] == b[k] || b1[k] == 0);
    }
    assert forall|j: int| !#[trigger] has_at(b2, j, exi_exif()) by {
        if has_at(b2, j, exi_exif()) {
            let w = b2.subrange(j, j + 7);
            assert(w == exi_exif());
            assert(w[0] == 0x45 && w[1] == 0x78 && w[2] == 0x69 && w[3] == 0x45 && w[4] == 0x78 && w[5] == 0x69
                && w[6] == 0x66);
            assert forall|t: int| 0 <= t < 7 implies #[trigger] w[t] == b.subrange(j, j + 7)[t] by {
                assert(w[t] == b2[j + t]);
                assert(w[t] != 0);
            }
            assert(w =~= b.subrange(j, j + 7));
            assert(has_at(b, j, exi_exif()));
        }
    }
    lemma_strip_all_heic_leaves_no_tiff(b);
    lemma_find_tiff_header(out);
    assert(blank_tiff_blocks(out) == out);
    match spec_meta_payload(b2) {
        None => {
            assert(out == b2);
            assert(spec_exif_box_payload(out) is None);
        },
        Some((ms, me)) => {
            let top = boxes_from(b2, 0, b2.len() as int);
            let mi = lemma_first_of_kind_index(top, meta_tag(), 0);
            lemma_boxes_bounds(b2, 0, b2.len() as int);
            assert(out == rename_exif_from(b2, ms, me - 3));
            lemma_rename_frame(b2, ms, me - 3);
            lemma_rename_clears(b2, b2, ms, ms, me - 3);
            lemma_boxes_same_outside(out, b2, 0, b2.len() as int, ms, me, mi);
            assert(spec_meta_payload(out) == Some((ms, me)));
            let kids = boxes_from(out, ms + 4, me);
            lemma_boxes_bounds(out, ms + 4, me);
            assert forall|k: int| 0 <= k < kids.len() implies (#[trigger] kids[k]).0 != exif_tag() by {
                let h = lemma_box_type_at(out, ms + 4, me, k);
                if kids[k].0 == exif_tag() {
                    assert(has_at(out, h + 4, exif_tag()));
                }
            }
            lemma_no_box_of_kind(kids, exif_tag(), 0);
            assert(spec_exif_box_payload(out) is None);
            lemma_rename_noop(out, ms, me - 3);
        },
    }
}

/// The bytes of a HEIC file's `ftyp` type and brand.
proof fn lemma_heic_head_bytes(x: Seq<u8>)
    requires
        spec_is_heic_bytes(x),
    ensures
        x[4] == 0x66 && x[5] == 0x74 && x[6] == 0x79 && x[7] == 0x70,
        x[8] == 0x68 || x[8] == 0x6D,
        x[11] == 0x63 || x[11] == 0x78 || x[11] == 0x6D || x[11] == 0x73 || x[11] == 0x31,
{
    let t = x[4] as int * 16777216 + x[5] as int * 65536 + x[6] as int * 256 + x[7] as int;
    let v = x[8] as int * 16777216 + x[9] as int * 65536 + x[10] as int * 256 + x[11] as int;
    assert(u32_at(x, 4, false) == t);
    assert(u32_at(x, 8, false) == v);
}

/// Blanking a HEIC file never reaches its first twelve bytes (no TIFF
/// header can start inside `ftyp` and the brand), unless the file itself
/// starts with one.
proof fn lemma_blank_keeps_head(x: Seq<u8>)
    requires
        spec_is_heic_bytes(x),
        !bare_tiff_at(x, 0),
    ensures
        blank_tiff_blocks(x).len() == x.len(),
        forall|k: int| 0 <= k < 12 ==> #[trigger] blank_tiff_blocks(x)[k] == x[k],
    decreases nonzero_count(x),
{
    lemma_blank_only_zeroes(x);
    if let Some(start) = spec_find_tiff_header(x) {
        lemma_blank_step(x, start);
        lemma_find_tiff_header(x);
        lemma_heic_head_bytes(x);
        let w = x.subrange(start, start + 4);
        assert(bare_tiff_at(x, start));
        assert(w[0] == x[start] && w[1] == x[start + 1] && w[2] == x[start + 2] && w[3] == x[start + 3]);
        assert(start >= 12) by {
            if start < 12 {
                if start >= 1 && start <= 4 {
                    assert(w[4 - start] == x[4]);
                } else if start >= 5 && start <= 8 {
                    assert(w[8 - start] == x[8]);
                } else if start >= 9 {
                    assert(w[11 - start] == x[11]);
                }
            }
        }
        let z = zeroed(x, start, blank_end(x, start));
        assert forall|k: int| 0 <= k < 12 implies #[trigger] z[k] == x[k] by {}
        assert(u32_at(z, 4, false) == u32_at(x, 4, false) && u32_at(z, 8, false) == u32_at(x, 8, false));
        assert(z.subrange(0, 4) =~= x.subrange(0, 4));
        lemma_blank_keeps_head(z);
    }
}

/// Complete removal from a HEIC file that is not also a TIFF keeps its
/// first twelve bytes (its `ftyp` type and brand) and its length.
pub proof fn lemma_strip_all_heic_keeps_head(b: Seq<u8>)
    requires
        spec_is_heic_bytes(b),
        !spec_is_tiff(b),
    ensures
        spec_strip_all_heic(b).len() == b.len(),
        forall|k: int| 0 <= k < 12 ==> #[trigger] spec_strip_all_heic(b)[k] == b[k],
{
    let b1 = match spec_exif_box_payload(b) {
        Some((s, e)) => zeroed(b, s, e),
        None => b,
    };
    if spec_exif_box_payload(b) is Some {
        lemma_exif_box_kept(b, b);
    }
    assert forall|k: int| 0 <= k < 12 implies #[trigger] b1[k] == b[k] by {}
    assert(b1.len() == b.len());
    assert(u32_at(b1, 4, false) == u32_at(b, 4, false) && u32_at(b1, 8, false) == u32_at(b, 8, false));
    assert(b1.subrange(0, 4) =~= b.subrange(0, 4));
    assert(!bare_tiff_at(b1, 0));
    lemma_blank_keeps_head(b1);
    let b2 = blank_tiff_blocks(b1);
    lemma_strip_all_heic_leaves_no_tiff(b);
    if let Some((ms, me)) = spec_meta_payload(b2) {
        let top = boxes_from(b2, 0, b2.len() as int);
        let mi = lemma_first_of_kind_index(top, meta_tag(), 0);
        lemma_boxes_bounds(b2, 0, b2.len() as int);
        let h = lemma_box_type_at(b2, 0, b2.len() as int, mi);
        lemma_heic_head_bytes(b);
        if mi == 0 {
            let bx = box_at(b2, 0, b2.len() as int)->0;
            assert(top[0] == bx);
            assert(bx.0 == b2.subrange(4, 8));
            assert(b2.subrange(4, 8)[0] == b2[4]);
            assert(meta_tag()[0] == 0x6D);
        } else {
            let bx = box_at(b2, 0, b2.len() as int)->0;
            assert(top[0] == bx);
            lemma_boxes_bounds(b2, bx.2, b2.len() as int);
            assert(top[mi] == boxes_from(b2, bx.2, b2.len() as int)[mi - 1]);
        }
        assert(ms >= 16);
        lemma_rename_frame(b2, ms, me - 3);
    }
}

} // verus!
