//! Grafting the IFD0 tags and sub-IFDs of a source EXIF block onto an
//! encoded TIFF: a new IFD0 is appended that merges the output's entries with
//! the source's, and the source block is appended with its offsets moved by
//! the distance it travelled.
use vstd::prelude::*;
use crate::bytes::{
    bytes16, bytes32, extend_range, lemma_read_after_write32, push_u16, push_u32, put32, rd16, rd32, read_u16, read_u32,
    to_vec, u16_at, u32_at, write_u32,
};
use crate::error::BatImgError;
use crate::exif::heic::opt_bytes;
use crate::exif::tiff::{tiff_byte_order, tiff_order};

verus! {

/// The 12-byte entries among the first `n` entries of the IFD at `ifd` that
/// lie inside `b`, in order.
pub open spec fn entries_upto(b: Seq<u8>, ifd: int, n: int) -> Seq<Seq<u8>>
    decreases n,
{
    if n <= 0 {
        Seq::empty()
    } else {
        let r = entries_upto(b, ifd, n - 1);
        let es = ifd + 2 + 12 * (n - 1);
        if 0 <= es && es + 12 <= b.len() {
            r.push(b.subrange(es, es + 12))
        } else {
            r
        }
    }
}

/// The tag of a 12-byte entry.
pub open spec fn etag(e: Seq<u8>, le: bool) -> u16 {
    u16_at(e, 0, le)
}

pub open spec fn ev(v: Seq<Vec<u8>>) -> Seq<Seq<u8>> {
    v.map_values(|e: Vec<u8>| e@)
}

/// Every entry is twelve bytes long.
pub open spec fn all_entries(s: Seq<Seq<u8>>) -> bool {
    forall|k: int| 0 <= k < s.len() ==> (#[trigger] s[k]).len() == 12
}

/// Tags taken from the source even when the output already has them:
/// Orientation and ExifOffset.
pub open spec fn override_tag(t: u16) -> bool {
    t == 0x0112 || t == 0x8769
}

/// Tags whose value is the offset of another IFD: SubIFDs, ExifOffset,
/// GPSInfo, InteroperabilityOffset.
pub open spec fn ifd_pointer_tag(t: u16) -> bool {
    t == 0x014A || t == 0x8769 || t == 0x8825 || t == 0xA005
}

fn is_ifd_pointer_tag(t: u16) -> (r: bool)
    ensures
        r == ifd_pointer_tag(t),
{
    t == 0x014A || t == 0x8769 || t == 0x8825 || t == 0xA005
}

/// Does some entry of `s` carry tag `t`?
pub open spec fn has_tag(s: Seq<Seq<u8>>, t: u16, le: bool) -> bool {
    exists|k: int| 0 <= k < s.len() && etag(#[trigger] s[k], le) == t
}

/// The entries of the IFD at `ifd` (count `count`), as a vector.
fn collect_entries(b: &[u8], ifd: u64, count: u64) -> (r: Vec<Vec<u8>>)
    requires
        ifd <= u32::MAX,
        count <= u32::MAX,
    ensures
        ev(r@) == entries_upto(b@, ifd as int, count as int),
        all_entries(ev(r@)),
{
    let mut out: Vec<Vec<u8>> = Vec::new();
    let mut i: u64 = 0;
    while i < count
        invariant
            ifd <= u32::MAX,
            count <= u32::MAX,
            i <= count,
            ev(out@) == entries_upto(b@, ifd as int, i as int),
            all_entries(ev(out@)),
        decreases count - i,
    {
        let es = ifd + 2 + 12 * i;
        if es <= b.len() as u64 && b.len() as u64 - es >= 12 {
            let mut e: Vec<u8> = Vec::new();
            crate::bytes::extend_range(&mut e, b, es as usize, (es + 12) as usize);
            let ghost before = ev(out@);
            out.push(e);
            assert(ev(out@) =~= before.push(b@.subrange(es as int, es + 12)));
        } else {
            assert(ev(out@) =~= entries_upto(b@, ifd as int, i + 1));
        }
        i = i + 1;
    }
    out
}

fn entry_tag(e: &Vec<u8>, le: bool) -> (r: u16)
    requires
        e@.len() == 12,
    ensures
        r == etag(e@, le),
{
    read_u16(e, 0, le).unwrap()
}

/// Whether some entry of `v` has tag `t`.
fn any_tag(v: &Vec<Vec<u8>>, t: u16, le: bool) -> (r: bool)
    requires
        all_entries(ev(v@)),
    ensures
        r == has_tag(ev(v@), t, le),
{
    let mut k: usize = 0;
    while k < v.len()
        invariant
            all_entries(ev(v@)),
            k <= v@.len(),
            forall|j: int| 0 <= j < k ==> etag(#[trigger] ev(v@)[j], le) != t,
        decreases v.len() - k,
    {
        assert(ev(v@)[k as int] == v@[k as int]@);
        if entry_tag(&v[k], le) == t {
            return true;
        }
        k = k + 1;
    }
    false
}

/// An override tag, or a tag missing from `out_entries`.
pub open spec fn wanted(le: bool, out_entries: Seq<Seq<u8>>) -> spec_fn(Seq<u8>) -> bool {
    |e: Seq<u8>| override_tag(etag(e, le)) || !has_tag(out_entries, etag(e, le), le)
}

/// The source's IFD0 entries to graft: each one whose tag is an override tag
/// or is missing from `out_entries`.
pub open spec fn source_additions(x: Seq<u8>, le: bool, out_entries: Seq<Seq<u8>>) -> Seq<Seq<u8>> {
    match rd32(x, 4, le) {
        Some(x0) => match rd16(x, x0 as int, le) {
            Some(c) => entries_upto(x, x0 as int, c as int).filter(wanted(le, out_entries)),
            None => Seq::empty(),
        },
        None => Seq::empty(),
    }
}

fn collect_additions(x: &[u8], le: bool, out_entries: &Vec<Vec<u8>>) -> (r: Vec<Vec<u8>>)
    requires
        all_entries(ev(out_entries@)),
    ensures
        ev(r@) == source_additions(x@, le, ev(out_entries@)),
        all_entries(ev(r@)),
{
    let ghost oe = ev(out_entries@);
    let ghost pred = wanted(le, oe);
    let x0 = match read_u32(x, 4, le) {
        Some(v) => v as u64,
        None => return Vec::new(),
    };
    let c = match read_u16(x, x0, le) {
        Some(v) => v as u64,
        None => return Vec::new(),
    };
    let all = collect_entries(x, x0, c);
    let mut out: Vec<Vec<u8>> = Vec::new();
    let mut i: usize = 0;
    assert(ev(all@).subrange(0, 0).filter(pred) =~= Seq::<Seq<u8>>::empty()) by {
        reveal(Seq::filter);
    }
    while i < all.len()
        invariant
            all_entries(ev(all@)),
            all_entries(oe),
            oe == ev(out_entries@),
            pred == wanted(le, oe),
            i <= all@.len(),
            ev(out@) == ev(all@).subrange(0, i as int).filter(pred),
            all_entries(ev(out@)),
        decreases all.len() - i,
    {
        let ghost sub = ev(all@).subrange(0, i as int);
        proof {
            assert(ev(all@).subrange(0, i + 1) =~= sub.push(ev(all@)[i as int]));
            sub.lemma_filter_push(ev(all@)[i as int], pred);
            assert(ev(all@)[i as int] == all@[i as int]@);
        }
        let t = entry_tag(&all[i], le);
        let present = any_tag(out_entries, t, le);
        assert(pred(ev(all@)[i as int]) == (t == 0x0112 || t == 0x8769 || !present));
        if t == 0x0112 || t == 0x8769 || !present {
            let ghost before = ev(out@);
            out.push(to_vec(all[i].as_slice()));
            assert(ev(out@) =~= before.push(ev(all@)[i as int]));
        }
        i = i + 1;
    }
    assert(ev(all@).subrange(0, all@.len() as int) =~= ev(all@));
    out
}

/// Entries of `s` whose tag no entry of `adds` carries.
pub open spec fn not_replaced(le: bool, adds: Seq<Seq<u8>>) -> spec_fn(Seq<u8>) -> bool {
    |e: Seq<u8>| !has_tag(adds, etag(e, le), le)
}

fn drop_replaced(entries: &Vec<Vec<u8>>, adds: &Vec<Vec<u8>>, le: bool) -> (r: Vec<Vec<u8>>)
    requires
        all_entries(ev(entries@)),
        all_entries(ev(adds@)),
    ensures
        ev(r@) == ev(entries@).filter(not_replaced(le, ev(adds@))),
        all_entries(ev(r@)),
{
    let ghost pred = not_replaced(le, ev(adds@));
    let mut out: Vec<Vec<u8>> = Vec::new();
    let mut i: usize = 0;
    assert(ev(entries@).subrange(0, 0).filter(pred) =~= Seq::<Seq<u8>>::empty()) by {
        reveal(Seq::filter);
    }
    while i < entries.len()
        invariant
            all_entries(ev(entries@)),
            all_entries(ev(adds@)),
            pred == not_replaced(le, ev(adds@)),
            i <= entries@.len(),
            ev(out@) == ev(entries@).subrange(0, i as int).filter(pred),
            all_entries(ev(out@)),
        decreases entries.len() - i,
    {
        let ghost sub = ev(entries@).subrange(0, i as int);
        proof {
            assert(ev(entries@).subrange(0, i + 1) =~= sub.push(ev(entries@)[i as int]));
            sub.lemma_filter_push(ev(entries@)[i as int], pred);
            assert(ev(entries@)[i as int] == entries@[i as int]@);
        }
        let t = entry_tag(&entries[i], le);
        if !any_tag(adds, t, le) {
            let ghost before = ev(out@);
            out.push(to_vec(entries[i].as_slice()));
            assert(ev(out@) =~= before.push(ev(entries@)[i as int]));
        }
        i = i + 1;
    }
    assert(ev(entries@).subrange(0, entries@.len() as int) =~= ev(entries@));
    out
}

/// Bytes per value of a field type (0 for an unknown type).
pub open spec fn size_code(typ: u16) -> u32 {
    if typ == 1 || typ == 2 || typ == 6 || typ == 7 {
        1
    } else if typ == 3 || typ == 8 {
        2
    } else if typ == 4 || typ == 9 || typ == 11 {
        4
    } else if typ == 5 || typ == 10 || typ == 12 {
        8
    } else {
        0
    }
}

pub open spec fn sat_mul(a: u32, b: u32) -> u32 {
    if a * b > u32::MAX {
        u32::MAX
    } else {
        (a * b) as u32
    }
}

pub open spec fn sat_add(a: u32, b: u32) -> u32 {
    if a + b > u32::MAX {
        u32::MAX
    } else {
        (a + b) as u32
    }
}

pub open spec fn sat_sub(a: u32, b: u32) -> u32 {
    if a < b {
        0
    } else {
        (a - b) as u32
    }
}

fn type_size_code(typ: u16) -> (r: u32)
    ensures
        r == size_code(typ),
{
    if typ == 1 || typ == 2 || typ == 6 || typ == 7 {
        1
    } else if typ == 3 || typ == 8 {
        2
    } else if typ == 4 || typ == 9 || typ == 11 {
        4
    } else if typ == 5 || typ == 10 || typ == 12 {
        8
    } else {
        0
    }
}

fn saturating_mul_u32(a: u32, b: u32) -> (r: u32)
    ensures
        r == sat_mul(a, b),
{
    assert((a as u64) * (b as u64) <= 0xFFFF_FFFFu64 * 0xFFFF_FFFFu64) by (nonlinear_arith)
        requires
            a <= 0xFFFF_FFFFu32,
            b <= 0xFFFF_FFFFu32,
    ;
    let p = (a as u64) * (b as u64);
    if p > 0xFFFF_FFFF {
        0xFFFF_FFFF
    } else {
        p as u32
    }
}

fn saturating_add_u32(a: u32, b: u32) -> (r: u32)
    ensures
        r == sat_add(a, b),
{
    let p = (a as u64) + (b as u64);
    if p > 0xFFFF_FFFF {
        0xFFFF_FFFF
    } else {
        p as u32
    }
}

/// Total byte size of the value of the entry at `e`, saturating at `u32::MAX`.
pub open spec fn value_total(x: Seq<u8>, e: int, le: bool) -> u32 {
    let typ = match rd16(x, e + 2, le) {
        Some(t) => t,
        None => 0u16,
    };
    let cnt = match rd32(x, e + 4, le) {
        Some(c) => c,
        None => 0u32,
    };
    sat_mul(cnt, size_code(typ))
}

fn read_value_total(x: &[u8], e: u64, le: bool) -> (r: u32)
    requires
        e <= 0x2_0000_0000,
    ensures
        r == value_total(x@, e as int, le),
{
    let typ = match read_u16(x, e + 2, le) {
        Some(t) => t,
        None => 0,
    };
    let cnt = match read_u32(x, e + 4, le) {
        Some(c) => c,
        None => 0,
    };
    saturating_mul_u32(cnt, type_size_code(typ))
}

/// A grafted IFD0 entry: an out-of-line value offset, or an IFD pointer,
/// moved by `delta` (saturating).
pub open spec fn rebase_entry(e: Seq<u8>, delta: u32, le: bool) -> Seq<u8> {
    if value_total(e, 0, le) > 4 || ifd_pointer_tag(etag(e, le)) {
        put32(e, 8, sat_add(u32_at(e, 8, le), delta), le)
    } else {
        e
    }
}

fn rebase(e: &mut Vec<u8>, delta: u32, le: bool)
    requires
        old(e)@.len() == 12,
    ensures
        final(e)@ == rebase_entry(old(e)@, delta, le),
        final(e)@.len() == 12,
{
    let total = read_value_total(e, 0, le);
    let tag = entry_tag(e, le);
    if total > 4 || is_ifd_pointer_tag(tag) {
        let v = read_u32(e, 8, le).unwrap();
        write_u32(e, 8, saturating_add_u32(v, delta), le);
    }
}

// ---- stable sort by tag ----------------------------------------------------------

/// The first index at or after `i` whose entry's tag exceeds `t`.
pub open spec fn first_above(s: Seq<Seq<u8>>, t: u16, le: bool, i: int) -> int
    decreases s.len() - i,
{
    if i >= s.len() {
        s.len() as int
    } else if etag(s[i], le) > t {
        i
    } else {
        first_above(s, t, le, i + 1)
    }
}

/// `s` sorted by tag, entries with equal tags in the order they had in `s`.
pub open spec fn sort_by_tag(s: Seq<Seq<u8>>, le: bool) -> Seq<Seq<u8>>
    decreases s.len(),
{
    if s.len() == 0 {
        s
    } else {
        let r = sort_by_tag(s.drop_last(), le);
        r.insert(first_above(r, etag(s.last(), le), le, 0), s.last())
    }
}

proof fn lemma_first_above_bounds(s: Seq<Seq<u8>>, t: u16, le: bool, i: int)
    requires
        0 <= i <= s.len(),
    ensures
        i <= first_above(s, t, le, i) <= s.len(),
    decreases s.len() - i,
{
    if i < s.len() && etag(s[i], le) <= t {
        lemma_first_above_bounds(s, t, le, i + 1);
    }
}

proof fn lemma_sort_len(s: Seq<Seq<u8>>, le: bool)
    ensures
        sort_by_tag(s, le).len() == s.len(),
        all_entries(s) ==> all_entries(sort_by_tag(s, le)),
    decreases s.len(),
{
    if s.len() > 0 {
        lemma_sort_len(s.drop_last(), le);
        let r = sort_by_tag(s.drop_last(), le);
        lemma_first_above_bounds(r, etag(s.last(), le), le, 0);
        if all_entries(s) {
            let p = first_above(r, etag(s.last(), le), le, 0);
            assert forall|k: int| 0 <= k < r.insert(p, s.last()).len() implies (#[trigger] r.insert(p, s.last())[k]).len() == 12 by {
                if k < p {
                    assert(r.insert(p, s.last())[k] == r[k]);
                } else if k > p {
                    assert(r.insert(p, s.last())[k] == r[k - 1]);
                }
            }
        }
    }
}

/// Sort entries by tag, keeping entries with equal tags in order.
fn sort_entries(v: &Vec<Vec<u8>>, le: bool) -> (r: Vec<Vec<u8>>)
    requires
        all_entries(ev(v@)),
    ensures
        ev(r@) == sort_by_tag(ev(v@), le),
        all_entries(ev(r@)),
{
    let ghost s = ev(v@);
    let mut sorted: Vec<Vec<u8>> = Vec::new();
    let mut i: usize = 0;
    assert(s.subrange(0, 0) =~= Seq::<Seq<u8>>::empty());
    while i < v.len()
        invariant
            s == ev(v@),
            all_entries(s),
            i <= s.len(),
            ev(sorted@) == sort_by_tag(s.subrange(0, i as int), le),
            all_entries(ev(sorted@)),
        decreases v.len() - i,
    {
        let ghost r = ev(sorted@);
        assert(s[i as int] == v@[i as int]@);
        let t = entry_tag(&v[i], le);
        let mut k: usize = 0;
        while k < sorted.len() && entry_tag(&sorted[k], le) <= t
            invariant
                r == ev(sorted@),
                all_entries(r),
                k <= r.len(),
                first_above(r, t, le, 0) == first_above(r, t, le, k as int),
            decreases sorted.len() - k,
        {
            assert(r[k as int] == sorted@[k as int]@);
            k = k + 1;
        }
        if k < sorted.len() {
            assert(r[k as int] == sorted@[k as int]@);
        }
        assert(first_above(r, t, le, 0) == k);
        proof {
            assert(s.subrange(0, i + 1).drop_last() =~= s.subrange(0, i as int));
            assert(s.subrange(0, i + 1).last() == s[i as int]);
            lemma_sort_len(s.subrange(0, i + 1), le);
        }
        let e = to_vec(v[i].as_slice());
        sorted.insert(k, e);
        assert(ev(sorted@) =~= r.insert(k as int, s[i as int]));
        i = i + 1;
    }
    assert(s.subrange(0, s.len() as int) =~= s);
    sorted
}

// ---- moving the offsets of the appended source block ------------------------------

/// Entries `j..cnt` of an array of IFD offsets at `orig`: each readable one
/// is queued and moved by `delta`.  `None` when a moved offset overflows 32 bits.
pub open spec fn shift_array(x: Seq<u8>, orig: int, cnt: int, le: bool, delta: u32, j: int, pending: Seq<u32>) -> Option<(Seq<u8>, Seq<u32>)>
    decreases cnt - j,
{
    if j >= cnt {
        Some((x, pending))
    } else {
        match rd32(x, orig + 4 * j, le) {
            Some(sub) => if sub + delta > u32::MAX {
                None
            } else {
                shift_array(put32(x, orig + 4 * j, (sub + delta) as u32, le), orig, cnt, le, delta, j + 1, pending.push(sub))
            },
            None => shift_array(x, orig, cnt, le, delta, j + 1, pending),
        }
    }
}

/// Entries `i..count` of the IFD at `ifd`: out-of-line value offsets move by
/// `delta` (saturating); IFD pointers are queued and moved, inline ones by
/// `delta` (saturating), arrays of them entry by entry.
pub open spec fn shift_entries(x: Seq<u8>, ifd: int, count: int, le: bool, delta: u32, i: int, pending: Seq<u32>) -> Option<(Seq<u8>, Seq<u32>)>
    decreases count - i,
{
    if i >= count {
        Some((x, pending))
    } else {
        let e = ifd + 2 + 12 * i;
        let tag = match rd16(x, e, le) {
            Some(t) => t,
            None => 0u16,
        };
        let total = value_total(x, e, le);
        let cnt = match rd32(x, e + 4, le) {
            Some(c) => c,
            None => 0u32,
        };
        let x1 = if total > 4 {
            match rd32(x, e + 8, le) {
                Some(v) => put32(x, e + 8, sat_add(v, delta), le),
                None => x,
            }
        } else {
            x
        };
        if ifd_pointer_tag(tag) {
            if total <= 4 {
                match rd32(x1, e + 8, le) {
                    Some(sub) => shift_entries(put32(x1, e + 8, sat_add(sub, delta), le), ifd, count, le, delta, i + 1, pending.push(sub)),
                    None => shift_entries(x1, ifd, count, le, delta, i + 1, pending),
                }
            } else {
                match rd32(x1, e + 8, le) {
                    Some(sv) => match shift_array(x1, sat_sub(sv, delta) as int, cnt as int, le, delta, 0, pending) {
                        Some((x2, t2)) => shift_entries(x2, ifd, count, le, delta, i + 1, t2),
                        None => None,
                    },
                    None => shift_entries(x1, ifd, count, le, delta, i + 1, pending),
                }
            }
        } else {
            shift_entries(x1, ifd, count, le, delta, i + 1, pending)
        }
    }
}

/// The walk over the IFDs of the appended source block (`pending` a stack,
/// `visited` the IFDs done): each nonzero IFD is processed once, and its
/// next-IFD pointer, when nonzero, is queued and moved by `delta`.
pub open spec fn shift_walk(x: Seq<u8>, le: bool, delta: u32, pending: Seq<u32>, visited: Seq<u32>) -> Option<Seq<u8>>
    decreases 0x1_0000_0000 - visited.len(), pending.len(),
{
    if pending.len() == 0 {
        Some(x)
    } else {
        let ifd = pending.last();
        let rest = pending.drop_last();
        if ifd == 0 || visited.contains(ifd) || visited.len() >= 0x1_0000_0000 {
            shift_walk(x, le, delta, rest, visited)
        } else {
            let v1 = visited.push(ifd);
            match rd16(x, ifd as int, le) {
                None => shift_walk(x, le, delta, rest, v1),
                Some(count) => match shift_entries(x, ifd as int, count as int, le, delta, 0, rest) {
                    None => None,
                    Some((x1, t1)) => {
                        let np = ifd + 2 + 12 * count;
                        match rd32(x1, np, le) {
                            Some(nx) => if nx > 0 {
                                if nx + delta > u32::MAX {
                                    None
                                } else {
                                    shift_walk(put32(x1, np, (nx + delta) as u32, le), le, delta, t1.push(nx), v1)
                                }
                            } else {
                                shift_walk(x1, le, delta, t1, v1)
                            },
                            None => shift_walk(x1, le, delta, t1, v1),
                        }
                    },
                },
            }
        }
    }
}

/// The source block with all its offsets moved by `delta`; `None` when a
/// moved IFD offset would not fit in 32 bits.
pub open spec fn spec_shift_offsets(x: Seq<u8>, le: bool, delta: u32) -> Option<Seq<u8>> {
    match rd32(x, 4, le) {
        Some(x0) => shift_walk(x, le, delta, seq![x0], Seq::empty()),
        None => Some(x),
    }
}

pub open spec fn opt_pair(ok: bool, x: Seq<u8>, t: Seq<u32>) -> Option<(Seq<u8>, Seq<u32>)> {
    if ok {
        Some((x, t))
    } else {
        None
    }
}

fn shift_array_exec(x: &mut Vec<u8>, orig: u64, cnt: u32, le: bool, delta: u32, pending: &mut Vec<u32>) -> (ok: bool)
    requires
        orig <= u32::MAX,
    ensures
        shift_array(old(x)@, orig as int, cnt as int, le, delta, 0, old(pending)@) == opt_pair(ok, final(x)@, final(pending)@),
        final(x)@.len() == old(x)@.len(),
{
    let mut j: u64 = 0;
    while j < cnt as u64
        invariant
            orig <= u32::MAX,
            j <= cnt,
            x@.len() == old(x)@.len(),
            shift_array(old(x)@, orig as int, cnt as int, le, delta, 0, old(pending)@) == shift_array(
                x@,
                orig as int,
                cnt as int,
                le,
                delta,
                j as int,
                pending@,
            ),
        decreases cnt - j,
    {
        let p = orig + 4 * j;
        match read_u32(x, p, le) {
            Some(sub) => {
                if sub as u64 + delta as u64 > 0xFFFF_FFFF {
                    return false;
                }
                pending.push(sub);
                write_u32(x, p, sub + delta, le);
            },
            None => {},
        }
        j = j + 1;
    }
    true
}

fn shift_entries_exec(x: &mut Vec<u8>, ifd: u64, count: u64, le: bool, delta: u32, pending: &mut Vec<u32>) -> (ok: bool)
    requires
        ifd <= u32::MAX,
        count <= u16::MAX,
    ensures
        shift_entries(old(x)@, ifd as int, count as int, le, delta, 0, old(pending)@) == opt_pair(ok, final(x)@, final(pending)@),
        final(x)@.len() == old(x)@.len(),
{
    let mut i: u64 = 0;
    while i < count
        invariant
            ifd <= u32::MAX,
            count <= u16::MAX,
            i <= count,
            x@.len() == old(x)@.len(),
            shift_entries(old(x)@, ifd as int, count as int, le, delta, 0, old(pending)@) == shift_entries(
                x@,
                ifd as int,
                count as int,
                le,
                delta,
                i as int,
                pending@,
            ),
        decreases count - i,
    {
        let e = ifd + 2 + 12 * i;
        let tag = match read_u16(x, e, le) {
            Some(t) => t,
            None => 0,
        };
        let total = read_value_total(x, e, le);
        let cnt = match read_u32(x, e + 4, le) {
            Some(c) => c,
            None => 0,
        };
        if total > 4 {
            match read_u32(x, e + 8, le) {
                Some(v) => write_u32(x, e + 8, saturating_add_u32(v, delta), le),
                None => {},
            }
        }
        if is_ifd_pointer_tag(tag) {
            if total <= 4 {
                match read_u32(x, e + 8, le) {
                    Some(sub) => {
                        pending.push(sub);
                        write_u32(x, e + 8, saturating_add_u32(sub, delta), le);
                    },
                    None => {},
                }
            } else {
                match read_u32(x, e + 8, le) {
                    Some(sv) => {
                        let orig = if sv < delta {
                            0
                        } else {
                            sv - delta
                        };
                        if !shift_array_exec(x, orig as u64, cnt, le, delta, pending) {
                            return false;
                        }
                    },
                    None => {},
                }
            }
        }
        i = i + 1;
    }
    true
}

fn contains_u32(v: &Vec<u32>, x: u32) -> (r: bool)
    ensures
        r == v@.contains(x),
{
    let mut k: usize = 0;
    while k < v.len()
        invariant
            k <= v@.len(),
            forall|j: int| 0 <= j < k ==> v@[j] != x,
        decreases v.len() - k,
    {
        if v[k] == x {
            assert(v@[k as int] == x);
            return true;
        }
        k = k + 1;
    }
    false
}

pub open spec fn u32_ints(v: Seq<u32>) -> Seq<int> {
    v.map_values(|x: u32| x as int)
}

proof fn lemma_push_distinct(v0: Seq<u32>, ifd: u32)
    requires
        u32_ints(v0).no_duplicates(),
        !v0.contains(ifd),
    ensures
        u32_ints(v0.push(ifd)).no_duplicates(),
        v0.len() < 0x1_0000_0000,
{
    let w = u32_ints(v0.push(ifd));
    assert(w =~= u32_ints(v0).push(ifd as int));
    assert(w.no_duplicates()) by {
        assert forall|i: int, j: int| 0 <= i < w.len() && 0 <= j < w.len() && i != j implies w[i] != w[j] by {
            if i == v0.len() as int {
                assert(w[j] == u32_ints(v0)[j]);
                assert(v0[j] != ifd);
            } else if j == v0.len() as int {
                assert(w[i] == u32_ints(v0)[i]);
                assert(v0[i] != ifd);
            }
        }
    }
    assert forall|k: int| 0 <= k < w.len() implies 0 <= #[trigger] w[k] < 0x1_0000_0000 by {}
    super::tiff_edit::lemma_distinct_below(w, 0x1_0000_0000);
}

/// Move every offset of the source block by `delta` (see `shift_walk`).
fn shift_offsets(src: Vec<u8>, le: bool, delta: u32) -> (r: Option<Vec<u8>>)
    ensures
        match r {
            Some(v) => spec_shift_offsets(src@, le, delta) == Some(v@),
            None => spec_shift_offsets(src@, le, delta) is None,
        },
{
    let x0 = match read_u32(&src, 4, le) {
        Some(v) => v,
        None => return Some(src),
    };
    let ghost target = shift_walk(src@, le, delta, seq![x0], Seq::empty());
    let ghost s0 = src@;
    assert(spec_shift_offsets(s0, le, delta) == target);
    let mut x = src;
    let mut pending: Vec<u32> = Vec::new();
    pending.push(x0);
    let mut visited: Vec<u32> = Vec::new();
    assert(pending@ =~= seq![x0]);
    assert(visited@ =~= Seq::<u32>::empty());
    loop
        invariant
            s0 == src@,
            spec_shift_offsets(s0, le, delta) == target,
            shift_walk(x@, le, delta, pending@, visited@) == target,
            u32_ints(visited@).no_duplicates(),
        decreases 0x1_0000_0000 - visited@.len(), pending@.len(),
    {
        let ghost t0 = pending@;
        let ghost v0 = visited@;
        let ifd = match pending.pop() {
            Some(v) => v,
            None => return Some(x),
        };
        assert(pending@ =~= t0.drop_last());
        if ifd == 0 || contains_u32(&visited, ifd) {
            continue;
        }
        proof {
            lemma_push_distinct(v0, ifd);
        }
        visited.push(ifd);
        let count = match read_u16(&x, ifd as u64, le) {
            Some(c) => c as u64,
            None => continue,
        };
        if !shift_entries_exec(&mut x, ifd as u64, count, le, delta, &mut pending) {
            return None;
        }
        let np = ifd as u64 + 2 + 12 * count;
        match read_u32(&x, np, le) {
            Some(nx) => {
                if nx > 0 {
                    if nx as u64 + delta as u64 > 0xFFFF_FFFF {
                        return None;
                    }
                    pending.push(nx);
                    write_u32(&mut x, np, nx + delta, le);
                }
            },
            None => {},
        }
    }
}

// ---- the grafted file -------------------------------------------------------------

/// `b` padded with a zero byte to an even length (IFDs start on a word boundary).
pub open spec fn pad_even(b: Seq<u8>) -> Seq<u8> {
    if b.len() % 2 == 1 {
        b.push(0)
    } else {
        b
    }
}

/// The grafted file when the source block already has the output's byte
/// order `le`.  A new IFD0 is appended to the (even-padded) output: the
/// output's IFD0 entries minus those the source replaces, plus the source's
/// wanted IFD0 entries with their offsets moved by `delta`, sorted by tag,
/// and the output's next-IFD pointer; the header points at it.  Then the
/// source block follows with all its offsets moved by `delta`, the distance
/// from the start of the file to where the source block lands (32-bit
/// arithmetic).  Nothing changes when the source adds no entry.  `None` when
/// a moved IFD offset of the source overflows 32 bits.
pub open spec fn spec_graft_same_order(out: Seq<u8>, x: Seq<u8>, le: bool) -> Option<Seq<u8>> {
    match rd32(out, 4, le) {
        None => Some(out),
        Some(o0) => match rd16(out, o0 as int, le) {
            None => Some(out),
            Some(oc) => {
                let entries = entries_upto(out, o0 as int, oc as int);
                let next_ifd = match rd32(out, o0 + 2 + 12 * oc, le) {
                    Some(v) => v,
                    None => 0u32,
                };
                let adds = source_additions(x, le, entries);
                if adds.len() == 0 {
                    Some(out)
                } else {
                    let kept = entries.filter(not_replaced(le, adds));
                    let padded = pad_even(out);
                    let delta = ((padded.len() + 2 + 12 * (kept.len() + adds.len()) + 4) % 0x1_0000_0000) as u32;
                    let table = sort_by_tag(kept + adds.map_values(|e: Seq<u8>| rebase_entry(e, delta, le)), le);
                    let head = put32(padded, 4, (padded.len() % 0x1_0000_0000) as u32, le);
                    match spec_shift_offsets(x, le, delta) {
                        None => None,
                        Some(sx) => Some(
                            head + bytes16((table.len() % 0x10000) as u16, le) + table.flatten() + bytes32(next_ifd, le) + sx,
                        ),
                    }
                }
            },
        },
    }
}

#[verifier::rlimit(40)]
fn graft_same_order(out: &[u8], x: Vec<u8>, le: bool) -> (r: Option<Vec<u8>>)
    ensures
        opt_bytes(r) == spec_graft_same_order(out@, x@, le),
{
    let mut result = to_vec(out);
    let o0 = match read_u32(out, 4, le) {
        Some(v) => v as u64,
        None => return Some(result),
    };
    let oc = match read_u16(out, o0, le) {
        Some(v) => v as u64,
        None => return Some(result),
    };
    let entries = collect_entries(out, o0, oc);
    let next_ifd = match read_u32(out, o0 + 2 + 12 * oc, le) {
        Some(v) => v,
        None => 0,
    };
    let adds = collect_additions(&x, le, &entries);
    if adds.len() == 0 {
        return Some(result);
    }
    let ghost e_s = ev(entries@);
    let ghost a_s = ev(adds@);
    let kept = drop_replaced(&entries, &adds, le);
    if result.len() % 2 == 1 {
        result.push(0);
    }
    assert(result@ == pad_even(out@));
    let final_count = kept.len() as u128 + adds.len() as u128;
    let delta = ((result.len() as u128 + 2 + 12 * final_count + 4) % 0x1_0000_0000) as u32;
    let mut combined = kept;
    let ghost k_s = ev(combined@);
    let mut i: usize = 0;
    while i < adds.len()
        invariant
            all_entries(ev(adds@)),
            all_entries(ev(combined@)),
            a_s == ev(adds@),
            i <= adds@.len(),
            ev(combined@) == k_s + a_s.subrange(0, i as int).map_values(|e: Seq<u8>| rebase_entry(e, delta, le)),
        decreases adds.len() - i,
    {
        assert(a_s[i as int] == adds@[i as int]@);
        let mut e = to_vec(adds[i].as_slice());
        rebase(&mut e, delta, le);
        let ghost before = ev(combined@);
        combined.push(e);
        assert(a_s.subrange(0, i + 1).map_values(|e: Seq<u8>| rebase_entry(e, delta, le)) =~= a_s.subrange(0, i as int).map_values(
            |e: Seq<u8>| rebase_entry(e, delta, le),
        ).push(rebase_entry(a_s[i as int], delta, le)));
        assert(ev(combined@) =~= before.push(rebase_entry(a_s[i as int], delta, le)));
        i = i + 1;
    }
    assert(a_s.subrange(0, a_s.len() as int) =~= a_s);
    let table = sort_entries(&combined, le);
    proof {
        lemma_sort_len(ev(combined@), le);
    }
    let head_len = (result.len() as u128 % 0x1_0000_0000) as u32;
    write_u32(&mut result, 4, head_len, le);
    push_u16(&mut result, (table.len() % 0x10000) as u16, le);
    let ghost t_s = ev(table@);
    let ghost base = result@;
    let mut k: usize = 0;
    assert(t_s.subrange(0, 0).flatten() =~= Seq::<u8>::empty());
    while k < table.len()
        invariant
            t_s == ev(table@),
            all_entries(t_s),
            k <= t_s.len(),
            result@ == base + t_s.subrange(0, k as int).flatten(),
        decreases table.len() - k,
    {
        proof {
            assert(t_s.subrange(0, k + 1) =~= t_s.subrange(0, k as int).push(t_s[k as int]));
            t_s.subrange(0, k as int).lemma_flatten_push(t_s[k as int]);
            assert(t_s[k as int] == table@[k as int]@);
        }
        extend_range(&mut result, table[k].as_slice(), 0, table[k].len());
        assert(table@[k as int]@.subrange(0, table@[k as int]@.len() as int) =~= table@[k as int]@);
        k = k + 1;
    }
    assert(t_s.subrange(0, t_s.len() as int) =~= t_s);
    push_u32(&mut result, next_ifd, le);
    let sx = match shift_offsets(x, le, delta) {
        Some(v) => v,
        None => return None,
    };
    extend_range(&mut result, sx.as_slice(), 0, sx.len());
    assert(sx@.subrange(0, sx@.len() as int) =~= sx@);
    Some(result)
}

/// Name for what kamadak-exif makes of a TIFF/EXIF block when it parses it
/// (`Reader::read_raw`, keeping a partial result) and writes every parsed
/// field back (`experimental::Writer::write`) in the given byte order;
/// `None` when either step fails.
pub uninterp spec fn exif_reencoded(tiff: Seq<u8>, little_endian: bool) -> Option<Seq<u8>>;

/// Re-serialize a TIFF EXIF block in the requested byte order with
/// kamadak-exif's reader and writer.
#[verifier::external_body]
fn reencode_exif_tiff(tiff: &[u8], little_endian: bool) -> (r: Option<Vec<u8>>)
    ensures
        opt_bytes(r) == exif_reencoded(tiff@, little_endian),
{
    let mut reader = ::exif::Reader::new();
    reader.continue_on_error(true);
    let parsed = reader.read_raw(tiff.to_vec()).or_else(|e| e.distill_partial_result(|_| {})).ok()?;
    let mut writer = ::exif::experimental::Writer::new();
    for field in parsed.fields() {
        writer.push_field(field);
    }
    let mut buf = std::io::Cursor::new(Vec::new());
    writer.write(&mut buf, little_endian).ok()?;
    Some(buf.into_inner())
}

/// The output TIFF with the source EXIF block grafted on (see
/// `spec_graft_same_order`); a source in the other byte order is first
/// re-encoded.  Outputs that are not TIFF, and sources without a byte-order
/// mark, leave the output unchanged.  `None` when the re-encoding fails or a
/// moved offset overflows.
pub open spec fn spec_inject_exif_into_tiff(out: Seq<u8>, x: Seq<u8>) -> Option<Seq<u8>> {
    if out.len() < 8 {
        Some(out)
    } else {
        match tiff_order(out) {
            None => Some(out),
            Some(le) => match tiff_order(x) {
                None => Some(out),
                Some(xle) => {
                    let src = if le != xle {
                        exif_reencoded(x, le)
                    } else {
                        Some(x)
                    };
                    match src {
                        None => None,
                        Some(sx) => spec_graft_same_order(out, sx, le),
                    }
                },
            },
        }
    }
}

/// The inputs on which grafting reads the source's byte-order mark: an
/// output TIFF needs a source of at least two bytes.
pub open spec fn inject_tiff_input_ok(out: Seq<u8>, x: Seq<u8>) -> bool {
    out.len() >= 8 && tiff_order(out) is Some ==> x.len() >= 2
}

/// The output grafted on is unchanged, or else it gains a new IFD0 at the
/// first even offset at or after the end of its data, the header points
/// there, and every other byte of the output stays where it was.
pub open spec fn appends_aligned_ifd0(out: Seq<u8>, r: Seq<u8>) -> bool {
    let p = pad_even(out).len();
    r == out || {
        &&& p % 2 == 0
        &&& out.len() <= p <= out.len() + 1
        &&& r.len() > p
        &&& tiff_order(r) == tiff_order(out)
        &&& rd32(r, 4, tiff_order(out)->0) == Some(p as u32)
        &&& forall|k: int| 0 <= k < out.len() && !(4 <= k < 8) ==> #[trigger] r[k] == out[k]
    }
}

/// A graft that changes the output is the padded output with its IFD0
/// pointer rewritten, followed by whatever the graft appends.
#[verifier::rlimit(60)]
#[verifier::spinoff_prover]
proof fn lemma_graft_shape(out: Seq<u8>, x: Seq<u8>, le: bool) -> (t: Seq<u8>)
    requires
        spec_graft_same_order(out, x, le) is Some,
        spec_graft_same_order(out, x, le)->0 != out,
    ensures
        spec_graft_same_order(out, x, le)->0 == put32(
            pad_even(out),
            4,
            (pad_even(out).len() % 0x1_0000_0000) as u32,
            le,
        ) + t,
        t.len() > 0,
{
    let o0 = rd32(out, 4, le)->0;
    let oc = rd16(out, o0 as int, le)->0;
    let entries = entries_upto(out, o0 as int, oc as int);
    let adds = source_additions(x, le, entries);
    let kept = entries.filter(not_replaced(le, adds));
    let padded = pad_even(out);
    let delta = ((padded.len() + 2 + 12 * (kept.len() + adds.len()) + 4) % 0x1_0000_0000) as u32;
    let table = sort_by_tag(kept + adds.map_values(|e: Seq<u8>| rebase_entry(e, delta, le)), le);
    let next_ifd = match rd32(out, o0 + 2 + 12 * oc, le) {
        Some(w) => w,
        None => 0u32,
    };
    let sx = spec_shift_offsets(x, le, delta)->0;
    let head = put32(padded, 4, (padded.len() % 0x1_0000_0000) as u32, le);
    let t = bytes16((table.len() % 0x10000) as u16, le) + table.flatten() + bytes32(next_ifd, le) + sx;
    assert(spec_graft_same_order(out, x, le)->0 == head + bytes16((table.len() % 0x10000) as u16, le)
        + table.flatten() + bytes32(next_ifd, le) + sx);
    assert(head + bytes16((table.len() % 0x10000) as u16, le) + table.flatten() + bytes32(next_ifd, le) + sx
        =~= head + t);
    t
}

proof fn lemma_header_rewrite_appends(out: Seq<u8>, t: Seq<u8>, le: bool)
    requires
        out.len() >= 8,
        out.len() < 0xFFFF_FFFF,
        tiff_order(out) == Some(le),
        t.len() > 0,
    ensures
        appends_aligned_ifd0(
            out,
            put32(pad_even(out), 4, (pad_even(out).len() % 0x1_0000_0000) as u32, le) + t,
        ),
{
    let padded = pad_even(out);
    let p = padded.len();
    let v = (p % 0x1_0000_0000) as u32;
    assert(v == p);
    let head = put32(padded, 4, v, le);
    let r = head + t;
    lemma_read_after_write32(padded, 4, v, le);
    if r != out {
        assert(forall|k: int| 0 <= k < p ==> #[trigger] r[k] == head[k]);
        assert(forall|k: int| 0 <= k < out.len() ==> #[trigger] padded[k] == out[k]);
        assert(r[0] == out[0] && r[1] == out[1]);
        assert(tiff_order(r) == tiff_order(out));
        assert(r[4] == head[4] && r[5] == head[5] && r[6] == head[6] && r[7] == head[7]);
        assert(rd32(r, 4, le) == rd32(head, 4, le));
    }
}

proof fn lemma_graft_appends_aligned_ifd0(out: Seq<u8>, x: Seq<u8>, le: bool)
    requires
        spec_graft_same_order(out, x, le) is Some,
        out.len() >= 8,
        out.len() < 0xFFFF_FFFF,
        tiff_order(out) == Some(le),
    ensures
        appends_aligned_ifd0(out, spec_graft_same_order(out, x, le)->0),
{
    if spec_graft_same_order(out, x, le)->0 != out {
        let t = lemma_graft_shape(out, x, le);
        lemma_header_rewrite_appends(out, t, le);
    }
}

/// Grafting onto a TIFF output either leaves it unchanged or appends a new
/// IFD0 on a word boundary after the output's data, with the header pointing
/// at it and every other byte of the output in place.
pub proof fn lemma_inject_appends_aligned_ifd0(out: Seq<u8>, x: Seq<u8>)
    requires
        spec_inject_exif_into_tiff(out, x) is Some,
        out.len() < 0xFFFF_FFFF,
    ensures
        appends_aligned_ifd0(out, spec_inject_exif_into_tiff(out, x)->0),
{
    if out.len() >= 8 {
        if let Some(le) = tiff_order(out) {
            if let Some(xle) = tiff_order(x) {
                let src = if le != xle {
                    exif_reencoded(x, le)
                } else {
                    Some(x)
                };
                if let Some(sx) = src {
                    lemma_graft_appends_aligned_ifd0(out, sx, le);
                }
            }
        }
    }
}

/// Grafts EXIF and metadata tags from the source TIFF into an encoded TIFF.
/// A source whose moved IFD offsets would overflow 32 bits is reported as
/// an error.
pub fn inject_exif_into_tiff(output: &[u8], exif_tiff: &[u8]) -> (r: Result<Vec<u8>, BatImgError>)
    requires
        inject_tiff_input_ok(output@, exif_tiff@),
    ensures
        match r {
            Ok(v) => spec_inject_exif_into_tiff(output@, exif_tiff@) == Some(v@),
            Err(e) => spec_inject_exif_into_tiff(output@, exif_tiff@) is None && e is Exif,
        },
{
    if output.len() < 8 {
        return Ok(to_vec(output));
    }
    let le = match tiff_byte_order(output) {
        Some(v) => v,
        None => return Ok(to_vec(output)),
    };
    let xle = match tiff_byte_order(exif_tiff) {
        Some(v) => v,
        None => return Ok(to_vec(output)),
    };
    let src = if le != xle {
        match reencode_exif_tiff(exif_tiff, le) {
            Some(v) => v,
            None => return Err(BatImgError::Exif("Failed to re-encode EXIF TIFF".to_owned())),
        }
    } else {
        to_vec(exif_tiff)
    };
    match graft_same_order(output, src, le) {
        Some(v) => Ok(v),
        None => Err(BatImgError::Exif("EXIF offsets overflow 32 bits".to_owned())),
    }
}

} // verus!
