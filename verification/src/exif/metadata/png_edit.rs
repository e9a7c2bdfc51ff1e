//! PNG rewrites: GPS removal inside `eXIf`, dropping metadata chunks, and
//! inserting an `eXIf` chunk after `IHDR`.
use vstd::prelude::*;
use crate::bytes::{bytes32, extend_range, push_u32, to_vec, u32_at};
use crate::error::BatImgError;
use crate::exif::container::{is_png, png_sig, spec_is_png};
use crate::bytes::{has_at, lemma_bytes32_roundtrip};
use crate::exif::container::exif_header;
use crate::exif::extract::{first_chunk, lemma_chunk_found, lemma_first_chunk_shift, lemma_no_chunk_of_kind, lemma_same_chunk_found, spec_extract_exif_tiff};
use crate::exif::png::{
    foreach_png_chunk_mut, lemma_png_chunk_lengths, lemma_png_chunks_adjacent, lemma_png_chunks_bounds, png_chunk_list,
    png_chunks_from, png_consumed, png_crc32, png_data, png_decided, png_end, png_kept, png_kind,
    png_mut_decided, png_patched, png_rewritten, rewrite_png_chunks, spec_png_crc32, lemma_png_patched_crcs, png_chunk_rewritten,
    lemma_png_patched_walk,
};
use super::tiff_edit::{
    gps_strip_applies, gps_table_fits, ifd0_after_header, lemma_strip_gps_keeps_header, lemma_strip_gps_len,
    spec_strip_gps_from_tiff, strip_gps_from_tiff,
};

verus! {

/// `eXIf`
pub open spec fn exif_kind() -> Seq<u8> {
    seq![0x65u8, 0x58, 0x49, 0x66]
}

/// `IHDR`
pub open spec fn ihdr_kind() -> Seq<u8> {
    seq![0x49u8, 0x48, 0x44, 0x52]
}

/// Metadata chunk types: `eXIf`, `tEXt`, `zTXt`, `iTXt`, `iCCP`.
pub open spec fn png_meta_kind(k: Seq<u8>) -> bool {
    k == exif_kind() || k == seq![0x74u8, 0x45, 0x58, 0x74] || k == seq![0x7Au8, 0x54, 0x58, 0x74]
        || k == seq![0x69u8, 0x54, 0x58, 0x74] || k == seq![0x69u8, 0x43, 0x43, 0x50]
}

fn kind_is(k: &[u8; 4], a: u8, b: u8, c: u8, d: u8) -> (r: bool)
    ensures
        r == (k@ == seq![a, b, c, d]),
{
    let r = k[0] == a && k[1] == b && k[2] == c && k[3] == d;
    if r {
        assert(k@ =~= seq![a, b, c, d]);
    }
    r
}

/// Keep-flags: one per chunk of `b`, `pred` applied to the chunk's type.
pub open spec fn kind_flags(b: Seq<u8>, pred: spec_fn(Seq<u8>) -> bool) -> Seq<bool> {
    Seq::new(png_chunk_list(b).len(), |i: int| pred(png_kind(b, png_chunk_list(b)[i].0)))
}

/// The PNG without its metadata chunks; damaged files are unchanged.
pub open spec fn spec_strip_png_metadata(b: Seq<u8>) -> Seq<u8> {
    png_rewritten(b, kind_flags(b, |k: Seq<u8>| !png_meta_kind(k)))
}

pub fn strip_png_metadata(png: &[u8]) -> (r: Vec<u8>)
    ensures
        r@ == spec_strip_png_metadata(png@),
{
    let keep = |kind: &[u8; 4], data: &[u8]| -> (r: bool)
        ensures
            r == !png_meta_kind(kind@),
        {
            !(kind_is(kind, 0x65, 0x58, 0x49, 0x66) || kind_is(kind, 0x74, 0x45, 0x58, 0x74) || kind_is(
                kind,
                0x7A,
                0x54,
                0x58,
                0x74,
            ) || kind_is(kind, 0x69, 0x54, 0x58, 0x74) || kind_is(kind, 0x69, 0x43, 0x43, 0x50))
        };
    let r = rewrite_png_chunks(png, keep);
    proof {
        let b = png@;
        let flags = kind_flags(b, |k: Seq<u8>| !png_meta_kind(k));
        let w = choose|w: Seq<bool>|
            #![trigger png_rewritten(b, w)]
            w.len() == png_chunk_list(b).len() && (forall|i: int|
                0 <= i < w.len() ==> png_decided(keep, b, png_chunk_list(b)[i], #[trigger] w[i])) && r@
                == png_rewritten(b, w);
        assert forall|i: int| 0 <= i < w.len() implies w[i] == flags[i] by {
            assert(png_decided(keep, b, png_chunk_list(b)[i], w[i]));
        }
        assert(w =~= flags);
    }
    r
}

/// The chunks `cs[j..]` whose `keep` flag is set, in order.
pub open spec fn png_kept_from(b: Seq<u8>, cs: Seq<(int, int)>, keep: Seq<bool>, j: int) -> Seq<u8>
    decreases cs.len() - j,
{
    if j < 0 || j >= cs.len() {
        Seq::empty()
    } else {
        (if keep[j] {
            b.subrange(cs[j].0, png_end(cs[j]))
        } else {
            Seq::empty()
        }) + png_kept_from(b, cs, keep, j + 1)
    }
}

proof fn lemma_png_kept_split(b: Seq<u8>, cs: Seq<(int, int)>, keep: Seq<bool>, n: int)
    requires
        0 <= n <= cs.len(),
    ensures
        png_kept(b, cs, keep, n) + png_kept_from(b, cs, keep, n) == png_kept_from(b, cs, keep, 0),
    decreases n,
{
    if n == 0 {
        assert(png_kept(b, cs, keep, 0) + png_kept_from(b, cs, keep, 0) =~= png_kept_from(b, cs, keep, 0));
    } else {
        lemma_png_kept_split(b, cs, keep, n - 1);
        let piece = if keep[n - 1] {
            b.subrange(cs[n - 1].0, png_end(cs[n - 1]))
        } else {
            Seq::empty()
        };
        assert(png_kept_from(b, cs, keep, n - 1) == piece + png_kept_from(b, cs, keep, n));
        assert(png_kept(b, cs, keep, n) == png_kept(b, cs, keep, n - 1) + piece);
        assert(png_kept(b, cs, keep, n - 1) + piece + png_kept_from(b, cs, keep, n) =~= png_kept(b, cs, keep, n
            - 1) + (piece + png_kept_from(b, cs, keep, n)));
    }
}

/// Walking the chunks of `x` from `p`, where `x[p..]` is the kept chunks of
/// `cs[j..]`, meets no metadata chunk when no kept chunk is one, and ends
/// exactly at the end of `x`.
proof fn lemma_png_walk_kept(x: Seq<u8>, p: int, b: Seq<u8>, cs: Seq<(int, int)>, keep: Seq<bool>, j: int)
    requires
        0 <= p <= x.len(),
        0 <= j <= cs.len(),
        keep.len() == cs.len(),
        x.subrange(p, x.len() as int) == png_kept_from(b, cs, keep, j),
        forall|k: int|
            0 <= k < cs.len() ==> 0 <= (#[trigger] cs[k]).0 && cs[k].1 >= 0 && png_end(cs[k]) <= b.len()
                && u32_at(b, cs[k].0, false) == cs[k].1,
        forall|k: int| 0 <= k < cs.len() && keep[k] ==> !png_meta_kind(png_kind(b, (#[trigger] cs[k]).0)),
    ensures
        forall|i: int|
            0 <= i < png_chunks_from(x, p).len() ==> !png_meta_kind(
                png_kind(x, (#[trigger] png_chunks_from(x, p)[i]).0),
            ),
        png_chunks_from(x, p).len() == 0 ==> p == x.len(),
        png_chunks_from(x, p).len() > 0 ==> png_end(png_chunks_from(x, p).last()) == x.len(),
    decreases cs.len() - j,
{
    if j == cs.len() {
        assert(x.subrange(p, x.len() as int).len() == 0);
    } else if !keep[j] {
        assert(png_kept_from(b, cs, keep, j) =~= png_kept_from(b, cs, keep, j + 1));
        lemma_png_walk_kept(x, p, b, cs, keep, j + 1);
    } else {
        let c = cs[j];
        let l = c.1;
        let piece = b.subrange(c.0, png_end(c));
        let rest = png_kept_from(b, cs, keep, j + 1);
        assert(png_kept_from(b, cs, keep, j) == piece + rest);
        let tail = x.subrange(p, x.len() as int);
        assert(tail.len() == 12 + l + rest.len());
        assert forall|k: int| 0 <= k < 12 + l implies #[trigger] tail[k] == piece[k] by {
            assert((piece + rest)[k] == piece[k]);
        }
        assert(tail[0] == piece[0] && tail[1] == piece[1] && tail[2] == piece[2] && tail[3] == piece[3]);
        assert(u32_at(x, p, false) == u32_at(b, c.0, false));
        assert(png_kind(x, p) =~= png_kind(b, c.0)) by {
            assert forall|k: int| 0 <= k < 4 implies png_kind(x, p)[k] == png_kind(b, c.0)[k] by {
                assert(tail[4 + k] == piece[4 + k]);
            }
        }
        assert(x.subrange(p + 12 + l, x.len() as int) =~= rest) by {
            assert forall|k: int| 0 <= k < rest.len() implies x.subrange(p + 12 + l, x.len() as int)[k]
                == rest[k] by {
                assert(tail[12 + l + k] == x[p + 12 + l + k]);
                assert((piece + rest)[12 + l + k] == rest[k]);
            }
        }
        lemma_png_walk_kept(x, p + 12 + l, b, cs, keep, j + 1);
        let w = png_chunks_from(x, p);
        let w2 = png_chunks_from(x, p + 12 + l);
        assert(w == seq![(p, l)] + w2);
        assert forall|i: int| 0 <= i < w.len() implies !png_meta_kind(png_kind(x, (#[trigger] w[i]).0)) by {
            if i > 0 {
                assert(w[i] == w2[i - 1]);
            }
        }
        if w2.len() > 0 {
            assert(w.last() == w2.last());
        }
    }
}

/// Stripping the metadata of an intact PNG (every chunk complete, nothing
/// after the last one) leaves no EXIF block for extraction to find.
pub proof fn lemma_png_strip_leaves_no_exif(b: Seq<u8>)
    requires
        spec_is_png(b),
        png_consumed(b) == b.len(),
    ensures
        spec_extract_exif_tiff(spec_strip_png_metadata(b)) is None,
{
    let cs = png_chunk_list(b);
    let keep = kind_flags(b, |k: Seq<u8>| !png_meta_kind(k));
    let out = spec_strip_png_metadata(b);
    let n = cs.len() as int;
    lemma_png_kept_split(b, cs, keep, n);
    assert(png_kept_from(b, cs, keep, n) =~= Seq::<u8>::empty());
    assert(png_kept(b, cs, keep, n) =~= png_kept_from(b, cs, keep, 0));
    assert(out == png_sig() + png_kept_from(b, cs, keep, 0));
    assert(out.subrange(0, 8) =~= png_sig());
    assert(out.subrange(8, out.len() as int) =~= png_kept_from(b, cs, keep, 0));
    assert(out[0] == 0x89u8);
    lemma_png_chunks_bounds(b, 8);
    lemma_png_chunk_lengths(b, 8);
    assert forall|k: int| 0 <= k < cs.len() && keep[k] implies !png_meta_kind(png_kind(b, (#[trigger] cs[k]).0)) by {
        assert(keep[k] == !png_meta_kind(png_kind(b, cs[k].0)));
    }
    lemma_png_walk_kept(out, 8, b, cs, keep, 0);
    let w = png_chunk_list(out);
    assert(w == png_chunks_from(out, 8));
    assert forall|k: int| 0 <= k < w.len() implies out.subrange((#[trigger] w[k]).0 + 4, w[k].0 + 4 + 4)
        != seq![0x65u8, 0x58, 0x49, 0x66] by {
        assert(png_kind(out, w[k].0) == out.subrange(w[k].0 + 4, w[k].0 + 4 + 4));
        assert(!png_meta_kind(png_kind(out, w[k].0)));
    }
    lemma_no_chunk_of_kind(out, w, 4, seq![0x65u8, 0x58, 0x49, 0x66], 0);
}

proof fn lemma_png_kept_len(b: Seq<u8>, cs: Seq<(int, int)>, keep: Seq<bool>, n: int)
    requires
        1 <= n <= cs.len(),
        cs[0].0 == 8,
        forall|k: int| 1 <= k < cs.len() ==> (#[trigger] cs[k]).0 == png_end(cs[k - 1]),
        forall|k: int| 0 <= k < cs.len() ==> 0 <= (#[trigger] cs[k]).0 && cs[k].1 >= 0 && png_end(cs[k]) <= b.len(),
    ensures
        png_kept(b, cs, keep, n).len() <= png_end(cs[n - 1]) - 8,
    decreases n,
{
    let c = cs[n - 1];
    let piece = if keep[n - 1] {
        b.subrange(c.0, png_end(c))
    } else {
        Seq::empty()
    };
    assert(png_kept(b, cs, keep, n) == png_kept(b, cs, keep, n - 1) + piece);
    assert(piece.len() <= png_end(c) - c.0);
    if n > 1 {
        lemma_png_kept_len(b, cs, keep, n - 1);
        assert(c.0 == png_end(cs[n - 2]));
    }
}

/// Dropping chunks never makes a PNG longer.
pub proof fn lemma_strip_png_never_grows(b: Seq<u8>)
    ensures
        spec_strip_png_metadata(b).len() <= b.len(),
{
    let cs = png_chunk_list(b);
    if spec_is_png(b) && png_consumed(b) == b.len() && cs.len() > 0 {
        lemma_png_chunks_bounds(b, 8);
        lemma_png_chunks_adjacent(b, 8);
        lemma_png_kept_len(b, cs, kind_flags(b, |k: Seq<u8>| !png_meta_kind(k)), cs.len() as int);
    }
}

proof fn lemma_png_all_kept(x: Seq<u8>, cs: Seq<(int, int)>, keep: Seq<bool>, n: int)
    requires
        1 <= n <= cs.len(),
        n <= keep.len(),
        forall|k: int| 0 <= k < n ==> #[trigger] keep[k],
        cs[0].0 == 8,
        forall|k: int| 1 <= k < cs.len() ==> (#[trigger] cs[k]).0 == png_end(cs[k - 1]),
        forall|k: int| 0 <= k < cs.len() ==> 0 <= (#[trigger] cs[k]).0 && cs[k].1 >= 0 && png_end(cs[k]) <= x.len(),
    ensures
        png_kept(x, cs, keep, n) == x.subrange(8, png_end(cs[n - 1])),
    decreases n,
{
    let c = cs[n - 1];
    assert(keep[n - 1]);
    assert(png_kept(x, cs, keep, n) == png_kept(x, cs, keep, n - 1) + x.subrange(c.0, png_end(c)));
    if n == 1 {
        assert(png_kept(x, cs, keep, 1) =~= x.subrange(8, png_end(c)));
    } else {
        lemma_png_all_kept(x, cs, keep, n - 1);
        assert(c.0 == png_end(cs[n - 2]));
        assert(x.subrange(8, png_end(cs[n - 2])) + x.subrange(c.0, png_end(c)) =~= x.subrange(8, png_end(c)));
    }
}

/// Stripping a PNG's metadata a second time changes nothing.
pub proof fn lemma_strip_png_idempotent(b: Seq<u8>)
    ensures
        spec_is_png(b) ==> spec_is_png(spec_strip_png_metadata(b)),
        spec_strip_png_metadata(spec_strip_png_metadata(b)) == spec_strip_png_metadata(b),
{
    if spec_is_png(b) && png_consumed(b) == b.len() {
        let cs = png_chunk_list(b);
        let keep = kind_flags(b, |k: Seq<u8>| !png_meta_kind(k));
        let out = spec_strip_png_metadata(b);
        let n = cs.len() as int;
        lemma_png_kept_split(b, cs, keep, n);
        assert(png_kept_from(b, cs, keep, n) =~= Seq::<u8>::empty());
        assert(png_kept(b, cs, keep, n) =~= png_kept_from(b, cs, keep, 0));
        assert(out == png_sig() + png_kept_from(b, cs, keep, 0));
        assert(out.subrange(0, 8) =~= png_sig());
        assert(out.subrange(8, out.len() as int) =~= png_kept_from(b, cs, keep, 0));
        lemma_png_chunks_bounds(b, 8);
        lemma_png_chunk_lengths(b, 8);
        assert forall|k: int| 0 <= k < cs.len() && keep[k] implies !png_meta_kind(png_kind(b, (#[trigger] cs[k]).0)) by {
            assert(keep[k] == !png_meta_kind(png_kind(b, cs[k].0)));
        }
        lemma_png_walk_kept(out, 8, b, cs, keep, 0);
        let w = png_chunk_list(out);
        let keep2 = kind_flags(out, |k: Seq<u8>| !png_meta_kind(k));
        assert(w == png_chunks_from(out, 8));
        assert(png_consumed(out) == out.len());
        if w.len() == 0 {
            assert(out =~= png_sig());
            assert(png_kept(out, w, keep2, 0) =~= Seq::<u8>::empty());
            assert(spec_strip_png_metadata(out) =~= out);
        } else {
            lemma_png_chunks_bounds(out, 8);
            lemma_png_chunks_adjacent(out, 8);
            assert forall|k: int| 0 <= k < w.len() implies #[trigger] keep2[k] by {
                assert(keep2[k] == !png_meta_kind(png_kind(out, w[k].0)));
            }
            lemma_png_all_kept(out, w, keep2, w.len() as int);
            assert(spec_strip_png_metadata(out) == png_sig() + out.subrange(8, out.len() as int));
            assert(png_sig() + out.subrange(8, out.len() as int) =~= out);
        }
    }
}

/// Keep-flags that drop `eXIf` chunks.
pub open spec fn spec_png_without_exif(b: Seq<u8>) -> Seq<u8> {
    png_rewritten(b, kind_flags(b, |k: Seq<u8>| k != exif_kind()))
}

fn png_without_exif(png: &[u8]) -> (r: Vec<u8>)
    ensures
        r@ == spec_png_without_exif(png@),
{
    let keep = |kind: &[u8; 4], data: &[u8]| -> (r: bool)
        ensures
            r == (kind@ != exif_kind()),
        { !kind_is(kind, 0x65, 0x58, 0x49, 0x66) };
    let r = rewrite_png_chunks(png, keep);
    proof {
        let b = png@;
        let flags = kind_flags(b, |k: Seq<u8>| k != exif_kind());
        let w = choose|w: Seq<bool>|
            #![trigger png_rewritten(b, w)]
            w.len() == png_chunk_list(b).len() && (forall|i: int|
                0 <= i < w.len() ==> png_decided(keep, b, png_chunk_list(b)[i], #[trigger] w[i])) && r@
                == png_rewritten(b, w);
        assert forall|i: int| 0 <= i < w.len() implies w[i] == flags[i] by {
            assert(png_decided(keep, b, png_chunk_list(b)[i], w[i]));
        }
        assert(w =~= flags);
    }
    r
}

/// New data of a chunk for the GPS strip: an `eXIf` chunk's TIFF without
/// the GPS pointer, every other chunk unchanged.
pub open spec fn gps_chunk_data(kind: Seq<u8>, data: Seq<u8>) -> Seq<u8> {
    if kind == exif_kind() && gps_table_fits(data) {
        spec_strip_gps_from_tiff(data)
    } else {
        data
    }
}

/// The PNGs whose every `eXIf` chunk holds a block the GPS strip accepts.
pub open spec fn png_gps_input_ok(b: Seq<u8>) -> bool {
    forall|i: int|
        0 <= i < png_chunk_list(b).len() && #[trigger] png_kind(b, png_chunk_list(b)[i].0) == exif_kind()
            ==> gps_table_fits(png_data(b, png_chunk_list(b)[i]))
}

/// The PNG with the GPS pointer removed from its `eXIf` chunk(s) in place,
/// CRCs recomputed.
pub open spec fn spec_png_without_gps(b: Seq<u8>) -> Seq<u8> {
    let cs = png_chunk_list(b);
    png_patched(
        b,
        cs,
        Seq::new(cs.len(), |i: int| gps_chunk_data(png_kind(b, cs[i].0), png_data(b, cs[i]))),
        cs.len() as int,
    )
}

/// Removing the GPS pointer keeps a PNG's length: every chunk keeps the
/// size of its data.
pub proof fn lemma_png_without_gps_len(b: Seq<u8>)
    requires
        spec_is_png(b),
    ensures
        spec_png_without_gps(b).len() == b.len(),
{
    let cs = png_chunk_list(b);
    let rs = Seq::new(cs.len(), |i: int| gps_chunk_data(png_kind(b, cs[i].0), png_data(b, cs[i])));
    lemma_png_chunks_bounds(b, 8);
    assert forall|j: int| 0 <= j < rs.len() implies #[trigger] rs[j].len() == cs[j].1 by {
        let d = png_data(b, cs[j]);
        if png_kind(b, cs[j].0) == exif_kind() && gps_table_fits(d) {
            lemma_strip_gps_len(d);
        }
    }
    lemma_png_patched_crcs(b, rs);
}

/// The data of the first `eXIf` chunk among the chunks `ws` of `x`.
pub open spec fn png_exif_data_in(x: Seq<u8>, ws: Seq<(int, int)>) -> Option<Seq<u8>> {
    match first_chunk(x, ws, 4, exif_kind(), 0) {
        Some(i) => Some(png_data(x, ws[i])),
        None => None,
    }
}

/// The data of the first `eXIf` chunk of a PNG.
pub open spec fn png_first_exif_data(b: Seq<u8>) -> Option<Seq<u8>> {
    png_exif_data_in(b, png_chunk_list(b))
}

proof fn lemma_png_exif_data_in_cons(x: Seq<u8>, a: (int, int), rest: Seq<(int, int)>)
    ensures
        png_exif_data_in(x, seq![a] + rest) == if png_kind(x, a.0) == exif_kind() {
            Some(png_data(x, a))
        } else {
            png_exif_data_in(x, rest)
        },
{
    let ws = seq![a] + rest;
    assert(ws[0] == a);
    assert(x.subrange(a.0 + 4, a.0 + 4 + 4) == png_kind(x, a.0));
    lemma_first_chunk_shift(x, a, rest, 4, exif_kind(), 0);
    if let Some(j) = first_chunk(x, rest, 4, exif_kind(), 0) {
        lemma_chunk_found(x, rest, 4, exif_kind(), 0);
        assert(ws[j + 1] == rest[j]);
    }
}

/// After the GPS strip, the EXIF block found in a PNG is the one found
/// before with the GPS pointer removed, when the first `eXIf` chunk holds a
/// bare TIFF block (no `Exif\0\0` prefix) whose IFD0 follows its header.
pub proof fn lemma_png_strip_gps_then_extract(b: Seq<u8>)
    requires
        spec_is_png(b),
        png_gps_input_ok(b),
        png_first_exif_data(b) matches Some(d) ==> !has_at(d, 0, exif_header()) && ifd0_after_header(d),
    ensures
        spec_extract_exif_tiff(b) == png_first_exif_data(b),
        png_first_exif_data(b) matches Some(d) ==> gps_table_fits(d),
        spec_extract_exif_tiff(spec_png_without_gps(b)) == match spec_extract_exif_tiff(b) {
            Some(t) => Some(spec_strip_gps_from_tiff(t)),
            None => None,
        },
{
    let cs = png_chunk_list(b);
    let n = cs.len() as int;
    let rs = Seq::new(cs.len(), |i: int| gps_chunk_data(png_kind(b, cs[i].0), png_data(b, cs[i])));
    let out = spec_png_without_gps(b);
    lemma_png_chunks_bounds(b, 8);
    assert forall|j: int| 0 <= j < rs.len() implies #[trigger] rs[j].len() == cs[j].1 by {
        let d = png_data(b, cs[j]);
        if png_kind(b, cs[j].0) == exif_kind() && gps_table_fits(d) {
            lemma_strip_gps_len(d);
        }
    }
    assert(out == png_patched(b, cs, rs, rs.len() as int));
    lemma_png_patched_walk(b, rs);
    lemma_png_patched_crcs(b, rs);
    assert(out[0] == 0x89u8) by {
        assert(out.subrange(0, 8)[0] == out[0]);
    }
    let kind = seq![0x65u8, 0x58, 0x49, 0x66];
    assert(kind == exif_kind());
    assert forall|k: int| 0 <= k < cs.len() implies out.subrange((#[trigger] cs[k]).0 + 4, cs[k].0 + 4 + 4)
        == b.subrange(cs[k].0 + 4, cs[k].0 + 4 + 4) by {
        assert(png_chunk_rewritten(out, b, cs[k], rs[k]));
        assert(png_kind(out, cs[k].0) == out.subrange(cs[k].0 + 4, cs[k].0 + 4 + 4));
    }
    lemma_same_chunk_found(out, cs, b, cs, 4, kind, 0);
    lemma_chunk_found(b, cs, 4, kind, 0);
    if let Some(i) = first_chunk(b, cs, 4, kind, 0) {
        let d = png_data(b, cs[i]);
        assert(png_kind(b, cs[i].0) == b.subrange(cs[i].0 + 4, cs[i].0 + 4 + 4));
        assert(gps_table_fits(d));
        assert(png_chunk_rewritten(out, b, cs[i], rs[i]));
        assert(png_data(out, cs[i]) == spec_strip_gps_from_tiff(d));
        lemma_strip_gps_keeps_header(d);
        let sd = spec_strip_gps_from_tiff(d);
        if d.len() >= 6 {
            assert(sd.subrange(0, 6) =~= d.subrange(0, 6)) by {
                assert forall|p: int| 0 <= p < 6 implies sd.subrange(0, 6)[p] == d.subrange(0, 6)[p] by {
                    assert(sd[p] == d[p]);
                }
            }
        }
        assert(!has_at(sd, 0, exif_header()));
    }
}

pub fn rewrite_png_exif_without_gps(png: &[u8]) -> (r: Result<Vec<u8>, BatImgError>)
    requires
        png_gps_input_ok(png@),
    ensures
        r matches Ok(v) && v@ == spec_png_without_gps(png@),
{
    let mut out = to_vec(png);
    let f = |kind: &[u8; 4], data: &[u8]| -> (r: Vec<u8>)
        ensures
            r@ == gps_chunk_data(kind@, data@),
            r@.len() == data@.len(),
        {
            if kind_is(kind, 0x65, 0x58, 0x49, 0x66) && gps_strip_applies(data) {
                proof {
                    lemma_strip_gps_len(data@);
                }
                match strip_gps_from_tiff(data) {
                    Ok(t) => t,
                    Err(_) => to_vec(data),
                }
            } else {
                to_vec(data)
            }
        };
    let _ = foreach_png_chunk_mut(&mut out, f);
    proof {
        let b = png@;
        let cs = png_chunk_list(b);
        let target = Seq::new(cs.len(), |i: int| gps_chunk_data(png_kind(b, cs[i].0), png_data(b, cs[i])));
        let rs = choose|rs: Seq<Seq<u8>>|
            #![trigger png_patched(b, cs, rs, rs.len() as int)]
            rs.len() == cs.len() && (forall|i: int|
                0 <= i < rs.len() ==> png_mut_decided(f, b, cs[i], #[trigger] rs[i])) && out@
                == png_patched(b, cs, rs, rs.len() as int);
        assert forall|i: int| 0 <= i < rs.len() implies rs[i] == target[i] by {
            assert(png_mut_decided(f, b, cs[i], rs[i]));
        }
        assert(rs =~= target);
    }
    Ok(out)
}

/// An `eXIf` chunk holding `tiff` (length field wrapping at 32 bits).
pub open spec fn exif_chunk(tiff: Seq<u8>) -> Seq<u8> {
    bytes32((tiff.len() % 0x1_0000_0000) as u32, false) + exif_kind() + tiff + bytes32(
        spec_png_crc32(exif_kind() + tiff),
        false,
    )
}

fn append_png_exif_chunk(out: &mut Vec<u8>, tiff: &[u8])
    ensures
        final(out)@ == old(out)@ + exif_chunk(tiff@),
{
    push_u32(out, (tiff.len() as u64 % 0x1_0000_0000) as u32, false);
    let kind: [u8; 4] = [0x65, 0x58, 0x49, 0x66];
    extend_range(out, &kind, 0, 4);
    extend_range(out, tiff, 0, tiff.len());
    let mut crc_input: Vec<u8> = Vec::new();
    extend_range(&mut crc_input, &kind, 0, 4);
    extend_range(&mut crc_input, tiff, 0, tiff.len());
    assert(kind@.subrange(0, 4) =~= exif_kind());
    assert(tiff@.subrange(0, tiff@.len() as int) =~= tiff@);
    assert(crc_input@ =~= exif_kind() + tiff@);
    push_u32(out, png_crc32(crc_input.as_slice()), false);
    assert(out@ =~= old(out)@ + exif_chunk(tiff@));
}

/// The chunks of `w` from `i` on, copied whole, with `c` placed right after
/// the first `IHDR` (when `ins` says it is not placed yet); a chunk running
/// past the end is copied with the rest, and fewer than 12 bytes left end
/// the walk (those bytes are not copied).  Also says whether `c` was placed.
pub open spec fn png_insert_from(w: Seq<u8>, c: Seq<u8>, i: int, ins: bool) -> (Seq<u8>, bool)
    decreases w.len() - i,
{
    if i < 0 || i + 12 > w.len() {
        (Seq::empty(), ins)
    } else {
        let ce = i + 12 + u32_at(w, i, false) as int;
        if ce > w.len() {
            (w.subrange(i, w.len() as int), ins)
        } else {
            let hit = !ins && w.subrange(i + 4, i + 8) == ihdr_kind();
            let rest = png_insert_from(w, c, ce, ins || hit);
            (w.subrange(i, ce) + (if hit {
                c
            } else {
                Seq::empty()
            }) + rest.0, rest.1)
        }
    }
}

/// The PNG with its `eXIf` chunks replaced by one holding `tiff`, placed
/// right after `IHDR`; unchanged when it is not a PNG or has no `IHDR`.
pub open spec fn spec_inject_exif_into_png(b: Seq<u8>, tiff: Seq<u8>) -> Seq<u8> {
    if !spec_is_png(b) {
        b
    } else {
        let w = spec_png_without_exif(b);
        let (body, ins) = png_insert_from(w, exif_chunk(tiff), 8, false);
        if !ins {
            b
        } else {
            w.subrange(0, 8) + body
        }
    }
}

proof fn lemma_png_insert_placed(w: Seq<u8>, c: Seq<u8>, i: int)
    ensures
        png_insert_from(w, c, i, true).1,
    decreases w.len() - i,
{
    if !(i < 0 || i + 12 > w.len()) {
        let ce = i + 12 + u32_at(w, i, false) as int;
        if ce <= w.len() {
            lemma_png_insert_placed(w, c, ce);
        }
    }
}

/// Walking the output of the insertion from `p`, where `x[p..]` is what the
/// insertion made of `w[i..]` (the chunks of `cs[j..]` that `keep` keeps,
/// none of them `eXIf`) before placing its chunk: the chunk gets placed
/// exactly when one of those chunks is `IHDR`, and then the first `eXIf`
/// chunk walked holds `tiff`.
#[verifier::rlimit(60)]
#[verifier::spinoff_prover]
proof fn lemma_png_insert_walk(
    x: Seq<u8>,
    p: int,
    w: Seq<u8>,
    i: int,
    tiff: Seq<u8>,
    b: Seq<u8>,
    cs: Seq<(int, int)>,
    keep: Seq<bool>,
    j: int,
)
    requires
        0 <= p <= x.len(),
        0 <= i <= w.len(),
        0 <= j <= cs.len(),
        keep.len() == cs.len(),
        tiff.len() <= u32::MAX,
        w.subrange(i, w.len() as int) == png_kept_from(b, cs, keep, j),
        x.subrange(p, x.len() as int) == png_insert_from(w, exif_chunk(tiff), i, false).0,
        forall|k: int|
            0 <= k < cs.len() ==> 0 <= (#[trigger] cs[k]).0 && cs[k].1 >= 0 && png_end(cs[k]) <= b.len()
                && u32_at(b, cs[k].0, false) == cs[k].1,
        forall|k: int| 0 <= k < cs.len() && keep[k] ==> png_kind(b, (#[trigger] cs[k]).0) != exif_kind(),
    ensures
        png_insert_from(w, exif_chunk(tiff), i, false).1 <==> exists|k: int|
            j <= k < cs.len() && keep[k] && png_kind(b, (#[trigger] cs[k]).0) == ihdr_kind(),
        png_insert_from(w, exif_chunk(tiff), i, false).1 ==> png_exif_data_in(x, png_chunks_from(x, p)) == Some(
            tiff,
        ),
    decreases cs.len() - j,
{
    let c = exif_chunk(tiff);
    if j == cs.len() {
        assert(w.subrange(i, w.len() as int).len() == 0);
        assert(!exists|k: int| j <= k < cs.len() && keep[k] && png_kind(b, (#[trigger] cs[k]).0) == ihdr_kind());
    } else if !keep[j] {
        assert(png_kept_from(b, cs, keep, j) =~= png_kept_from(b, cs, keep, j + 1));
        lemma_png_insert_walk(x, p, w, i, tiff, b, cs, keep, j + 1);
        if exists|k: int| j <= k < cs.len() && keep[k] && png_kind(b, (#[trigger] cs[k]).0) == ihdr_kind() {
            let k = choose|k: int| j <= k < cs.len() && keep[k] && png_kind(b, (#[trigger] cs[k]).0) == ihdr_kind();
            assert(j + 1 <= k);
        }
    } else {
        let cj = cs[j];
        let l = cj.1;
        let piece = b.subrange(cj.0, png_end(cj));
        let wrest = png_kept_from(b, cs, keep, j + 1);
        assert(png_kept_from(b, cs, keep, j) == piece + wrest);
        let wt = w.subrange(i, w.len() as int);
        assert forall|k: int| 0 <= k < 12 + l implies #[trigger] wt[k] == piece[k] by {
            assert((piece + wrest)[k] == piece[k]);
        }
        assert(wt[0] == piece[0] && wt[1] == piece[1] && wt[2] == piece[2] && wt[3] == piece[3]);
        assert(u32_at(w, i, false) == l);
        let ce = i + 12 + l;
        assert(w.subrange(i + 4, i + 8) =~= png_kind(b, cj.0)) by {
            assert forall|k: int| 0 <= k < 4 implies w.subrange(i + 4, i + 8)[k] == png_kind(b, cj.0)[k] by {
                assert(wt[4 + k] == piece[4 + k]);
            }
        }
        assert(w.subrange(i, ce) =~= piece) by {
            assert forall|k: int| 0 <= k < 12 + l implies w.subrange(i, ce)[k] == piece[k] by {
                assert(wt[k] == w[i + k]);
            }
        }
        assert(w.subrange(ce, w.len() as int) =~= wrest) by {
            assert forall|k: int| 0 <= k < wrest.len() implies w.subrange(ce, w.len() as int)[k] == wrest[k] by {
                assert(wt[12 + l + k] == w[ce + k]);
                assert((piece + wrest)[12 + l + k] == wrest[k]);
            }
        }
        let hit = png_kind(b, cj.0) == ihdr_kind();
        let rest = png_insert_from(w, c, ce, hit);
        let xt = x.subrange(p, x.len() as int);
        let mid = if hit {
            c
        } else {
            Seq::<u8>::empty()
        };
        assert(png_insert_from(w, c, i, false).0 == piece + mid + rest.0);
        assert(png_insert_from(w, c, i, false).1 == rest.1);
        assert(xt == piece + mid + rest.0);
        assert forall|k: int| 0 <= k < 12 + l implies #[trigger] xt[k] == piece[k] by {
            assert((piece + mid + rest.0)[k] == piece[k]);
        }
        assert(xt[0] == piece[0] && xt[1] == piece[1] && xt[2] == piece[2] && xt[3] == piece[3]);
        assert(u32_at(x, p, false) == l);
        assert(png_kind(x, p) =~= png_kind(b, cj.0)) by {
            assert forall|k: int| 0 <= k < 4 implies png_kind(x, p)[k] == png_kind(b, cj.0)[k] by {
                assert(xt[4 + k] == piece[4 + k]);
            }
        }
        let np = p + 12 + l;
        let walk = png_chunks_from(x, p);
        let walk2 = png_chunks_from(x, np);
        assert(walk == seq![(p, l)] + walk2);
        lemma_png_exif_data_in_cons(x, (p, l), walk2);
        if hit {
            lemma_png_insert_placed(w, c, ce);
            let tl = tiff.len() as int;
            let v = (tl % 0x1_0000_0000) as u32;
            lemma_bytes32_roundtrip(v, false);
            assert(c.len() == 12 + tl);
            assert forall|k: int| 0 <= k < 12 + tl implies #[trigger] xt[12 + l + k] == c[k] by {
                assert((piece + mid + rest.0)[12 + l + k] == c[k]);
            }
            assert(xt[12 + l] == c[0] && xt[13 + l] == c[1] && xt[14 + l] == c[2] && xt[15 + l] == c[3]);
            assert(c.subrange(0, 4) =~= bytes32(v, false));
            assert(u32_at(c, 0, false) == v);
            assert(u32_at(x, np, false) == tl);
            assert(png_kind(x, np) =~= exif_kind()) by {
                assert forall|k: int| 0 <= k < 4 implies png_kind(x, np)[k] == exif_kind()[k] by {
                    assert(xt[12 + l + 4 + k] == c[4 + k]);
                }
            }
            assert(png_data(x, (np, tl)) =~= tiff) by {
                assert forall|k: int| 0 <= k < tl implies png_data(x, (np, tl))[k] == tiff[k] by {
                    assert(xt[12 + l + 8 + k] == c[8 + k]);
                }
            }
            let walk3 = png_chunks_from(x, np + 12 + tl);
            assert(walk2 == seq![(np, tl)] + walk3);
            lemma_png_exif_data_in_cons(x, (np, tl), walk3);
        } else {
            assert(x.subrange(np, x.len() as int) =~= rest.0) by {
                assert forall|k: int| 0 <= k < rest.0.len() implies x.subrange(np, x.len() as int)[k] == rest.0[k] by {
                    assert(xt[12 + l + k] == x[np + k]);
                    assert((piece + mid + rest.0)[12 + l + k] == rest.0[k]);
                }
            }
            lemma_png_insert_walk(x, np, w, ce, tiff, b, cs, keep, j + 1);
            if exists|k: int| j <= k < cs.len() && keep[k] && png_kind(b, (#[trigger] cs[k]).0) == ihdr_kind() {
                let k = choose|k: int| j <= k < cs.len() && keep[k] && png_kind(b, (#[trigger] cs[k]).0) == ihdr_kind();
                assert(j + 1 <= k);
            }
        }
    }
}

/// Grafting a block onto an intact PNG that has an `IHDR` chunk: extraction
/// then finds exactly that block (a bare TIFF block, no `Exif\0\0` prefix,
/// whose size a chunk length field can state).
pub proof fn lemma_inject_png_then_extract(b: Seq<u8>, tiff: Seq<u8>)
    requires
        spec_is_png(b),
        png_consumed(b) == b.len(),
        tiff.len() <= u32::MAX,
        !has_at(tiff, 0, exif_header()),
        exists|k: int| 0 <= k < png_chunk_list(b).len() && png_kind(b, (#[trigger] png_chunk_list(b)[k]).0) == ihdr_kind(),
    ensures
        spec_extract_exif_tiff(spec_inject_exif_into_png(b, tiff)) == Some(tiff),
{
    let cs = png_chunk_list(b);
    let keep = kind_flags(b, |k: Seq<u8>| k != exif_kind());
    let w = spec_png_without_exif(b);
    let n = cs.len() as int;
    lemma_png_kept_split(b, cs, keep, n);
    assert(png_kept_from(b, cs, keep, n) =~= Seq::<u8>::empty());
    assert(png_kept(b, cs, keep, n) =~= png_kept_from(b, cs, keep, 0));
    assert(w == png_sig() + png_kept_from(b, cs, keep, 0));
    assert(w.subrange(0, 8) =~= png_sig());
    assert(w.subrange(8, w.len() as int) =~= png_kept_from(b, cs, keep, 0));
    lemma_png_chunks_bounds(b, 8);
    lemma_png_chunk_lengths(b, 8);
    assert forall|k: int| 0 <= k < cs.len() && keep[k] implies png_kind(b, (#[trigger] cs[k]).0) != exif_kind() by {
        assert(keep[k] == (png_kind(b, cs[k].0) != exif_kind()));
    }
    let ins = png_insert_from(w, exif_chunk(tiff), 8, false);
    let out = w.subrange(0, 8) + ins.0;
    assert(out.subrange(8, out.len() as int) =~= ins.0);
    let k0 = choose|k: int| 0 <= k < png_chunk_list(b).len() && png_kind(b, (#[trigger] png_chunk_list(b)[k]).0)
        == ihdr_kind();
    assert(keep[k0] == (png_kind(b, cs[k0].0) != exif_kind()));
    assert(ihdr_kind() != exif_kind()) by {
        assert(ihdr_kind()[0] != exif_kind()[0]);
    }
    lemma_png_insert_walk(out, 8, w, 8, tiff, b, cs, keep, 0);
    assert(ins.1);
    assert(spec_inject_exif_into_png(b, tiff) == out);
    assert(out.subrange(0, 8) =~= png_sig());
    assert(out[0] == 0x89u8) by {
        assert(out.subrange(0, 8)[0] == out[0]);
    }
    assert(png_chunk_list(out) == png_chunks_from(out, 8));
    assert(exif_kind() == seq![0x65u8, 0x58, 0x49, 0x66]);
}

proof fn lemma_png_rewritten_len(b: Seq<u8>, keep: Seq<bool>)
    requires
        spec_is_png(b),
    ensures
        png_rewritten(b, keep).len() >= 8,
{
}

#[verifier::rlimit(40)]
#[verifier::spinoff_prover]
pub fn inject_exif_into_png(png: &[u8], tiff: &[u8]) -> (r: Result<Vec<u8>, BatImgError>)
    ensures
        r matches Ok(v) && v@ == spec_inject_exif_into_png(png@, tiff@),
{
    if !is_png(png) {
        return Ok(to_vec(png));
    }
    let without = png_without_exif(png);
    proof {
        lemma_png_rewritten_len(png@, kind_flags(png@, |k: Seq<u8>| k != exif_kind()));
    }
    let ghost w = without@;
    let ghost c = exif_chunk(tiff@);
    let n = without.len();
    let mut rebuilt: Vec<u8> = Vec::new();
    extend_range(&mut rebuilt, without.as_slice(), 0, 8);
    let mut i: usize = 8;
    let mut inserted = false;
    while n >= 12 && i <= n - 12
        invariant_except_break
            png_insert_from(w, c, 8, false).1 == png_insert_from(w, c, i as int, inserted).1,
            w.subrange(0, 8) + png_insert_from(w, c, 8, false).0 == rebuilt@ + png_insert_from(
                w,
                c,
                i as int,
                inserted,
            ).0,
        invariant
            w == without@,
            n == w.len(),
            c == exif_chunk(tiff@),
            i >= 8,
        ensures
            png_insert_from(w, c, 8, false).1 == inserted,
            w.subrange(0, 8) + png_insert_from(w, c, 8, false).0 == rebuilt@,
        decreases n - i,
    {
        let ghost r0 = rebuilt@;
        let len = crate::bytes::read_u32(without.as_slice(), i as u64, false).unwrap() as usize;
        if len > n - i - 12 {
            extend_range(&mut rebuilt, without.as_slice(), i, n);
            assert(rebuilt@ =~= r0 + png_insert_from(w, c, i as int, inserted).0);
            break;
        }
        let ce = i + 12 + len;
        extend_range(&mut rebuilt, without.as_slice(), i, ce);
        let is_ihdr = without[i + 4] == 0x49 && without[i + 5] == 0x48 && without[i + 6] == 0x44
            && without[i + 7] == 0x52;
        assert(is_ihdr == (w.subrange(i + 4, i + 8) == ihdr_kind())) by {
            if is_ihdr {
                assert(w.subrange(i + 4, i + 8) =~= ihdr_kind());
            } else if w.subrange(i + 4, i + 8) == ihdr_kind() {
                assert(w.subrange(i + 4, i + 8)[0] == w[i + 4]);
                assert(w.subrange(i + 4, i + 8)[1] == w[i + 5]);
                assert(w.subrange(i + 4, i + 8)[2] == w[i + 6]);
                assert(w.subrange(i + 4, i + 8)[3] == w[i + 7]);
            }
        }
        let hit = !inserted && is_ihdr;
        if hit {
            append_png_exif_chunk(&mut rebuilt, tiff);
            inserted = true;
        }
        proof {
            let rest = png_insert_from(w, c, ce as int, inserted);
            let part = if hit {
                c
            } else {
                Seq::<u8>::empty()
            };
            assert(r0 + (w.subrange(i as int, ce as int) + part + rest.0) =~= rebuilt@ + rest.0);
        }
        i = ce;
    }
    if !inserted {
        return Ok(to_vec(png));
    }
    Ok(rebuilt)
}

} // verus!
