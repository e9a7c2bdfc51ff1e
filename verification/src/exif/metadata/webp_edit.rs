//! WebP rewrites: GPS removal inside `EXIF`, dropping metadata chunks, and
//! replacing or inserting the `EXIF` chunk.
use vstd::prelude::*;
use crate::bytes::{
    bytes32, bytes_at, extend_range, has_at, lemma_bytes32_roundtrip, lemma_read_after_write32, push_u32, rd32, to_vec,
    u32_at, write_u32,
};
use crate::exif::container::{exif_header, spec_is_webp};
use crate::exif::extract::{
    first_chunk, lemma_chunk_found, lemma_no_chunk_of_kind, lemma_same_chunk_found, spec_extract_exif_tiff,
};
use crate::error::BatImgError;
use crate::exif::webp::{
    lemma_webp_chunks_bounds, lemma_webp_chunks_spaced, opt_view, rebuild_webp_chunks, riff_chunk, riff_tag, webp_body,
    webp_chunk_list, webp_chunks_from, webp_decided, webp_fourcc, webp_limit, webp_payload,
    webp_rebuilt, webp_tag,
};
use super::tiff_edit::{
    gps_strip_applies, gps_table_fits, ifd0_after_header, lemma_strip_gps_keeps_header, lemma_strip_gps_len,
    spec_strip_gps_from_tiff, strip_gps_from_tiff,
};

verus! {

/// `EXIF`
pub open spec fn webp_exif_fourcc() -> Seq<u8> {
    seq![0x45u8, 0x58, 0x49, 0x46]
}

fn fourcc_is(k: &[u8; 4], a: u8, b: u8, c: u8, d: u8) -> (r: bool)
    ensures
        r == (k@ == seq![a, b, c, d]),
{
    let r = k[0] == a && k[1] == b && k[2] == c && k[3] == d;
    if r {
        assert(k@ =~= seq![a, b, c, d]);
    }
    r
}

/// One decision per chunk of `b`: `f` applied to the chunk's fourcc and payload.
pub open spec fn chunk_choices(b: Seq<u8>, f: spec_fn(Seq<u8>, Seq<u8>) -> Option<Seq<u8>>) -> Seq<Option<Seq<u8>>> {
    let cs = webp_chunk_list(b);
    Seq::new(cs.len(), |i: int| f(webp_fourcc(b, cs[i].0), webp_payload(b, cs[i])))
}

/// The GPS strip's decision for a chunk: an `EXIF` payload loses its GPS
/// pointer, everything else is kept.
pub open spec fn gps_choice(fourcc: Seq<u8>, p: Seq<u8>) -> Option<Seq<u8>> {
    if fourcc == webp_exif_fourcc() && gps_table_fits(p) {
        Some(spec_strip_gps_from_tiff(p))
    } else {
        Some(p)
    }
}

/// The WebPs whose every `EXIF` chunk holds a block the GPS strip accepts.
pub open spec fn webp_gps_input_ok(b: Seq<u8>) -> bool {
    forall|i: int|
        0 <= i < webp_chunk_list(b).len() && #[trigger] webp_fourcc(b, webp_chunk_list(b)[i].0)
            == webp_exif_fourcc() ==> gps_table_fits(webp_payload(b, webp_chunk_list(b)[i]))
}

pub fn rewrite_webp_exif_without_gps(webp: &[u8]) -> (r: Result<Vec<u8>, BatImgError>)
    requires
        webp_gps_input_ok(webp@),
    ensures
        match r {
            Ok(v) => webp_rebuilt(webp@, chunk_choices(webp@, |f: Seq<u8>, p: Seq<u8>| gps_choice(f, p))) == Some(v@),
            Err(e) => webp_rebuilt(webp@, chunk_choices(webp@, |f: Seq<u8>, p: Seq<u8>| gps_choice(f, p))) is None && e is Exif,
        },
{
    let t = |fourcc: &[u8; 4], payload: &[u8]| -> (r: Option<Vec<u8>>)
        ensures
            opt_view(r) == gps_choice(fourcc@, payload@),
        {
            if fourcc_is(fourcc, 0x45, 0x58, 0x49, 0x46) && gps_strip_applies(payload) {
                match strip_gps_from_tiff(payload) {
                    Ok(v) => Some(v),
                    Err(_) => Some(to_vec(payload)),
                }
            } else {
                Some(to_vec(payload))
            }
        };
    let r = rebuild_webp_chunks(webp, t);
    proof {
        let b = webp@;
        let target = chunk_choices(b, |f: Seq<u8>, p: Seq<u8>| gps_choice(f, p));
        let rs = choose|rs: Seq<Option<Seq<u8>>>|
            #![trigger webp_rebuilt(b, rs)]
            rs.len() == webp_chunk_list(b).len() && (forall|i: int|
                0 <= i < rs.len() ==> webp_decided(t, b, webp_chunk_list(b)[i], #[trigger] rs[i]))
                && opt_view(r) == webp_rebuilt(b, rs);
        assert forall|i: int| 0 <= i < rs.len() implies rs[i] == target[i] by {
            assert(webp_decided(t, b, webp_chunk_list(b)[i], rs[i]));
        }
        assert(rs =~= target);
    }
    match r {
        Some(v) => Ok(v),
        None => Err(BatImgError::Exif("WebP EXIF rewrite failed".to_owned())),
    }
}

/// Metadata chunks: `EXIF`, `XMP `, `ICCP`.
pub open spec fn webp_meta_fourcc(f: Seq<u8>) -> bool {
    f == webp_exif_fourcc() || f == seq![0x58u8, 0x4D, 0x50, 0x20] || f == seq![0x49u8, 0x43, 0x43, 0x50]
}

/// The metadata strip's decision for a chunk: metadata chunks are dropped,
/// every other chunk is kept as it is.
pub open spec fn strip_choice(fourcc: Seq<u8>, p: Seq<u8>) -> Option<Seq<u8>> {
    if webp_meta_fourcc(fourcc) {
        None
    } else {
        Some(p)
    }
}

/// The WebP rebuilt without its metadata chunks, every other chunk kept
/// byte for byte; anything that is not a WebP is unchanged.
pub open spec fn spec_strip_webp_metadata(b: Seq<u8>) -> Seq<u8> {
    match webp_rebuilt(b, chunk_choices(b, |f: Seq<u8>, p: Seq<u8>| strip_choice(f, p))) {
        Some(v) => v,
        None => b,
    }
}

pub fn strip_webp_metadata(webp: &[u8]) -> (r: Vec<u8>)
    ensures
        r@ == spec_strip_webp_metadata(webp@),
{
    let t = |fourcc: &[u8; 4], payload: &[u8]| -> (r: Option<Vec<u8>>)
        ensures
            opt_view(r) == strip_choice(fourcc@, payload@),
        {
            if fourcc_is(fourcc, 0x45, 0x58, 0x49, 0x46) || fourcc_is(fourcc, 0x58, 0x4D, 0x50, 0x20)
                || fourcc_is(fourcc, 0x49, 0x43, 0x43, 0x50) {
                None
            } else {
                Some(to_vec(payload))
            }
        };
    let r = rebuild_webp_chunks(webp, t);
    proof {
        let b = webp@;
        let target = chunk_choices(b, |f: Seq<u8>, p: Seq<u8>| strip_choice(f, p));
        let rs = choose|rs: Seq<Option<Seq<u8>>>|
            #![trigger webp_rebuilt(b, rs)]
            rs.len() == webp_chunk_list(b).len() && (forall|i: int|
                0 <= i < rs.len() ==> webp_decided(t, b, webp_chunk_list(b)[i], #[trigger] rs[i]))
                && opt_view(r) == webp_rebuilt(b, rs);
        assert forall|i: int| 0 <= i < rs.len() implies rs[i] == target[i] by {
            assert(webp_decided(t, b, webp_chunk_list(b)[i], rs[i]));
        }
        assert(rs =~= target);
    }
    match r {
        Some(v) => v,
        None => to_vec(webp),
    }
}

/// The rebuilt chunks for `cs[j..]`, in order.
pub open spec fn webp_body_from(b: Seq<u8>, cs: Seq<(int, int)>, rs: Seq<Option<Seq<u8>>>, j: int) -> Seq<u8>
    decreases cs.len() - j,
{
    if j < 0 || j >= cs.len() {
        Seq::empty()
    } else {
        (match rs[j] {
            Some(p) => riff_chunk(webp_fourcc(b, cs[j].0), p),
            None => Seq::empty(),
        }) + webp_body_from(b, cs, rs, j + 1)
    }
}

proof fn lemma_webp_body_split(b: Seq<u8>, cs: Seq<(int, int)>, rs: Seq<Option<Seq<u8>>>, n: int)
    requires
        0 <= n <= cs.len(),
    ensures
        webp_body(b, cs, rs, n) + webp_body_from(b, cs, rs, n) == webp_body_from(b, cs, rs, 0),
    decreases n,
{
    if n == 0 {
        assert(webp_body(b, cs, rs, 0) + webp_body_from(b, cs, rs, 0) =~= webp_body_from(b, cs, rs, 0));
    } else {
        lemma_webp_body_split(b, cs, rs, n - 1);
        let piece = match rs[n - 1] {
            Some(p) => riff_chunk(webp_fourcc(b, cs[n - 1].0), p),
            None => Seq::empty(),
        };
        assert(webp_body_from(b, cs, rs, n - 1) == piece + webp_body_from(b, cs, rs, n));
        assert(webp_body(b, cs, rs, n) == webp_body(b, cs, rs, n - 1) + piece);
        assert(webp_body(b, cs, rs, n - 1) + piece + webp_body_from(b, cs, rs, n) =~= webp_body(b, cs, rs, n
            - 1) + (piece + webp_body_from(b, cs, rs, n)));
    }
}

/// The chunks that the choices `rs` keep among `cs[j..]`, as
/// `(fourcc, payload)`, in order.
pub open spec fn kept_from(b: Seq<u8>, cs: Seq<(int, int)>, rs: Seq<Option<Seq<u8>>>, j: int) -> Seq<(Seq<u8>, Seq<u8>)>
    decreases cs.len() - j,
{
    if j < 0 || j >= cs.len() {
        Seq::empty()
    } else {
        match rs[j] {
            Some(p) => seq![(webp_fourcc(b, cs[j].0), p)] + kept_from(b, cs, rs, j + 1),
            None => kept_from(b, cs, rs, j + 1),
        }
    }
}

/// The chunks `ks` written one after another.
pub open spec fn riff_concat(ks: Seq<(Seq<u8>, Seq<u8>)>) -> Seq<u8>
    decreases ks.len(),
{
    if ks.len() == 0 {
        Seq::empty()
    } else {
        riff_chunk(ks[0].0, ks[0].1) + riff_concat(ks.drop_first())
    }
}

/// The chunks that the metadata strip keeps, as `(fourcc, payload)`.
pub open spec fn strip_kept(b: Seq<u8>) -> Seq<(Seq<u8>, Seq<u8>)> {
    kept_from(b, webp_chunk_list(b), chunk_choices(b, |f: Seq<u8>, p: Seq<u8>| strip_choice(f, p)), 0)
}

/// Every chunk of the WebP `b` has room for its padding byte (a payload of
/// odd size is followed by one more byte in the file).
pub open spec fn webp_chunks_padded(b: Seq<u8>) -> bool {
    forall|k: int|
        0 <= k < webp_chunk_list(b).len() ==> (#[trigger] webp_chunk_list(b)[k]).0 + 8 + webp_chunk_list(b)[k].1
            + webp_chunk_list(b)[k].1 % 2 <= b.len()
}

proof fn lemma_body_from_concat(b: Seq<u8>, cs: Seq<(int, int)>, rs: Seq<Option<Seq<u8>>>, j: int)
    requires
        0 <= j,
    ensures
        webp_body_from(b, cs, rs, j) == riff_concat(kept_from(b, cs, rs, j)),
    decreases cs.len() - j,
{
    if j < cs.len() {
        lemma_body_from_concat(b, cs, rs, j + 1);
        if let Some(p) = rs[j] {
            let k = kept_from(b, cs, rs, j);
            assert(k.drop_first() =~= kept_from(b, cs, rs, j + 1));
            assert(k[0] == (webp_fourcc(b, cs[j].0), p));
        }
    }
}

/// Walking the chunks of `x` from `p`, where `x[p..]` is the chunks `ks`
/// written one after another, meets a prefix of `ks` (all of it when the
/// walk may run to the end of `x`): each with its fourcc and payload.
proof fn lemma_webp_walk_concat(x: Seq<u8>, p: int, limit: int, ks: Seq<(Seq<u8>, Seq<u8>)>)
    requires
        0 <= p <= x.len(),
        limit <= x.len(),
        x.subrange(p, x.len() as int) == riff_concat(ks),
        forall|i: int| 0 <= i < ks.len() ==> (#[trigger] ks[i]).0.len() == 4 && ks[i].1.len() <= u32::MAX,
    ensures
        webp_chunks_from(x, p, limit).len() <= ks.len(),
        limit == x.len() ==> webp_chunks_from(x, p, limit).len() == ks.len(),
        forall|i: int|
            0 <= i < webp_chunks_from(x, p, limit).len() ==> webp_fourcc(
                x,
                (#[trigger] webp_chunks_from(x, p, limit)[i]).0,
            ) == ks[i].0 && webp_payload(x, webp_chunks_from(x, p, limit)[i]) == ks[i].1,
    decreases ks.len(),
{
    let tail = x.subrange(p, x.len() as int);
    if ks.len() == 0 {
        assert(tail.len() == 0);
    } else {
        let f = ks[0].0;
        let pl = ks[0].1;
        let sz = pl.len() as int;
        let v = #[verifier::truncate] (pl.len() as u32);
        assert(v == sz);
        lemma_bytes32_roundtrip(v, true);
        let pad: Seq<u8> = if sz % 2 == 1 {
            seq![0u8]
        } else {
            Seq::empty()
        };
        let piece = riff_chunk(f, pl);
        assert(piece == f + bytes32(v, true) + pl + pad);
        assert(piece.len() == 8 + sz + sz % 2);
        let ks2 = ks.drop_first();
        let rest = riff_concat(ks2);
        assert(tail == piece + rest);
        assert forall|k: int| 0 <= k < piece.len() implies #[trigger] tail[k] == piece[k] by {
            assert((piece + rest)[k] == piece[k]);
        }
        assert(webp_fourcc(x, p) =~= f) by {
            assert forall|k: int| 0 <= k < 4 implies webp_fourcc(x, p)[k] == f[k] by {
                assert(tail[k] == piece[k]);
            }
        }
        assert(u32_at(x, p + 4, true) == v) by {
            assert(tail[4] == piece[4] && tail[5] == piece[5] && tail[6] == piece[6] && tail[7] == piece[7]);
            assert(u32_at(piece, 4, true) == u32_at(bytes32(v, true), 0, true));
        }
        assert(webp_payload(x, (p, sz)) =~= pl) by {
            assert forall|k: int| 0 <= k < sz implies webp_payload(x, (p, sz))[k] == pl[k] by {
                assert(tail[8 + k] == piece[8 + k]);
            }
        }
        let np = p + 8 + sz + sz % 2;
        assert(x.subrange(np, x.len() as int) =~= rest) by {
            assert forall|k: int| 0 <= k < rest.len() implies x.subrange(np, x.len() as int)[k] == rest[k] by {
                assert(tail[piece.len() + k] == x[np + k]);
                assert((piece + rest)[piece.len() + k] == rest[k]);
            }
        }
        assert forall|i: int| 0 <= i < ks2.len() implies (#[trigger] ks2[i]).0.len() == 4 && ks2[i].1.len()
            <= u32::MAX by {
            assert(ks2[i] == ks[i + 1]);
        }
        lemma_webp_walk_concat(x, np, limit, ks2);
        let w = webp_chunks_from(x, p, limit);
        let w2 = webp_chunks_from(x, np, limit);
        assert(sz % 2 >= 0);
        if p + 8 <= limit {
            assert(w == seq![(p, sz)] + w2);
            assert forall|i: int| 0 <= i < w.len() implies webp_fourcc(x, (#[trigger] w[i]).0) == ks[i].0
                && webp_payload(x, w[i]) == ks[i].1 by {
                if i > 0 {
                    assert(w[i] == w2[i - 1]);
                    assert(ks2[i - 1] == ks[i]);
                }
            }
        }
    }
}

/// Every chunk the metadata strip keeps is a four-byte non-metadata fourcc
/// with its old payload.
proof fn lemma_strip_kept_props(b: Seq<u8>, cs: Seq<(int, int)>, rs: Seq<Option<Seq<u8>>>, j: int)
    requires
        0 <= j,
        rs.len() == cs.len(),
        forall|k: int|
            0 <= k < cs.len() ==> 0 <= (#[trigger] cs[k]).0 && 0 <= cs[k].1 <= u32::MAX && cs[k].0 + 8 + cs[k].1
                <= b.len(),
        forall|k: int|
            0 <= k < cs.len() && #[trigger] rs[k] is Some ==> rs[k]->0.len() == cs[k].1 && !webp_meta_fourcc(
                webp_fourcc(b, cs[k].0),
            ),
    ensures
        forall|i: int|
            0 <= i < kept_from(b, cs, rs, j).len() ==> (#[trigger] kept_from(b, cs, rs, j)[i]).0.len() == 4
                && kept_from(b, cs, rs, j)[i].1.len() <= u32::MAX && !webp_meta_fourcc(
                kept_from(b, cs, rs, j)[i].0,
            ),
    decreases cs.len() - j,
{
    if j < cs.len() {
        lemma_strip_kept_props(b, cs, rs, j + 1);
        let k = kept_from(b, cs, rs, j);
        let k2 = kept_from(b, cs, rs, j + 1);
        if rs[j] is Some {
            assert forall|i: int| 0 <= i < k.len() implies (#[trigger] k[i]).0.len() == 4 && k[i].1.len()
                <= u32::MAX && !webp_meta_fourcc(k[i].0) by {
                if i > 0 {
                    assert(k[i] == k2[i - 1]);
                }
            }
        }
    }
}

/// The strip applied to a file whose chunks are exactly `ks` (none of them
/// metadata) keeps them all.
proof fn lemma_kept_all(x: Seq<u8>, w: Seq<(int, int)>, rs: Seq<Option<Seq<u8>>>, ks: Seq<(Seq<u8>, Seq<u8>)>, j: int)
    requires
        0 <= j <= w.len(),
        w.len() == ks.len(),
        rs.len() == w.len(),
        forall|i: int| 0 <= i < w.len() ==> #[trigger] rs[i] == Some(ks[i].1) && webp_fourcc(x, w[i].0) == ks[i].0,
    ensures
        kept_from(x, w, rs, j) == ks.subrange(j, ks.len() as int),
    decreases w.len() - j,
{
    if j < w.len() {
        lemma_kept_all(x, w, rs, ks, j + 1);
        assert(rs[j] == Some(ks[j].1));
        assert(kept_from(x, w, rs, j) =~= ks.subrange(j, ks.len() as int));
    } else {
        assert(ks.subrange(j, ks.len() as int) =~= Seq::<(Seq<u8>, Seq<u8>)>::empty());
    }
}

/// The rebuilt chunks, each dropped or kept with a payload of its old
/// size, take no more room than the old chunks with their padding.
proof fn lemma_webp_kept_body_len(b: Seq<u8>, cs: Seq<(int, int)>, rs: Seq<Option<Seq<u8>>>, n: int)
    requires
        1 <= n <= cs.len(),
        rs.len() == cs.len(),
        cs[0].0 == 12,
        forall|k: int|
            1 <= k < cs.len() ==> (#[trigger] cs[k]).0 == cs[k - 1].0 + 8 + cs[k - 1].1 + cs[k - 1].1 % 2,
        forall|k: int| 0 <= k < cs.len() ==> 0 <= (#[trigger] cs[k]).0 && 0 <= cs[k].1 <= u32::MAX && cs[k].0 + 8 <= b.len(),
        forall|k: int| 0 <= k < cs.len() ==> #[trigger] rs[k] is None || rs[k]->0.len() == cs[k].1,
    ensures
        webp_body(b, cs, rs, n).len() <= cs[n - 1].0 + 8 + cs[n - 1].1 + cs[n - 1].1 % 2 - 12,
    decreases n,
{
    let c = cs[n - 1];
    let piece = match rs[n - 1] {
        Some(p) => riff_chunk(webp_fourcc(b, c.0), p),
        None => Seq::empty(),
    };
    assert(webp_body(b, cs, rs, n) == webp_body(b, cs, rs, n - 1) + piece);
    assert(rs[n - 1] is None || rs[n - 1]->0.len() == cs[n - 1].1);
    assert(0 <= cs[n - 1].1 <= u32::MAX);
    if let Some(pl) = rs[n - 1] {
        let v = #[verifier::truncate] (pl.len() as u32);
        assert(v == pl.len());
        lemma_bytes32_roundtrip(v, true);
        assert(piece.len() == 8 + c.1 + c.1 % 2);
    }
    if n > 1 {
        lemma_webp_kept_body_len(b, cs, rs, n - 1);
    }
}

/// The shape of the metadata strip's output for a WebP: the RIFF/WEBP
/// header and the kept chunks, no longer than the input plus one padding
/// byte (no longer than the input when every chunk has its padding).
proof fn lemma_webp_strip_shape(b: Seq<u8>)
    requires
        spec_is_webp(b),
    ensures
        ({
            let body = riff_concat(strip_kept(b));
            &&& spec_strip_webp_metadata(b) == riff_tag() + bytes32(
                #[verifier::truncate] ((body.len() + 4) as u32),
                true,
            ) + webp_tag() + body
            &&& body.len() + 11 <= b.len()
            &&& webp_chunks_padded(b) ==> body.len() + 12 <= b.len()
        }),
        forall|i: int|
            0 <= i < strip_kept(b).len() ==> (#[trigger] strip_kept(b)[i]).0.len() == 4 && strip_kept(b)[i].1.len()
                <= u32::MAX && !webp_meta_fourcc(strip_kept(b)[i].0),
{
    let cs = webp_chunk_list(b);
    let rs = chunk_choices(b, |f: Seq<u8>, p: Seq<u8>| strip_choice(f, p));
    let n = cs.len() as int;
    lemma_webp_chunks_bounds(b, 12, webp_limit(b));
    lemma_webp_chunks_spaced(b, 12, webp_limit(b));
    assert forall|k: int| 0 <= k < cs.len() && #[trigger] rs[k] is Some implies rs[k]->0.len() == cs[k].1
        && !webp_meta_fourcc(webp_fourcc(b, cs[k].0)) by {
        assert(rs[k] == strip_choice(webp_fourcc(b, cs[k].0), webp_payload(b, cs[k])));
    }
    lemma_strip_kept_props(b, cs, rs, 0);
    lemma_webp_body_split(b, cs, rs, n);
    assert(webp_body_from(b, cs, rs, n) =~= Seq::<u8>::empty());
    lemma_body_from_concat(b, cs, rs, 0);
    let body = webp_body(b, cs, rs, n);
    assert(body =~= riff_concat(strip_kept(b)));
    if n > 0 {
        assert forall|k: int| 0 <= k < cs.len() implies #[trigger] rs[k] is None || rs[k]->0.len() == cs[k].1 by {
            assert(rs[k] == strip_choice(webp_fourcc(b, cs[k].0), webp_payload(b, cs[k])));
        }
        lemma_webp_kept_body_len(b, cs, rs, n);
        assert(cs[n - 1].0 + 8 + cs[n - 1].1 <= b.len());
    }
}

/// Stripping a WebP's metadata never makes it longer, when every chunk has
/// its padding byte.
pub proof fn lemma_strip_webp_never_grows(b: Seq<u8>)
    requires
        webp_chunks_padded(b),
    ensures
        spec_strip_webp_metadata(b).len() <= b.len(),
{
    if spec_is_webp(b) {
        lemma_webp_strip_shape(b);
        let body = riff_concat(strip_kept(b));
        lemma_bytes32_roundtrip(#[verifier::truncate] ((body.len() + 4) as u32), true);
    }
}

/// Stripping the metadata of a WebP leaves no EXIF block for extraction to
/// find.
#[verifier::rlimit(40)]
#[verifier::spinoff_prover]
pub proof fn lemma_webp_strip_leaves_no_exif(b: Seq<u8>)
    requires
        spec_is_webp(b),
    ensures
        spec_extract_exif_tiff(spec_strip_webp_metadata(b)) is None,
{
    lemma_webp_strip_shape(b);
    let ks = strip_kept(b);
    let body = riff_concat(ks);
    let out = spec_strip_webp_metadata(b);
    let v = #[verifier::truncate] ((body.len() + 4) as u32);
    lemma_bytes32_roundtrip(v, true);
    assert(out.len() == 12 + body.len());
    assert(out[0] == 0x52u8 && out[1] == 0x49u8 && out[2] == 0x46u8 && out[3] == 0x46u8);
    assert(out[8] == 0x57u8 && out[9] == 0x45u8 && out[10] == 0x42u8 && out[11] == 0x50u8);
    assert(spec_is_webp(out));
    assert(out.subrange(12, out.len() as int) =~= body);
    lemma_webp_walk_concat(out, 12, webp_limit(out), ks);
    let w = webp_chunk_list(out);
    assert forall|k: int| 0 <= k < w.len() implies out.subrange((#[trigger] w[k]).0 + 0, w[k].0 + 0 + 4)
        != seq![0x45u8, 0x58, 0x49, 0x46] by {
        assert(webp_fourcc(out, w[k].0) =~= out.subrange(w[k].0 + 0, w[k].0 + 0 + 4));
        assert(!webp_meta_fourcc(ks[k].0));
    }
    lemma_no_chunk_of_kind(out, w, 0, seq![0x45u8, 0x58, 0x49, 0x46], 0);
}

/// Stripping a WebP's metadata a second time changes nothing (for files
/// whose size a RIFF header can state).
pub proof fn lemma_strip_webp_idempotent(b: Seq<u8>)
    requires
        b.len() <= u32::MAX,
    ensures
        spec_is_webp(b) ==> spec_is_webp(spec_strip_webp_metadata(b)),
        spec_strip_webp_metadata(spec_strip_webp_metadata(b)) == spec_strip_webp_metadata(b),
{
    if spec_is_webp(b) {
        lemma_webp_strip_shape(b);
        let ks = strip_kept(b);
        let body = riff_concat(ks);
        let out = spec_strip_webp_metadata(b);
        let v = #[verifier::truncate] ((body.len() + 4) as u32);
        assert(v == body.len() + 4);
        lemma_bytes32_roundtrip(v, true);
        assert(out.len() == 12 + body.len());
        assert(out[0] == 0x52u8 && out[1] == 0x49u8 && out[2] == 0x46u8 && out[3] == 0x46u8);
        assert(out[8] == 0x57u8 && out[9] == 0x45u8 && out[10] == 0x42u8 && out[11] == 0x50u8);
        assert(out.subrange(4, 8) =~= bytes32(v, true));
        assert(u32_at(out, 4, true) == v);
        assert(webp_limit(out) == out.len());
        assert(out.subrange(12, out.len() as int) =~= body);
        lemma_webp_walk_concat(out, 12, out.len() as int, ks);
        let w = webp_chunk_list(out);
        let rs2 = chunk_choices(out, |f: Seq<u8>, p: Seq<u8>| strip_choice(f, p));
        assert forall|i: int| 0 <= i < w.len() implies #[trigger] rs2[i] == Some(ks[i].1) && webp_fourcc(
            out,
            w[i].0,
        ) == ks[i].0 by {
            assert(rs2[i] == strip_choice(webp_fourcc(out, w[i].0), webp_payload(out, w[i])));
            assert(!webp_meta_fourcc(ks[i].0));
        }
        lemma_kept_all(out, w, rs2, ks, 0);
        assert(ks.subrange(0, ks.len() as int) =~= ks);
        lemma_webp_body_split(out, w, rs2, w.len() as int);
        assert(webp_body_from(out, w, rs2, w.len() as int) =~= Seq::<u8>::empty());
        lemma_body_from_concat(out, w, rs2, 0);
        let body2 = webp_body(out, w, rs2, w.len() as int);
        assert(body2 =~= body);
        assert(spec_strip_webp_metadata(out) == riff_tag() + bytes32(v, true) + webp_tag() + body2);
    }
}

/// Walking the chunks of `x` from `p`, where `x[p..]` is the rebuilt chunks
/// of `cs[j..]`, every one of them kept, meets those chunks in order: each
/// with its fourcc and its new payload.
proof fn lemma_webp_walk_rebuilt(
    x: Seq<u8>,
    p: int,
    b: Seq<u8>,
    cs: Seq<(int, int)>,
    rs: Seq<Option<Seq<u8>>>,
    j: int,
)
    requires
        0 <= p <= x.len(),
        0 <= j <= cs.len(),
        rs.len() == cs.len(),
        x.subrange(p, x.len() as int) == webp_body_from(b, cs, rs, j),
        forall|k: int| 0 <= k < cs.len() ==> 0 <= (#[trigger] cs[k]).0 && cs[k].0 + 8 <= b.len(),
        forall|k: int| 0 <= k < cs.len() ==> #[trigger] rs[k] is Some && rs[k]->0.len() <= u32::MAX,
    ensures
        webp_chunks_from(x, p, x.len() as int).len() == cs.len() - j,
        forall|i: int|
            0 <= i < webp_chunks_from(x, p, x.len() as int).len() ==> webp_fourcc(
                x,
                (#[trigger] webp_chunks_from(x, p, x.len() as int)[i]).0,
            ) == webp_fourcc(b, cs[j + i].0) && webp_payload(x, webp_chunks_from(x, p, x.len() as int)[i])
                == rs[j + i]->0,
    decreases cs.len() - j,
{
    if j == cs.len() {
        assert(x.subrange(p, x.len() as int).len() == 0);
    } else {
        let f = webp_fourcc(b, cs[j].0);
        let pl = rs[j]->0;
        let sz = pl.len() as int;
        let v = #[verifier::truncate] (pl.len() as u32);
        assert(v == sz);
        lemma_bytes32_roundtrip(v, true);
        let pad: Seq<u8> = if sz % 2 == 1 {
            seq![0u8]
        } else {
            Seq::empty()
        };
        let piece = riff_chunk(f, pl);
        assert(piece == f + bytes32(v, true) + pl + pad);
        assert(piece.len() == 8 + sz + sz % 2);
        let rest = webp_body_from(b, cs, rs, j + 1);
        assert(webp_body_from(b, cs, rs, j) == piece + rest);
        let tail = x.subrange(p, x.len() as int);
        assert forall|k: int| 0 <= k < piece.len() implies #[trigger] tail[k] == piece[k] by {
            assert((piece + rest)[k] == piece[k]);
        }
        assert(webp_fourcc(x, p) =~= f) by {
            assert forall|k: int| 0 <= k < 4 implies webp_fourcc(x, p)[k] == f[k] by {
                assert(tail[k] == piece[k]);
            }
        }
        assert(u32_at(x, p + 4, true) == v) by {
            assert(tail[4] == piece[4] && tail[5] == piece[5] && tail[6] == piece[6] && tail[7] == piece[7]);
            assert(u32_at(piece, 4, true) == u32_at(bytes32(v, true), 0, true));
        }
        assert(webp_payload(x, (p, sz)) =~= pl) by {
            assert forall|k: int| 0 <= k < sz implies webp_payload(x, (p, sz))[k] == pl[k] by {
                assert(tail[8 + k] == piece[8 + k]);
            }
        }
        let np = p + 8 + sz + sz % 2;
        assert(x.subrange(np, x.len() as int) =~= rest) by {
            assert forall|k: int| 0 <= k < rest.len() implies x.subrange(np, x.len() as int)[k] == rest[k] by {
                assert(tail[piece.len() + k] == x[np + k]);
                assert((piece + rest)[piece.len() + k] == rest[k]);
            }
        }
        lemma_webp_walk_rebuilt(x, np, b, cs, rs, j + 1);
        let w = webp_chunks_from(x, p, x.len() as int);
        let w2 = webp_chunks_from(x, np, x.len() as int);
        assert(sz % 2 >= 0);
        assert(w == seq![(p, sz)] + w2);
        assert forall|i: int| 0 <= i < w.len() implies webp_fourcc(x, (#[trigger] w[i]).0) == webp_fourcc(
            b,
            cs[j + i].0,
        ) && webp_payload(x, w[i]) == rs[j + i]->0 by {
            if i > 0 {
                assert(w[i] == w2[i - 1]);
                assert(j + 1 + (i - 1) == j + i);
            }
        }
    }
}

/// The rebuilt chunks, every one kept with a payload of its old size, take
/// exactly the room the old chunks took, padding included.
proof fn lemma_webp_same_size_body_len(b: Seq<u8>, cs: Seq<(int, int)>, rs: Seq<Option<Seq<u8>>>, n: int)
    requires
        1 <= n <= cs.len(),
        rs.len() == cs.len(),
        cs[0].0 == 12,
        forall|k: int|
            1 <= k < cs.len() ==> (#[trigger] cs[k]).0 == cs[k - 1].0 + 8 + cs[k - 1].1 + cs[k - 1].1 % 2,
        forall|k: int| 0 <= k < cs.len() ==> 0 <= (#[trigger] cs[k]).0 && cs[k].1 >= 0 && cs[k].0 + 8 <= b.len(),
        forall|k: int| 0 <= k < cs.len() ==> #[trigger] rs[k] is Some && rs[k]->0.len() == cs[k].1,
    ensures
        webp_body(b, cs, rs, n).len() == cs[n - 1].0 + 8 + cs[n - 1].1 + cs[n - 1].1 % 2 - 12,
    decreases n,
{
    let c = cs[n - 1];
    let pl = rs[n - 1]->0;
    let piece = riff_chunk(webp_fourcc(b, c.0), pl);
    assert(webp_body(b, cs, rs, n) == webp_body(b, cs, rs, n - 1) + piece);
    lemma_bytes32_roundtrip(#[verifier::truncate] (pl.len() as u32), true);
    assert(piece.len() == 8 + c.1 + c.1 % 2);
    if n > 1 {
        lemma_webp_same_size_body_len(b, cs, rs, n - 1);
    }
}

/// The payload of the first `EXIF` chunk of a WebP.
pub open spec fn webp_first_exif_payload(b: Seq<u8>) -> Option<Seq<u8>> {
    match first_chunk(b, webp_chunk_list(b), 0, webp_exif_fourcc(), 0) {
        Some(i) => Some(webp_payload(b, webp_chunk_list(b)[i])),
        None => None,
    }
}

/// After the GPS strip, the EXIF block found in a WebP is the one found
/// before with the GPS pointer removed, when the first `EXIF` chunk holds a
/// bare TIFF block (no `Exif\0\0` prefix) whose IFD0 follows its header
/// (for files whose size a RIFF header can state).
#[verifier::rlimit(80)]
#[verifier::spinoff_prover]
pub proof fn lemma_webp_strip_gps_then_extract(b: Seq<u8>)
    requires
        spec_is_webp(b),
        b.len() <= u32::MAX,
        webp_gps_input_ok(b),
        webp_first_exif_payload(b) matches Some(d) ==> !has_at(d, 0, exif_header()) && ifd0_after_header(d),
    ensures
        spec_extract_exif_tiff(b) == webp_first_exif_payload(b),
        webp_first_exif_payload(b) matches Some(d) ==> gps_table_fits(d),
        webp_rebuilt(b, chunk_choices(b, |f: Seq<u8>, p: Seq<u8>| gps_choice(f, p))) matches Some(out)
            && spec_extract_exif_tiff(out) == match spec_extract_exif_tiff(b) {
            Some(t) => Some(spec_strip_gps_from_tiff(t)),
            None => None,
        },
{
    let cs = webp_chunk_list(b);
    let rs = chunk_choices(b, |f: Seq<u8>, p: Seq<u8>| gps_choice(f, p));
    let n = cs.len() as int;
    let body = webp_body(b, cs, rs, n);
    let out = webp_rebuilt(b, rs)->0;
    let v = #[verifier::truncate] ((body.len() + 4) as u32);
    lemma_webp_chunks_bounds(b, 12, webp_limit(b));
    lemma_webp_chunks_spaced(b, 12, webp_limit(b));
    assert forall|k: int| 0 <= k < cs.len() implies #[trigger] rs[k] is Some && rs[k]->0.len() == cs[k].1 by {
        let pk = webp_payload(b, cs[k]);
        assert(rs[k] == gps_choice(webp_fourcc(b, cs[k].0), pk));
        if webp_fourcc(b, cs[k].0) == webp_exif_fourcc() && gps_table_fits(pk) {
            lemma_strip_gps_len(pk);
        }
    }
    if n > 0 {
        lemma_webp_same_size_body_len(b, cs, rs, n);
        assert(cs[n - 1].0 + 8 + cs[n - 1].1 <= b.len());
    }
    assert(body.len() + 4 <= u32::MAX);
    lemma_webp_body_split(b, cs, rs, n);
    assert(webp_body_from(b, cs, rs, n) =~= Seq::<u8>::empty());
    assert(body =~= webp_body_from(b, cs, rs, 0));
    lemma_bytes32_roundtrip(v, true);
    assert(out == riff_tag() + bytes32(v, true) + webp_tag() + body);
    assert(out.len() == 12 + body.len());
    assert(out[0] == 0x52u8 && out[1] == 0x49u8 && out[2] == 0x46u8 && out[3] == 0x46u8);
    assert(out[8] == 0x57u8 && out[9] == 0x45u8 && out[10] == 0x42u8 && out[11] == 0x50u8);
    assert(out.subrange(4, 8) =~= bytes32(v, true));
    assert(u32_at(out, 4, true) == v);
    assert(webp_limit(out) == out.len());
    assert(out.subrange(12, out.len() as int) =~= webp_body_from(b, cs, rs, 0));
    lemma_webp_walk_rebuilt(out, 12, b, cs, rs, 0);
    let w = webp_chunk_list(out);
    let kind = seq![0x45u8, 0x58, 0x49, 0x46];
    assert(kind == webp_exif_fourcc());
    assert forall|k: int| 0 <= k < cs.len() implies out.subrange((#[trigger] w[k]).0 + 0, w[k].0 + 0 + 4)
        == b.subrange(cs[k].0 + 0, cs[k].0 + 0 + 4) by {
        assert(webp_fourcc(out, w[k].0) == webp_fourcc(b, cs[0 + k].0));
        assert(out.subrange(w[k].0 + 0, w[k].0 + 0 + 4) =~= webp_fourcc(out, w[k].0));
        assert(b.subrange(cs[k].0 + 0, cs[k].0 + 0 + 4) =~= webp_fourcc(b, cs[k].0));
    }
    lemma_same_chunk_found(out, w, b, cs, 0, kind, 0);
    lemma_chunk_found(b, cs, 0, kind, 0);
    if let Some(i) = first_chunk(b, cs, 0, kind, 0) {
        let d = webp_payload(b, cs[i]);
        assert(webp_fourcc(b, cs[i].0) =~= b.subrange(cs[i].0 + 0, cs[i].0 + 0 + 4));
        assert(gps_table_fits(d));
        assert(rs[i] == gps_choice(webp_fourcc(b, cs[i].0), d));
        assert(webp_payload(out, w[i]) == spec_strip_gps_from_tiff(d));
        lemma_strip_gps_keeps_header(d);
        let sd = spec_strip_gps_from_tiff(d);
        if d.len() >= 6 {
            assert(sd.subrange(0, 6) =~= d.subrange(0, 6)) by {
                assert forall|p: int| 0 <= p < 6 implies sd.subrange(0, 6)[p] == d.subrange(0, 6)[p] by {
                    assert(sd[p] == d[p]);
                }
            }
        }
        assert(!has_at(sd, 0, exif_header()));
    }
}

/// The injection's decision for a chunk: an `EXIF` payload becomes `tiff`.
pub open spec fn inject_choice(tiff: Seq<u8>, fourcc: Seq<u8>, p: Seq<u8>) -> Option<Seq<u8>> {
    if fourcc == webp_exif_fourcc() {
        Some(tiff)
    } else {
        Some(p)
    }
}

/// Does `EXIF` occur anywhere in `b`?
pub open spec fn has_exif_fourcc(b: Seq<u8>) -> bool {
    exists|i: int| #[trigger] has_at(b, i, webp_exif_fourcc())
}

/// `out` with an `EXIF` chunk holding `tiff` inserted right after the
/// 12-byte RIFF/WEBP header and the RIFF size updated.
pub open spec fn with_exif_chunk(out: Seq<u8>, tiff: Seq<u8>) -> Seq<u8> {
    let w = out.subrange(0, 12) + webp_exif_fourcc() + bytes32((tiff.len() % 0x1_0000_0000) as u32, true) + tiff + (if tiff.len() % 2 == 1 {
        seq![0u8]
    } else {
        Seq::empty()
    }) + out.subrange(12, out.len() as int);
    crate::bytes::put32(w, 4, ((w.len() - 8) % 0x1_0000_0000) as u32, true)
}

/// The WebP with every `EXIF` payload replaced by `tiff`; when it had no
/// `EXIF` chunk (no `EXIF` bytes at all in the rebuilt file), one is
/// inserted after the header.  `None` for a non-WebP.
pub open spec fn spec_inject_exif_into_webp(b: Seq<u8>, tiff: Seq<u8>) -> Option<Seq<u8>> {
    match webp_rebuilt(b, chunk_choices(b, |f: Seq<u8>, p: Seq<u8>| inject_choice(tiff, f, p))) {
        None => None,
        Some(out) => if has_exif_fourcc(out) {
            Some(out)
        } else {
            Some(with_exif_chunk(out, tiff))
        },
    }
}

/// A WebP rebuilt with every chunk kept, whose size fits a RIFF header, is
/// a WebP that walks as those chunks: in order, each with its fourcc and
/// its new payload.
#[verifier::rlimit(40)]
proof fn lemma_webp_rebuilt_walk(b: Seq<u8>, rs: Seq<Option<Seq<u8>>>)
    requires
        spec_is_webp(b),
        rs.len() == webp_chunk_list(b).len(),
        forall|k: int| 0 <= k < rs.len() ==> #[trigger] rs[k] is Some && rs[k]->0.len() <= u32::MAX,
        webp_rebuilt(b, rs)->0.len() <= u32::MAX,
    ensures
        ({
            let out = webp_rebuilt(b, rs)->0;
            let cs = webp_chunk_list(b);
            &&& spec_is_webp(out)
            &&& out[0] == 0x52u8
            &&& webp_chunk_list(out).len() == cs.len()
            &&& forall|i: int|
                0 <= i < cs.len() ==> webp_fourcc(out, (#[trigger] webp_chunk_list(out)[i]).0) == webp_fourcc(
                    b,
                    cs[i].0,
                ) && webp_payload(out, webp_chunk_list(out)[i]) == rs[i]->0
        }),
{
    let cs = webp_chunk_list(b);
    let n = cs.len() as int;
    let body = webp_body(b, cs, rs, n);
    let out = webp_rebuilt(b, rs)->0;
    let v = #[verifier::truncate] ((body.len() + 4) as u32);
    lemma_webp_chunks_bounds(b, 12, webp_limit(b));
    lemma_webp_body_split(b, cs, rs, n);
    assert(webp_body_from(b, cs, rs, n) =~= Seq::<u8>::empty());
    assert(body =~= webp_body_from(b, cs, rs, 0));
    lemma_bytes32_roundtrip(v, true);
    assert(out == riff_tag() + bytes32(v, true) + webp_tag() + body);
    assert(out.len() == 12 + body.len());
    assert(v == body.len() + 4);
    assert(out[0] == 0x52u8 && out[1] == 0x49u8 && out[2] == 0x46u8 && out[3] == 0x46u8);
    assert(out[8] == 0x57u8 && out[9] == 0x45u8 && out[10] == 0x42u8 && out[11] == 0x50u8);
    assert(out.subrange(4, 8) =~= bytes32(v, true));
    assert(u32_at(out, 4, true) == v);
    assert(webp_limit(out) == out.len());
    assert(out.subrange(12, out.len() as int) =~= webp_body_from(b, cs, rs, 0));
    lemma_webp_walk_rebuilt(out, 12, b, cs, rs, 0);
}

/// The inject's rebuilt file, when the WebP has an `EXIF` chunk, holds
/// `tiff` in the first `EXIF` chunk walked (and so holds `EXIF` bytes).
#[verifier::rlimit(80)]
#[verifier::spinoff_prover]
proof fn lemma_inject_webp_existing(b: Seq<u8>, tiff: Seq<u8>)
    requires
        spec_is_webp(b),
        !has_at(tiff, 0, exif_header()),
        tiff.len() <= u32::MAX,
        webp_first_exif_payload(b) is Some,
        webp_rebuilt(b, chunk_choices(b, |f: Seq<u8>, p: Seq<u8>| inject_choice(tiff, f, p)))->0.len() <= u32::MAX,
    ensures
        ({
            let out = webp_rebuilt(b, chunk_choices(b, |f: Seq<u8>, p: Seq<u8>| inject_choice(tiff, f, p)))->0;
            has_exif_fourcc(out) && spec_extract_exif_tiff(out) == Some(tiff)
        }),
{
    let cs = webp_chunk_list(b);
    let rs = chunk_choices(b, |f: Seq<u8>, p: Seq<u8>| inject_choice(tiff, f, p));
    let out = webp_rebuilt(b, rs)->0;
    lemma_webp_chunks_bounds(b, 12, webp_limit(b));
    let kind = seq![0x45u8, 0x58, 0x49, 0x46];
    assert(kind == webp_exif_fourcc());
    lemma_chunk_found(b, cs, 0, kind, 0);
    let i = first_chunk(b, cs, 0, kind, 0)->0;
    assert(rs[i] == Some(tiff)) by {
        assert(webp_fourcc(b, cs[i].0) =~= b.subrange(cs[i].0 + 0, cs[i].0 + 0 + 4));
    }
    assert forall|k: int| 0 <= k < rs.len() implies #[trigger] rs[k] is Some && rs[k]->0.len() <= u32::MAX by {
        assert(rs[k] == inject_choice(tiff, webp_fourcc(b, cs[k].0), webp_payload(b, cs[k])));
    }
    lemma_webp_rebuilt_walk(b, rs);
    let w = webp_chunk_list(out);
    assert forall|k: int| 0 <= k < cs.len() implies out.subrange((#[trigger] w[k]).0 + 0, w[k].0 + 0 + 4)
        == b.subrange(cs[k].0 + 0, cs[k].0 + 0 + 4) by {
        assert(webp_fourcc(out, w[k].0) == webp_fourcc(b, cs[k].0));
        assert(out.subrange(w[k].0 + 0, w[k].0 + 0 + 4) =~= webp_fourcc(out, w[k].0));
        assert(b.subrange(cs[k].0 + 0, cs[k].0 + 0 + 4) =~= webp_fourcc(b, cs[k].0));
    }
    lemma_same_chunk_found(out, w, b, cs, 0, kind, 0);
    assert(webp_fourcc(out, w[i].0) == webp_fourcc(b, cs[i].0));
    lemma_webp_chunks_bounds(out, 12, webp_limit(out));
    assert(webp_fourcc(b, cs[i].0) =~= b.subrange(cs[i].0 + 0, cs[i].0 + 0 + 4));
    assert(has_at(out, w[i].0, webp_exif_fourcc()));
    assert(webp_payload(out, w[i]) == tiff);
}

/// With no `EXIF` bytes in the rebuilt file, the chunk inserted after the
/// header is the first chunk walked, and it holds `tiff`.
#[verifier::rlimit(40)]
proof fn lemma_inject_webp_inserted(out: Seq<u8>, tiff: Seq<u8>)
    requires
        spec_is_webp(out),
        !has_at(tiff, 0, exif_header()),
        with_exif_chunk(out, tiff).len() <= u32::MAX,
    ensures
        spec_extract_exif_tiff(with_exif_chunk(out, tiff)) == Some(tiff),
{
    let res = with_exif_chunk(out, tiff);
    let kind = seq![0x45u8, 0x58, 0x49, 0x46];
    let tl = tiff.len() as int;
    let pad: Seq<u8> = if tl % 2 == 1 {
        seq![0u8]
    } else {
        Seq::empty()
    };
    let t32 = (tl % 0x1_0000_0000) as u32;
    let w0 = out.subrange(0, 12) + webp_exif_fourcc() + bytes32(t32, true) + tiff + pad + out.subrange(
        12,
        out.len() as int,
    );
    let sz = ((w0.len() - 8) % 0x1_0000_0000) as u32;
    assert(res == crate::bytes::put32(w0, 4, sz, true));
    lemma_read_after_write32(w0, 4, sz, true);
    assert(res.len() == w0.len());
    assert(sz == w0.len() - 8);
    assert(t32 == tl);
    lemma_bytes32_roundtrip(t32, true);
    assert(res[0] == 0x52u8 && res[1] == 0x49u8 && res[2] == 0x46u8 && res[3] == 0x46u8);
    assert(res[8] == 0x57u8 && res[9] == 0x45u8 && res[10] == 0x42u8 && res[11] == 0x50u8);
    assert(spec_is_webp(res));
    assert(rd32(res, 4, true) == Some(sz));
    assert(webp_limit(res) == res.len());
    assert(res[16] == w0[16] && res[17] == w0[17] && res[18] == w0[18] && res[19] == w0[19]);
    assert(w0.subrange(16, 20) =~= bytes32(t32, true));
    assert(u32_at(res, 16, true) == tl);
    let wl = webp_chunk_list(res);
    assert(wl[0] == (12int, tl));
    assert(res.subrange(12int + 0, 12int + 0 + 4) =~= kind) by {
        assert forall|k: int| 0 <= k < 4 implies res.subrange(12, 16)[k] == kind[k] by {
            assert(res[12 + k] == w0[12 + k]);
        }
    }
    assert(webp_payload(res, wl[0]) =~= tiff) by {
        assert forall|k: int| 0 <= k < tl implies webp_payload(res, wl[0])[k] == tiff[k] by {
            assert(res[20 + k] == w0[20 + k]);
        }
    }
}

/// Grafting a block onto a WebP: extraction then finds exactly that block
/// (a bare TIFF block, no `Exif\0\0` prefix), when the WebP had an `EXIF`
/// chunk or its rebuilt form holds no `EXIF` bytes at all (else nothing is
/// grafted), and the block's and the result's sizes fit a RIFF header.
pub proof fn lemma_inject_webp_then_extract(b: Seq<u8>, tiff: Seq<u8>)
    requires
        spec_is_webp(b),
        !has_at(tiff, 0, exif_header()),
        tiff.len() <= u32::MAX,
        spec_inject_exif_into_webp(b, tiff) matches Some(o) ==> o.len() <= u32::MAX,
        webp_first_exif_payload(b) is Some || !has_exif_fourcc(
            webp_rebuilt(b, chunk_choices(b, |f: Seq<u8>, p: Seq<u8>| inject_choice(tiff, f, p)))->0,
        ),
    ensures
        spec_inject_exif_into_webp(b, tiff) matches Some(o) && spec_extract_exif_tiff(o) == Some(tiff),
{
    let rs = chunk_choices(b, |f: Seq<u8>, p: Seq<u8>| inject_choice(tiff, f, p));
    let out = webp_rebuilt(b, rs)->0;
    if webp_first_exif_payload(b) is Some {
        if !has_exif_fourcc(out) {
            assert(with_exif_chunk(out, tiff).len() >= out.len());
        }
        lemma_inject_webp_existing(b, tiff);
    } else {
        let cs = webp_chunk_list(b);
        let body = webp_body(b, cs, rs, cs.len() as int);
        let v = #[verifier::truncate] ((body.len() + 4) as u32);
        lemma_bytes32_roundtrip(v, true);
        assert(out == riff_tag() + bytes32(v, true) + webp_tag() + body);
        assert(out[0] == 0x52u8 && out[1] == 0x49u8 && out[2] == 0x46u8 && out[3] == 0x46u8);
        assert(out[8] == 0x57u8 && out[9] == 0x45u8 && out[10] == 0x42u8 && out[11] == 0x50u8);
        lemma_inject_webp_inserted(out, tiff);
    }
}

fn contains_exif_fourcc(b: &[u8]) -> (r: bool)
    ensures
        r == has_exif_fourcc(b@),
{
    let tag: [u8; 4] = [0x45, 0x58, 0x49, 0x46];
    assert(tag@ =~= webp_exif_fourcc());
    let mut i: usize = 0;
    while i < b.len()
        invariant
            tag@ == webp_exif_fourcc(),
            i <= b@.len(),
            forall|j: int| 0 <= j < i ==> !#[trigger] has_at(b@, j, webp_exif_fourcc()),
        decreases b.len() - i,
    {
        if bytes_at(b, i, &tag) {
            return true;
        }
        i = i + 1;
    }
    assert forall|j: int| !#[trigger] has_at(b@, j, webp_exif_fourcc()) by {
        if 0 <= j < i {
        }
    }
    false
}

pub fn inject_exif_into_webp(webp: &[u8], tiff: &[u8]) -> (r: Result<Vec<u8>, BatImgError>)
    ensures
        match r {
            Ok(v) => spec_inject_exif_into_webp(webp@, tiff@) == Some(v@),
            Err(e) => spec_inject_exif_into_webp(webp@, tiff@) is None && e is Exif,
        },
{
    let t = |fourcc: &[u8; 4], payload: &[u8]| -> (r: Option<Vec<u8>>)
        ensures
            opt_view(r) == inject_choice(tiff@, fourcc@, payload@),
        {
            if fourcc_is(fourcc, 0x45, 0x58, 0x49, 0x46) {
                Some(to_vec(tiff))
            } else {
                Some(to_vec(payload))
            }
        };
    let r = rebuild_webp_chunks(webp, t);
    proof {
        let b = webp@;
        let target = chunk_choices(b, |f: Seq<u8>, p: Seq<u8>| inject_choice(tiff@, f, p));
        let rs = choose|rs: Seq<Option<Seq<u8>>>|
            #![trigger webp_rebuilt(b, rs)]
            rs.len() == webp_chunk_list(b).len() && (forall|i: int|
                0 <= i < rs.len() ==> webp_decided(t, b, webp_chunk_list(b)[i], #[trigger] rs[i]))
                && opt_view(r) == webp_rebuilt(b, rs);
        assert forall|i: int| 0 <= i < rs.len() implies rs[i] == target[i] by {
            assert(webp_decided(t, b, webp_chunk_list(b)[i], rs[i]));
        }
        assert(rs =~= target);
    }
    let out = match r {
        Some(v) => v,
        None => return Err(BatImgError::Exif("WebP EXIF injection failed".to_owned())),
    };
    if contains_exif_fourcc(out.as_slice()) {
        return Ok(out);
    }
    let mut w: Vec<u8> = Vec::new();
    extend_range(&mut w, out.as_slice(), 0, 12);
    let tag: [u8; 4] = [0x45, 0x58, 0x49, 0x46];
    extend_range(&mut w, &tag, 0, 4);
    push_u32(&mut w, (tiff.len() as u64 % 0x1_0000_0000) as u32, true);
    extend_range(&mut w, tiff, 0, tiff.len());
    if tiff.len() % 2 == 1 {
        w.push(0);
    }
    extend_range(&mut w, out.as_slice(), 12, out.len());
    assert(w@ =~= out@.subrange(0, 12) + webp_exif_fourcc() + bytes32((tiff@.len() % 0x1_0000_0000) as u32, true) + tiff@ + (if tiff@.len() % 2 == 1 {
        seq![0u8]
    } else {
        Seq::empty()
    }) + out@.subrange(12, out@.len() as int));
    let riff_size = ((w.len() - 8) as u64 % 0x1_0000_0000) as u32;
    write_u32(&mut w, 4, riff_size, true);
    Ok(w)
}

} // verus!
