//! PNG chunk walking, CRC and rewriting.
use vstd::prelude::*;
use crate::bytes::{span_view, bytes32, extend_range, lemma_bytes32_roundtrip, overwrite, read_u32, to_vec, u32_at};
use crate::error::BatImgError;
use super::container::{is_png, png_sig, spec_is_png};

verus! {

// ---- PNG -------------------------------------------------------------------

/// PNG chunks from `pos`, as `(offset of the length field, data length)`.
/// A chunk that does not fit ends the list.
pub open spec fn png_chunks_from(b: Seq<u8>, pos: int) -> Seq<(int, int)>
    decreases b.len() - pos,
{
    if pos < 0 || pos + 8 > b.len() {
        Seq::empty()
    } else {
        let len = u32_at(b, pos, false) as int;
        let end = pos + 12 + len;
        if end > b.len() {
            Seq::empty()
        } else {
            seq![(pos, len)] + png_chunks_from(b, end)
        }
    }
}

/// The chunks of a PNG file (none for anything else).
pub open spec fn png_chunk_list(b: Seq<u8>) -> Seq<(int, int)> {
    if spec_is_png(b) {
        png_chunks_from(b, 8)
    } else {
        Seq::empty()
    }
}


/// The four-byte type of the chunk whose length field is at `start`.
pub open spec fn png_kind(b: Seq<u8>, start: int) -> Seq<u8> {
    b.subrange(start + 4, start + 8)
}

/// The data of the chunk `(start, len)`.
pub open spec fn png_data(b: Seq<u8>, c: (int, int)) -> Seq<u8> {
    b.subrange(c.0 + 8, c.0 + 8 + c.1)
}

/// One past the CRC of the chunk `(start, len)`.
pub open spec fn png_end(c: (int, int)) -> int {
    c.0 + 12 + c.1
}

pub proof fn lemma_png_chunks_bounds(b: Seq<u8>, pos: int)
    requires
        pos >= 0,
    ensures
        forall|i: int|
            0 <= i < png_chunks_from(b, pos).len() ==> pos <= #[trigger] png_chunks_from(b, pos)[i].0
                && png_chunks_from(b, pos)[i].1 >= 0 && png_end(png_chunks_from(b, pos)[i]) <= b.len(),
    decreases b.len() - pos,
{
    if pos + 8 <= b.len() {
        let len = u32_at(b, pos, false) as int;
        let end = pos + 12 + len;
        if end <= b.len() {
            lemma_png_chunks_bounds(b, end);
            let rest = png_chunks_from(b, end);
            assert forall|i: int| 0 <= i < png_chunks_from(b, pos).len() implies pos
                <= #[trigger] png_chunks_from(b, pos)[i].0 && png_chunks_from(b, pos)[i].1 >= 0
                && png_end(png_chunks_from(b, pos)[i]) <= b.len() by {
                if i > 0 {
                    assert(png_chunks_from(b, pos)[i] == rest[i - 1]);
                }
            }
        }
    }
}

/// Well-formed PNG chunks, in order, as `(offset, data length)`.
pub fn png_chunks(png: &[u8]) -> (r: Vec<(usize, usize)>)
    ensures
        span_view(r@) == png_chunk_list(png@),
{
    let ghost b = png@;
    let n = png.len();
    let mut out: Vec<(usize, usize)> = Vec::new();
    if !is_png(png) {
        assert(span_view(out@) =~= png_chunk_list(b));
        return out;
    }
    let mut pos: usize = 8;
    loop
        invariant
            n == b.len(),
            b == png@,
            spec_is_png(b),
            pos <= n,
            span_view(out@) + png_chunks_from(b, pos as int) == png_chunk_list(b),
        decreases n - pos,
    {
        if n - pos < 8 {
            assert(span_view(out@) =~= png_chunk_list(b));
            return out;
        }
        let len = read_u32(png, pos as u64, false).unwrap() as usize;
        if len > n - pos || n - pos - len < 12 {
            assert(span_view(out@) =~= png_chunk_list(b));
            return out;
        }
        let ghost before = span_view(out@);
        out.push((pos, len));
        assert(span_view(out@) =~= before + seq![(pos as int, len as int)]);
        pos = pos + 12 + len;
    }
}

/// Each chunk found by the walk has the data length that its length field holds.
pub proof fn lemma_png_chunk_lengths(b: Seq<u8>, pos: int)
    ensures
        forall|i: int|
            0 <= i < png_chunks_from(b, pos).len() ==> u32_at(b, (#[trigger] png_chunks_from(b, pos)[i]).0, false)
                == png_chunks_from(b, pos)[i].1,
    decreases b.len() - pos,
{
    if !(pos < 0 || pos + 8 > b.len()) {
        let len = u32_at(b, pos, false) as int;
        let end = pos + 12 + len;
        if end <= b.len() {
            lemma_png_chunk_lengths(b, end);
            let rest = png_chunks_from(b, end);
            assert forall|i: int| 0 <= i < png_chunks_from(b, pos).len() implies u32_at(
                b,
                (#[trigger] png_chunks_from(b, pos)[i]).0,
                false,
            ) == png_chunks_from(b, pos)[i].1 by {
                if i > 0 {
                    assert(png_chunks_from(b, pos)[i] == rest[i - 1]);
                }
            }
        }
    }
}

// ---- PNG CRC ---------------------------------------------------------------

/// One shift of the reflected CRC-32 register (polynomial 0xEDB88320).
pub open spec fn crc_step(c: u32) -> u32 {
    if c & 1 == 1 {
        (c >> 1) ^ 0xEDB8_8320
    } else {
        c >> 1
    }
}

/// The register after feeding one byte.
pub open spec fn crc_byte(c: u32, x: u8) -> u32 {
    let c0 = c ^ (x as u32);
    crc_step(crc_step(crc_step(crc_step(crc_step(crc_step(crc_step(crc_step(c0))))))))
}

/// The register after feeding every byte of `data`, first to last.
pub open spec fn crc_fold(c: u32, data: Seq<u8>) -> u32
    decreases data.len(),
{
    if data.len() == 0 {
        c
    } else {
        crc_fold(crc_byte(c, data[0]), data.drop_first())
    }
}

/// The CRC-32 used by PNG chunks.
pub open spec fn spec_png_crc32(data: Seq<u8>) -> u32 {
    !crc_fold(0xFFFF_FFFF, data)
}

fn crc_step_exec(c: u32) -> (r: u32)
    ensures
        r == crc_step(c),
{
    if c & 1 == 1 {
        (c >> 1) ^ 0xEDB8_8320
    } else {
        c >> 1
    }
}

/// CRC-32 (as used by PNG) of `data`.
pub fn png_crc32(data: &[u8]) -> (r: u32)
    ensures
        r == spec_png_crc32(data@),
{
    let mut crc: u32 = 0xFFFF_FFFF;
    let mut i: usize = 0;
    let n = data.len();
    assert(data@.subrange(0, n as int) =~= data@);
    while i < n
        invariant
            n == data@.len(),
            i <= n,
            crc_fold(0xFFFF_FFFF, data@) == crc_fold(crc, data@.subrange(i as int, n as int)),
        decreases n - i,
    {
        let ghost s = data@.subrange(i as int, n as int);
        assert(s.drop_first() =~= data@.subrange(i + 1, n as int));
        let mut c = crc ^ (data[i] as u32);
        c = crc_step_exec(c);
        c = crc_step_exec(c);
        c = crc_step_exec(c);
        c = crc_step_exec(c);
        c = crc_step_exec(c);
        c = crc_step_exec(c);
        c = crc_step_exec(c);
        c = crc_step_exec(c);
        crc = c;
        i = i + 1;
    }
    !crc
}

// ---- PNG rewriting ---------------------------------------------------------

/// The closure's answer for the chunk `c` of `b` was `k`.
pub open spec fn png_decided<F: Fn(&[u8; 4], &[u8]) -> bool>(
    f: F,
    b: Seq<u8>,
    c: (int, int),
    k: bool,
) -> bool {
    exists|kind: [u8; 4], data: &[u8]|
        kind@ == png_kind(b, c.0) && data@ == png_data(b, c) && #[trigger] call_ensures(
            f,
            (&kind, data),
            k,
        )
}

/// The bytes of the chunks of `cs[..n]` whose `keep` flag is set, in order.
pub open spec fn png_kept(b: Seq<u8>, cs: Seq<(int, int)>, keep: Seq<bool>, n: int) -> Seq<u8>
    decreases n,
{
    if n <= 0 {
        Seq::empty()
    } else {
        png_kept(b, cs, keep, n - 1) + if keep[n - 1] {
            b.subrange(cs[n - 1].0, png_end(cs[n - 1]))
        } else {
            Seq::empty()
        }
    }
}

/// One past the last well-formed chunk of a PNG (8 when there is none).
pub open spec fn png_consumed(b: Seq<u8>) -> int {
    let cs = png_chunk_list(b);
    if cs.len() == 0 {
        8
    } else {
        png_end(cs.last())
    }
}

/// `b` with the chunks whose `keep` flag is clear removed; a damaged file
/// (truncated chunk, trailing bytes) or a non-PNG is kept as it is.
pub open spec fn png_rewritten(b: Seq<u8>, keep: Seq<bool>) -> Seq<u8> {
    let cs = png_chunk_list(b);
    if !spec_is_png(b) || png_consumed(b) != b.len() {
        b
    } else {
        png_sig() + png_kept(b, cs, keep, cs.len() as int)
    }
}

pub proof fn lemma_png_chunks_adjacent(b: Seq<u8>, pos: int)
    requires
        pos >= 0,
    ensures
        png_chunks_from(b, pos).len() > 0 ==> png_chunks_from(b, pos)[0].0 == pos,
        forall|i: int|
            1 <= i < png_chunks_from(b, pos).len() ==> #[trigger] png_chunks_from(b, pos)[i].0
                == png_end(png_chunks_from(b, pos)[i - 1]),
    decreases b.len() - pos,
{
    if pos + 8 <= b.len() {
        let len = u32_at(b, pos, false) as int;
        let end = pos + 12 + len;
        if end <= b.len() {
            lemma_png_chunks_adjacent(b, end);
            let rest = png_chunks_from(b, end);
            let all = png_chunks_from(b, pos);
            assert forall|i: int| 1 <= i < all.len() implies #[trigger] all[i].0 == png_end(all[i - 1]) by {
                assert(all[i] == rest[i - 1]);
                if i >= 2 {
                    assert(all[i - 1] == rest[i - 2]);
                    assert(rest[i - 1].0 == png_end(rest[i - 2]));
                } else {
                    assert(all[0] == (pos, len));
                }
            }
        }
    }
}

/// Walk PNG chunks, dropping those for which `keep_chunk` answers `false`.
/// A damaged file (truncated chunk, trailing bytes) is returned unchanged.
pub fn rewrite_png_chunks(png: &[u8], keep_chunk: impl Fn(&[u8; 4], &[u8]) -> bool) -> (r: Vec<u8>)
    requires
        forall|kind: &[u8; 4], data: &[u8]| #[trigger] keep_chunk.requires((kind, data)),
    ensures
        exists|keep: Seq<bool>|
            #![trigger png_rewritten(png@, keep)]
            keep.len() == png_chunk_list(png@).len() && (forall|i: int|
                0 <= i < keep.len() ==> png_decided(keep_chunk, png@, png_chunk_list(png@)[i], #[trigger] keep[i]))
                && r@ == png_rewritten(png@, keep),
{
    let ghost b = png@;
    if !is_png(png) {
        let r = to_vec(png);
        assert(png_rewritten(b, Seq::<bool>::empty()) == b);
        assert(png_chunk_list(b).len() == 0);
        return r;
    }
    let chunks = png_chunks(png);
    let ghost cs = png_chunk_list(b);
    proof {
        lemma_png_chunks_bounds(b, 8);
    }
    let mut out: Vec<u8> = Vec::new();
    out.push(0x89);
    out.push(0x50);
    out.push(0x4E);
    out.push(0x47);
    out.push(0x0D);
    out.push(0x0A);
    out.push(0x1A);
    out.push(0x0A);
    assert(out@ =~= png_sig());
    let mut consumed: usize = 8;
    let mut i: usize = 0;
    let ghost mut keep: Seq<bool> = Seq::empty();
    let n = png.len();
    while i < chunks.len()
        invariant
            b == png@,
            n == b.len(),
            spec_is_png(b),
            span_view(chunks@) == cs,
            cs == png_chunk_list(b),
            0 <= i <= chunks@.len(),
            keep.len() == i,
            forall|j: int| 0 <= j < i ==> png_decided(keep_chunk, b, cs[j], #[trigger] keep[j]),
            forall|kind: &[u8; 4], data: &[u8]| #[trigger] keep_chunk.requires((kind, data)),
            out@ == png_sig() + png_kept(b, cs, keep, i as int),
            consumed == (if i == 0 { 8 } else { png_end(cs[i - 1]) }),
            forall|j: int|
                0 <= j < cs.len() ==> 8 <= #[trigger] cs[j].0 && cs[j].1 >= 0 && png_end(cs[j]) <= b.len(),
        decreases chunks.len() - i,
    {
        let (start, len) = chunks[i];
        assert(cs[i as int] == (start as int, len as int));
        let kind: [u8; 4] = [png[start + 4], png[start + 5], png[start + 6], png[start + 7]];
        assert(kind@ =~= png_kind(b, start as int));
        let data = &png[start + 8..start + 8 + len];
        let k = keep_chunk(&kind, data);
        let ghost old_keep = keep;
        proof {
            assert(png_decided(keep_chunk, b, cs[i as int], k));
            keep = keep.push(k);
        }
        let end = start + 12 + len;
        let ghost before = out@;
        if k {
            extend_range(&mut out, png, start, end);
        }
        assert(png_kept(b, cs, keep, i + 1) =~= png_kept(b, cs, keep.subrange(0, i as int), i as int)
            + if k { b.subrange(start as int, end as int) } else { Seq::empty() }) by {
            lemma_png_kept_prefix(b, cs, keep, keep.subrange(0, i as int), i as int);
        }
        assert(keep.subrange(0, i as int) =~= old_keep);
        consumed = end;
        i = i + 1;
        assert(out@ =~= png_sig() + png_kept(b, cs, keep, i as int));
    }
    assert(consumed == png_consumed(b));
    if consumed != png.len() {
        let r = to_vec(png);
        assert(r@ == png_rewritten(b, keep));
        return r;
    }
    assert(out@ == png_rewritten(b, keep));
    out
}

/// `png_kept` over the first `n` chunks only looks at the first `n` flags.
pub proof fn lemma_png_kept_prefix(b: Seq<u8>, cs: Seq<(int, int)>, k1: Seq<bool>, k2: Seq<bool>, n: int)
    requires
        0 <= n,
        n <= k1.len(),
        n <= k2.len(),
        forall|j: int| 0 <= j < n ==> k1[j] == k2[j],
    ensures
        png_kept(b, cs, k1, n) == png_kept(b, cs, k2, n),
    decreases n,
{
    if n > 0 {
        lemma_png_kept_prefix(b, cs, k1, k2, n - 1);
    }
}

/// `b` with its new data `r` and a fresh CRC in chunk `c`.
pub open spec fn png_patch_one(x: Seq<u8>, c: (int, int), r: Seq<u8>) -> Seq<u8> {
    x.subrange(0, c.0 + 8) + r + bytes32(spec_png_crc32(png_kind(x, c.0) + r), false) + x.subrange(
        png_end(c),
        x.len() as int,
    )
}

/// `b` after the first `n` chunks got the data `rs[..n]`.
pub open spec fn png_patched(b: Seq<u8>, cs: Seq<(int, int)>, rs: Seq<Seq<u8>>, n: int) -> Seq<u8>
    decreases n,
{
    if n <= 0 {
        b
    } else {
        png_patch_one(png_patched(b, cs, rs, n - 1), cs[n - 1], rs[n - 1])
    }
}

/// The closure gave `r` as the new data of chunk `c` of `b`.
pub open spec fn png_mut_decided<F: Fn(&[u8; 4], &[u8]) -> Vec<u8>>(
    f: F,
    b: Seq<u8>,
    c: (int, int),
    r: Seq<u8>,
) -> bool {
    exists|kind: [u8; 4], data: &[u8], out: Vec<u8>|
        kind@ == png_kind(b, c.0) && data@ == png_data(b, c) && #[trigger] call_ensures(
            f,
            (&kind, data),
            out,
        ) && out@ == r
}

/// Patching the first `n` chunks leaves the length and everything from the
/// start of chunk `n` on untouched.
#[verifier::rlimit(40)]
pub proof fn lemma_png_patched_frame(b: Seq<u8>, rs: Seq<Seq<u8>>, n: int)
    requires
        spec_is_png(b),
        0 <= n <= png_chunk_list(b).len(),
        n <= rs.len(),
        forall|j: int| 0 <= j < n ==> #[trigger] rs[j].len() == png_chunk_list(b)[j].1,
    ensures
        png_patched(b, png_chunk_list(b), rs, n).len() == b.len(),
        forall|k: int|
            (if n == 0 { 0 } else { png_end(png_chunk_list(b)[n - 1]) }) <= k < b.len() ==> #[trigger] png_patched(
                b,
                png_chunk_list(b),
                rs,
                n,
            )[k] == b[k],
    decreases n,
{
    let cs = png_chunk_list(b);
    lemma_png_chunks_bounds(b, 8);
    lemma_png_chunks_adjacent(b, 8);
    if n > 0 {
        lemma_png_patched_frame(b, rs, n - 1);
        let x = png_patched(b, cs, rs, n - 1);
        let c = cs[n - 1];
        if n >= 2 {
            assert(cs[n - 1].0 == png_end(cs[n - 2]));
        }
        assert(png_patched(b, cs, rs, n) == png_patch_one(x, c, rs[n - 1]));
        assert(png_patch_one(x, c, rs[n - 1]).len() == b.len());
    }
}

/// Chunk `c` of `x` holds the new data `r` under the type it has in `b`,
/// followed by the CRC of that type and data.
pub open spec fn png_chunk_rewritten(x: Seq<u8>, b: Seq<u8>, c: (int, int), r: Seq<u8>) -> bool {
    &&& png_kind(x, c.0) == png_kind(b, c.0)
    &&& png_data(x, c) == r
    &&& u32_at(x, png_end(c) - 4, false) == spec_png_crc32(png_kind(b, c.0) + r)
}

proof fn lemma_png_ordered_step(cs: Seq<(int, int)>, i: int, j: int)
    requires
        0 <= i < j < cs.len(),
        forall|k: int| 1 <= k < cs.len() ==> #[trigger] cs[k].0 == png_end(cs[k - 1]),
        forall|k: int| 0 <= k < cs.len() ==> #[trigger] cs[k].1 >= 0,
    ensures
        png_end(cs[i]) <= cs[j].0,
    decreases j - i,
{
    if j > i + 1 {
        lemma_png_ordered_step(cs, i, j - 1);
        assert(cs[j].0 == png_end(cs[j - 1]));
        assert(cs[j - 1].1 >= 0);
    } else {
        assert(cs[j].0 == png_end(cs[j - 1]));
    }
}

proof fn lemma_png_patch_one(x: Seq<u8>, c: (int, int), r: Seq<u8>)
    requires
        0 <= c.0,
        0 <= c.1,
        png_end(c) <= x.len(),
        r.len() == c.1,
    ensures
        ({
            let y = png_patch_one(x, c, r);
            &&& y.len() == x.len()
            &&& forall|k: int| 0 <= k < c.0 + 8 ==> #[trigger] y[k] == x[k]
            &&& forall|k: int| png_end(c) <= k < x.len() ==> #[trigger] y[k] == x[k]
            &&& png_kind(y, c.0) == png_kind(x, c.0)
            &&& png_data(y, c) == r
            &&& u32_at(y, png_end(c) - 4, false) == spec_png_crc32(png_kind(x, c.0) + r)
        }),
{
    let y = png_patch_one(x, c, r);
    let crc = spec_png_crc32(png_kind(x, c.0) + r);
    assert(png_kind(y, c.0) =~= png_kind(x, c.0));
    assert(png_data(y, c) =~= r);
    assert(y.subrange(png_end(c) - 4, png_end(c)) =~= bytes32(crc, false));
    lemma_bytes32_roundtrip(crc, false);
    assert(u32_at(y, png_end(c) - 4, false) == u32_at(bytes32(crc, false), 0, false));
}

proof fn lemma_png_rewritten_kept(x: Seq<u8>, y: Seq<u8>, b: Seq<u8>, c: (int, int), r: Seq<u8>, lim: int)
    requires
        png_chunk_rewritten(x, b, c, r),
        0 <= c.0,
        0 <= c.1,
        png_end(c) <= lim,
        forall|k: int| 0 <= k < lim ==> #[trigger] y[k] == x[k],
        lim <= x.len(),
        lim <= y.len(),
    ensures
        png_chunk_rewritten(y, b, c, r),
{
    assert(png_kind(y, c.0) =~= png_kind(x, c.0));
    assert(png_data(y, c) =~= png_data(x, c));
    assert(y[png_end(c) - 4] == x[png_end(c) - 4] && y[png_end(c) - 3] == x[png_end(c) - 3]);
    assert(y[png_end(c) - 2] == x[png_end(c) - 2] && y[png_end(c) - 1] == x[png_end(c) - 1]);
}

#[verifier::rlimit(40)]
proof fn lemma_png_patched_chunks(b: Seq<u8>, rs: Seq<Seq<u8>>, n: int)
    requires
        spec_is_png(b),
        0 <= n <= png_chunk_list(b).len(),
        n <= rs.len(),
        forall|j: int| 0 <= j < n ==> #[trigger] rs[j].len() == png_chunk_list(b)[j].1,
    ensures
        forall|i: int|
            0 <= i < n ==> #[trigger] png_chunk_rewritten(
                png_patched(b, png_chunk_list(b), rs, n),
                b,
                png_chunk_list(b)[i],
                rs[i],
            ),
    decreases n,
{
    let cs = png_chunk_list(b);
    if n > 0 {
        lemma_png_patched_chunks(b, rs, n - 1);
        lemma_png_patched_frame(b, rs, n - 1);
        lemma_png_chunks_bounds(b, 8);
        lemma_png_chunks_adjacent(b, 8);
        let x = png_patched(b, cs, rs, n - 1);
        let c = cs[n - 1];
        let r = rs[n - 1];
        let y = png_patched(b, cs, rs, n);
        assert(y == png_patch_one(x, c, r));
        if n - 1 > 0 {
            assert(cs[n - 1].0 == png_end(cs[n - 2]));
        }
        lemma_png_patch_one(x, c, r);
        assert(png_kind(x, c.0) =~= png_kind(b, c.0));
        assert forall|k: int| 0 <= k < cs.len() implies #[trigger] cs[k].1 >= 0 by {
            assert(8 <= cs[k].0);
        }
        assert forall|i: int| 0 <= i < n implies #[trigger] png_chunk_rewritten(y, b, cs[i], rs[i]) by {
            if i < n - 1 {
                lemma_png_ordered_step(cs, i, n - 1);
                lemma_png_rewritten_kept(x, y, b, cs[i], rs[i], c.0 + 8);
            }
        }
    }
}

/// Patching chunk data leaves the signature and every chunk's length and
/// type fields as they were.
proof fn lemma_png_patched_heads(b: Seq<u8>, rs: Seq<Seq<u8>>, n: int)
    requires
        spec_is_png(b),
        0 <= n <= png_chunk_list(b).len(),
        n <= rs.len(),
        forall|j: int| 0 <= j < n ==> #[trigger] rs[j].len() == png_chunk_list(b)[j].1,
    ensures
        forall|k: int| 0 <= k < 8 ==> #[trigger] png_patched(b, png_chunk_list(b), rs, n)[k] == b[k],
        forall|i: int, k: int|
            #![trigger png_patched(b, png_chunk_list(b), rs, n)[k], png_chunk_list(b)[i]]
            0 <= i < png_chunk_list(b).len() && png_chunk_list(b)[i].0 <= k < png_chunk_list(b)[i].0 + 8
                ==> png_patched(b, png_chunk_list(b), rs, n)[k] == b[k],
    decreases n,
{
    let cs = png_chunk_list(b);
    lemma_png_chunks_bounds(b, 8);
    lemma_png_chunks_adjacent(b, 8);
    if n > 0 {
        lemma_png_patched_heads(b, rs, n - 1);
        lemma_png_patched_frame(b, rs, n - 1);
        let x = png_patched(b, cs, rs, n - 1);
        let c = cs[n - 1];
        let y = png_patched(b, cs, rs, n);
        assert(y == png_patch_one(x, c, rs[n - 1]));
        lemma_png_patch_one(x, c, rs[n - 1]);
        assert forall|k: int| 0 <= k < cs.len() implies #[trigger] cs[k].1 >= 0 by {
            assert(8 <= cs[k].0);
        }
        assert forall|k: int| 0 <= k < 8 implies #[trigger] y[k] == b[k] by {
            assert(y[k] == x[k]);
        }
        assert forall|i: int, k: int| #![trigger y[k], cs[i]] 0 <= i < cs.len() && cs[i].0 <= k < cs[i].0 + 8 implies y[k]
            == b[k] by {
            if i < n - 1 {
                lemma_png_ordered_step(cs, i, n - 1);
                assert(y[k] == x[k]);
            } else if i > n - 1 {
                lemma_png_ordered_step(cs, n - 1, i);
                assert(y[k] == x[k]);
            } else {
                assert(y[k] == x[k]);
            }
        }
    }
}

/// Where the chunk walk from `pos` stops: one past the last chunk found, or
/// `pos` itself when there is none.
pub open spec fn png_walk_end(b: Seq<u8>, pos: int) -> int {
    let w = png_chunks_from(b, pos);
    if w.len() == 0 {
        pos
    } else {
        png_end(w.last())
    }
}

/// Two buffers of one length that agree on every length field the walk of
/// `b` reads and on everything after it are walked alike.
proof fn lemma_png_same_walk(x: Seq<u8>, b: Seq<u8>, pos: int)
    requires
        x.len() == b.len(),
        forall|i: int, k: int|
            #![trigger x[k], png_chunks_from(b, pos)[i]]
            0 <= i < png_chunks_from(b, pos).len() && png_chunks_from(b, pos)[i].0 <= k < png_chunks_from(b, pos)[i].0
                + 4 ==> x[k] == b[k],
        forall|k: int| png_walk_end(b, pos) <= k < b.len() ==> #[trigger] x[k] == b[k],
    ensures
        png_chunks_from(x, pos) == png_chunks_from(b, pos),
    decreases b.len() - pos,
{
    let w = png_chunks_from(b, pos);
    if !(pos < 0 || pos + 8 > b.len()) {
        let len = u32_at(b, pos, false) as int;
        let end = pos + 12 + len;
        if w.len() > 0 {
            assert(w[0] == (pos, len));
        }
        assert(x[pos] == b[pos] && x[pos + 1] == b[pos + 1] && x[pos + 2] == b[pos + 2] && x[pos + 3] == b[pos + 3]) by {
            if w.len() > 0 {
                assert(w[0].0 <= pos < w[0].0 + 4);
                assert(x[pos] == b[pos]);
                assert(x[pos + 1] == b[pos + 1]);
                assert(x[pos + 2] == b[pos + 2]);
                assert(x[pos + 3] == b[pos + 3]);
            }
        }
        assert(u32_at(x, pos, false) == len);
        if end <= b.len() {
            let w2 = png_chunks_from(b, end);
            assert(w == seq![(pos, len)] + w2);
            assert forall|i: int, k: int| #![trigger x[k], w2[i]] 0 <= i < w2.len() && w2[i].0 <= k < w2[i].0 + 4 implies x[k]
                == b[k] by {
                assert(w[i + 1] == w2[i]);
            }
            if w2.len() > 0 {
                assert(w.last() == w2.last());
            }
            lemma_png_same_walk(x, b, end);
        }
    }
}

/// Patching chunk data walks like the unpatched bytes: the same chunks at the
/// same places.
pub proof fn lemma_png_patched_walk(b: Seq<u8>, rs: Seq<Seq<u8>>)
    requires
        spec_is_png(b),
        rs.len() == png_chunk_list(b).len(),
        forall|j: int| 0 <= j < rs.len() ==> #[trigger] rs[j].len() == png_chunk_list(b)[j].1,
    ensures
        spec_is_png(png_patched(b, png_chunk_list(b), rs, rs.len() as int)),
        png_chunk_list(png_patched(b, png_chunk_list(b), rs, rs.len() as int)) == png_chunk_list(b),
{
    let cs = png_chunk_list(b);
    let n = rs.len() as int;
    let x = png_patched(b, cs, rs, n);
    lemma_png_patched_heads(b, rs, n);
    lemma_png_patched_frame(b, rs, n);
    assert(x.subrange(0, 8) =~= b.subrange(0, 8)) by {
        assert forall|k: int| 0 <= k < 8 implies x.subrange(0, 8)[k] == b.subrange(0, 8)[k] by {
            assert(x[k] == b[k]);
        }
    }
    assert(cs == png_chunks_from(b, 8));
    assert forall|i: int, k: int| #![trigger x[k], cs[i]] 0 <= i < cs.len() && cs[i].0 <= k < cs[i].0 + 4 implies x[k]
        == b[k] by {}
    assert forall|k: int| png_walk_end(b, 8) <= k < b.len() implies #[trigger] x[k] == b[k] by {
        if n > 0 {
            assert(cs.last() == cs[n - 1]);
        } else {
            assert(x[k] == b[k]);
        }
    }
    lemma_png_same_walk(x, b, 8);
}

/// After the data of every chunk is replaced by data of the same length,
/// the file keeps its length and every chunk holds its new data under its
/// old type, followed by the CRC of that type and data.
pub proof fn lemma_png_patched_crcs(b: Seq<u8>, rs: Seq<Seq<u8>>)
    requires
        spec_is_png(b),
        rs.len() == png_chunk_list(b).len(),
        forall|j: int| 0 <= j < rs.len() ==> #[trigger] rs[j].len() == png_chunk_list(b)[j].1,
    ensures
        png_patched(b, png_chunk_list(b), rs, rs.len() as int).len() == b.len(),
        forall|i: int|
            0 <= i < rs.len() ==> #[trigger] png_chunk_rewritten(
                png_patched(b, png_chunk_list(b), rs, rs.len() as int),
                b,
                png_chunk_list(b)[i],
                rs[i],
            ),
{
    lemma_png_patched_frame(b, rs, rs.len() as int);
    lemma_png_patched_chunks(b, rs, rs.len() as int);
}

/// Let `f` replace the data of every chunk (keeping its length); the CRC of
/// every chunk is recomputed afterwards.
#[verifier::rlimit(40)]
pub fn foreach_png_chunk_mut(png: &mut Vec<u8>, f: impl Fn(&[u8; 4], &[u8]) -> Vec<u8>) -> (r: Result<(), BatImgError>)
    requires
        forall|kind: &[u8; 4], data: &[u8]| #[trigger] f.requires((kind, data)),
        forall|kind: &[u8; 4], data: &[u8], out: Vec<u8>|
            #[trigger] f.ensures((kind, data), out) ==> out@.len() == data@.len(),
    ensures
        r is Ok,
        exists|rs: Seq<Seq<u8>>|
            #![trigger png_patched(old(png)@, png_chunk_list(old(png)@), rs, rs.len() as int)]
            rs.len() == png_chunk_list(old(png)@).len() && (forall|i: int|
                0 <= i < rs.len() ==> png_mut_decided(f, old(png)@, png_chunk_list(old(png)@)[i], #[trigger] rs[i]))
                && final(png)@ == png_patched(old(png)@, png_chunk_list(old(png)@), rs, rs.len() as int),
{
    let ghost b = png@;
    let chunks = png_chunks(png.as_slice());
    let ghost cs = png_chunk_list(b);
    if !is_png(png.as_slice()) {
        assert(cs.len() == 0);
        let ghost e = Seq::<Seq<u8>>::empty();
        assert(png@ == png_patched(b, cs, e, e.len() as int));
        return Ok(());
    }
    proof {
        lemma_png_chunks_bounds(b, 8);
        lemma_png_chunks_adjacent(b, 8);
    }
    let ghost mut rs: Seq<Seq<u8>> = Seq::empty();
    let mut i: usize = 0;
    let n = png.len();
    while i < chunks.len()
        invariant
            n == png@.len(),
            spec_is_png(b),
            span_view(chunks@) == cs,
            cs == png_chunk_list(b),
            0 <= i <= chunks@.len(),
            rs.len() == i,
            forall|j: int| 0 <= j < i ==> png_mut_decided(f, b, cs[j], #[trigger] rs[j]),
            forall|j: int| 0 <= j < i ==> #[trigger] rs[j].len() == cs[j].1,
            forall|kind: &[u8; 4], data: &[u8]| #[trigger] f.requires((kind, data)),
            forall|kind: &[u8; 4], data: &[u8], out: Vec<u8>|
                #[trigger] f.ensures((kind, data), out) ==> out@.len() == data@.len(),
            png@ == png_patched(b, cs, rs, i as int),
            forall|j: int|
                0 <= j < cs.len() ==> 8 <= #[trigger] cs[j].0 && cs[j].1 >= 0 && png_end(cs[j]) <= b.len(),
        decreases chunks.len() - i,
    {
        let (start, len) = chunks[i];
        assert(cs[i as int] == (start as int, len as int));
        let ghost x = png@;
        proof {
            lemma_png_patched_frame(b, rs, i as int);
            lemma_png_chunks_adjacent(b, 8);
            if i > 0 {
                assert(cs[i as int].0 == png_end(cs[i - 1]));
            }
            assert(x.subrange(start as int, start + 12 + len) =~= b.subrange(start as int, start + 12 + len));
        }
        let newd = patch_png_chunk(png, start, len, &f);
        proof {
            assert(png_kind(x, start as int) =~= png_kind(b, start as int));
            assert(png_data(x, cs[i as int]) =~= png_data(b, cs[i as int]));
            let old_rs = rs;
            rs = rs.push(newd@);
            assert(rs.drop_last() =~= old_rs);
            lemma_png_patched_prefix(b, cs, rs, old_rs, i as int);
            assert(png_patched(b, cs, rs, i + 1) == png_patch_one(png_patched(b, cs, rs, i as int), cs[i as int], rs[i as int]));
        }
        i = i + 1;
    }
    assert(png@ == png_patched(b, cs, rs, rs.len() as int));
    Ok(())
}

/// Give chunk `(start, len)` the data `f` computes for it and a fresh CRC.
fn patch_png_chunk<F: Fn(&[u8; 4], &[u8]) -> Vec<u8>>(png: &mut Vec<u8>, start: usize, len: usize, f: &F) -> (newd: Vec<u8>)
    requires
        start + 12 + len <= old(png)@.len(),
        forall|kind: &[u8; 4], data: &[u8]| #[trigger] f.requires((kind, data)),
        forall|kind: &[u8; 4], data: &[u8], out: Vec<u8>|
            #[trigger] f.ensures((kind, data), out) ==> out@.len() == data@.len(),
    ensures
        newd@.len() == len,
        png_mut_decided(*f, old(png)@, (start as int, len as int), newd@),
        final(png)@ == png_patch_one(old(png)@, (start as int, len as int), newd@),
{
    let ghost x = png@;
    let n = png.len();
    let kind: [u8; 4] = [png[start + 4], png[start + 5], png[start + 6], png[start + 7]];
    assert(kind@ =~= png_kind(x, start as int));
    let newd = f(&kind, &png.as_slice()[start + 8..start + 8 + len]);
    assert(x.subrange(start + 8, start + 8 + len) =~= png_data(x, (start as int, len as int)));
    assert(png_mut_decided(*f, x, (start as int, len as int), newd@));
    overwrite(png, start + 8, newd.as_slice());
    let crc = png_crc32(&png.as_slice()[start + 4..start + 8 + len]);
    assert(png@.subrange(start + 4, start + 8 + len) =~= png_kind(x, start as int) + newd@);
    let crc_bytes: [u8; 4] = [
        (crc / 16777216) as u8,
        ((crc / 65536) % 256) as u8,
        ((crc / 256) % 256) as u8,
        (crc % 256) as u8,
    ];
    assert(crc_bytes@ =~= bytes32(crc, false));
    overwrite(png, start + 8 + len, &crc_bytes);
    assert(png@ =~= png_patch_one(x, (start as int, len as int), newd@));
    newd
}

/// `png_patched` over the first `n` chunks only looks at the first `n` results.
pub proof fn lemma_png_patched_prefix(b: Seq<u8>, cs: Seq<(int, int)>, r1: Seq<Seq<u8>>, r2: Seq<Seq<u8>>, n: int)
    requires
        0 <= n,
        n <= r1.len(),
        n <= r2.len(),
        forall|j: int| 0 <= j < n ==> r1[j] == r2[j],
    ensures
        png_patched(b, cs, r1, n) == png_patched(b, cs, r2, n),
    decreases n,
{
    if n > 0 {
        lemma_png_patched_prefix(b, cs, r1, r2, n - 1);
    }
}

} // verus!
