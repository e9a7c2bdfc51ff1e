//! WebP (RIFF) chunk walking and rebuilding.
use vstd::prelude::*;
use crate::bytes::{span_view, bytes32, extend_range, lemma_bytes32_roundtrip, push_u32, read_u32, u32_at, write_u32};
use super::container::{is_webp, spec_is_webp};

verus! {

// ---- WebP ------------------------------------------------------------------

/// Where the RIFF chunk list of a WebP file ends.
pub open spec fn webp_limit(b: Seq<u8>) -> int {
    if spec_is_webp(b) {
        let declared = 8 + u32_at(b, 4, true);
        if declared < b.len() {
            declared
        } else {
            b.len() as int
        }
    } else {
        0
    }
}

/// RIFF chunks from `pos`, as `(offset of the fourcc, payload size)`.  A
/// chunk whose payload does not fit in the file ends the list.
pub open spec fn webp_chunks_from(b: Seq<u8>, pos: int, limit: int) -> Seq<(int, int)>
    decreases b.len() + 1 - pos,
{
    if pos < 0 || pos + 8 > limit || limit > b.len() {
        Seq::empty()
    } else {
        let size = u32_at(b, pos + 4, true) as int;
        if pos + 8 + size > b.len() {
            Seq::empty()
        } else {
            proof {
                assert(size % 2 >= 0);
            }
            seq![(pos, size)] + webp_chunks_from(b, pos + 8 + size + size % 2, limit)
        }
    }
}

/// The chunks of a WebP file (none for anything else).
pub open spec fn webp_chunk_list(b: Seq<u8>) -> Seq<(int, int)> {
    webp_chunks_from(b, 12, webp_limit(b))
}

/// The fourcc of the chunk at `start`.
pub open spec fn webp_fourcc(b: Seq<u8>, start: int) -> Seq<u8> {
    b.subrange(start, start + 4)
}

/// The payload of the chunk `(start, size)`.
pub open spec fn webp_payload(b: Seq<u8>, c: (int, int)) -> Seq<u8> {
    b.subrange(c.0 + 8, c.0 + 8 + c.1)
}

pub proof fn lemma_webp_chunks_bounds(b: Seq<u8>, pos: int, limit: int)
    requires
        pos >= 0,
    ensures
        forall|i: int|
            0 <= i < webp_chunks_from(b, pos, limit).len() ==> pos
                <= #[trigger] webp_chunks_from(b, pos, limit)[i].0
                && 0 <= webp_chunks_from(b, pos, limit)[i].1 <= u32::MAX
                && webp_chunks_from(b, pos, limit)[i].0 + 8 + webp_chunks_from(b, pos, limit)[i].1
                <= b.len(),
    decreases b.len() + 1 - pos,
{
    if !(pos + 8 > limit || limit > b.len()) {
        let size = u32_at(b, pos + 4, true) as int;
        if pos + 8 + size <= b.len() {
            let next = pos + 8 + size + size % 2;
            assert(size % 2 >= 0);
            lemma_webp_chunks_bounds(b, next, limit);
            let rest = webp_chunks_from(b, next, limit);
            assert forall|i: int| 0 <= i < webp_chunks_from(b, pos, limit).len() implies pos
                <= #[trigger] webp_chunks_from(b, pos, limit)[i].0
                && 0 <= webp_chunks_from(b, pos, limit)[i].1 <= u32::MAX
                && webp_chunks_from(b, pos, limit)[i].0 + 8 + webp_chunks_from(b, pos, limit)[i].1
                <= b.len() by {
                if i > 0 {
                    assert(webp_chunks_from(b, pos, limit)[i] == rest[i - 1]);
                }
            }
        }
    }
}

/// The walk starts at `pos` and each chunk starts right after the one
/// before it and its padding byte, eight bytes or more after it.
pub proof fn lemma_webp_chunks_spaced(b: Seq<u8>, pos: int, limit: int)
    ensures
        webp_chunks_from(b, pos, limit).len() > 0 ==> webp_chunks_from(b, pos, limit)[0].0 == pos,
        forall|i: int|
            1 <= i < webp_chunks_from(b, pos, limit).len() ==> (#[trigger] webp_chunks_from(b, pos, limit)[i]).0
                >= webp_chunks_from(b, pos, limit)[i - 1].0 + 8,
        forall|i: int|
            1 <= i < webp_chunks_from(b, pos, limit).len() ==> (#[trigger] webp_chunks_from(b, pos, limit)[i]).0
                == webp_chunks_from(b, pos, limit)[i - 1].0 + 8 + webp_chunks_from(b, pos, limit)[i - 1].1
                + webp_chunks_from(b, pos, limit)[i - 1].1 % 2,
    decreases b.len() + 1 - pos,
{
    if !(pos < 0 || pos + 8 > limit || limit > b.len()) {
        let size = u32_at(b, pos + 4, true) as int;
        if pos + 8 + size <= b.len() {
            let next = pos + 8 + size + size % 2;
            assert(size % 2 >= 0);
            lemma_webp_chunks_spaced(b, next, limit);
            let all = webp_chunks_from(b, pos, limit);
            let rest = webp_chunks_from(b, next, limit);
            assert(all == seq![(pos, size)] + rest);
            assert forall|i: int| 1 <= i < all.len() implies (#[trigger] all[i]).0 >= all[i - 1].0 + 8 && all[i].0
                == all[i - 1].0 + 8 + all[i - 1].1 + all[i - 1].1 % 2 by {
                assert(all[i] == rest[i - 1]);
                if i >= 2 {
                    assert(all[i - 1] == rest[i - 2]);
                }
            }
        }
    }
}

/// RIFF chunks of a WebP file, as `(offset, payload size)`.
pub fn webp_chunks(webp: &[u8]) -> (r: Vec<(usize, usize)>)
    ensures
        span_view(r@) == webp_chunk_list(webp@),
{
    let ghost b = webp@;
    let n = webp.len();
    let mut out: Vec<(usize, usize)> = Vec::new();
    let limit: usize = if is_webp(webp) {
        let declared = read_u32(webp, 4, true).unwrap() as u64 + 8;
        if declared < n as u64 {
            declared as usize
        } else {
            n
        }
    } else {
        0
    };
    assert(limit == webp_limit(b));
    let mut pos: usize = 12;
    loop
        invariant
            n == b.len(),
            b == webp@,
            limit == webp_limit(b),
            limit <= n,
            span_view(out@) + webp_chunks_from(b, pos as int, limit as int) == webp_chunk_list(b),
        decreases limit - pos,
    {
        if limit < 8 || pos > limit - 8 {
            assert(span_view(out@) =~= webp_chunk_list(b));
            return out;
        }
        let size = read_u32(webp, (pos + 4) as u64, true).unwrap() as usize;
        if size > n - pos - 8 {
            assert(span_view(out@) =~= webp_chunk_list(b));
            return out;
        }
        let ghost before = span_view(out@);
        out.push((pos, size));
        assert(span_view(out@) =~= before + seq![(pos as int, size as int)]);
        let next = pos as u64 + 8 + size as u64 + (size % 2) as u64;
        if next > limit as u64 {
            assert(webp_chunks_from(b, next as int, limit as int) =~= Seq::<(int, int)>::empty());
            assert(span_view(out@) =~= webp_chunk_list(b));
            return out;
        }
        pos = next as usize;
    }
}

/// `RIFF`.
pub open spec fn riff_tag() -> Seq<u8> {
    seq![0x52u8, 0x49, 0x46, 0x46]
}

/// `WEBP`.
pub open spec fn webp_tag() -> Seq<u8> {
    seq![0x57u8, 0x45, 0x42, 0x50]
}

pub open spec fn opt_view(r: Option<Vec<u8>>) -> Option<Seq<u8>> {
    match r {
        Some(v) => Some(v@),
        None => None,
    }
}

/// The closure's answer for chunk `c` of `b` was `r`.
pub open spec fn webp_decided<F: Fn(&[u8; 4], &[u8]) -> Option<Vec<u8>>>(
    f: F,
    b: Seq<u8>,
    c: (int, int),
    r: Option<Seq<u8>>,
) -> bool {
    exists|fourcc: [u8; 4], payload: &[u8], out: Option<Vec<u8>>|
        fourcc@ == webp_fourcc(b, c.0) && payload@ == webp_payload(b, c) && #[trigger] call_ensures(
            f,
            (&fourcc, payload),
            out,
        ) && opt_view(out) == r
}

/// A chunk with the given fourcc and payload, padded to an even size.
pub open spec fn riff_chunk(fourcc: Seq<u8>, p: Seq<u8>) -> Seq<u8> {
    fourcc + bytes32(#[verifier::truncate] (p.len() as u32), true) + p + if p.len() % 2 == 1 {
        seq![0u8]
    } else {
        Seq::empty()
    }
}

/// The rebuilt chunks for the first `n` chunks.
pub open spec fn webp_body(b: Seq<u8>, cs: Seq<(int, int)>, rs: Seq<Option<Seq<u8>>>, n: int) -> Seq<u8>
    decreases n,
{
    if n <= 0 {
        Seq::empty()
    } else {
        webp_body(b, cs, rs, n - 1) + match rs[n - 1] {
            Some(p) => riff_chunk(webp_fourcc(b, cs[n - 1].0), p),
            None => Seq::empty(),
        }
    }
}

/// The rebuilt file: a RIFF/WEBP header whose size field covers exactly
/// the transformed chunks (`None` for a non-WebP input).
pub open spec fn webp_rebuilt(b: Seq<u8>, rs: Seq<Option<Seq<u8>>>) -> Option<Seq<u8>> {
    if !spec_is_webp(b) {
        None
    } else {
        let cs = webp_chunk_list(b);
        let body = webp_body(b, cs, rs, cs.len() as int);
        Some(riff_tag() + bytes32(#[verifier::truncate] ((body.len() + 4) as u32), true) + webp_tag() + body)
    }
}

pub proof fn lemma_webp_body_prefix(b: Seq<u8>, cs: Seq<(int, int)>, r1: Seq<Option<Seq<u8>>>, r2: Seq<Option<Seq<u8>>>, n: int)
    requires
        0 <= n,
        n <= r1.len(),
        n <= r2.len(),
        forall|j: int| 0 <= j < n ==> r1[j] == r2[j],
    ensures
        webp_body(b, cs, r1, n) == webp_body(b, cs, r2, n),
    decreases n,
{
    if n > 0 {
        lemma_webp_body_prefix(b, cs, r1, r2, n - 1);
    }
}

/// A rebuilt WebP file starts with `RIFF`, a size field that counts every
/// byte after it (while that count fits in 32 bits), and `WEBP`.
pub proof fn lemma_webp_rebuilt_riff_size(b: Seq<u8>, rs: Seq<Option<Seq<u8>>>)
    requires
        webp_rebuilt(b, rs) is Some,
        (webp_rebuilt(b, rs)->0).len() <= u32::MAX + 8,
    ensures
        ({
            let r = webp_rebuilt(b, rs)->0;
            &&& r.len() >= 12
            &&& r.subrange(0, 4) == riff_tag()
            &&& r.subrange(8, 12) == webp_tag()
            &&& u32_at(r, 4, true) == r.len() - 8
        }),
{
    let cs = webp_chunk_list(b);
    let body = webp_body(b, cs, rs, cs.len() as int);
    let v = #[verifier::truncate] ((body.len() + 4) as u32);
    let r = webp_rebuilt(b, rs)->0;
    assert(r == riff_tag() + bytes32(v, true) + webp_tag() + body);
    assert(v == body.len() + 4);
    lemma_bytes32_roundtrip(v, true);
    assert(r.subrange(0, 4) =~= riff_tag());
    assert(r.subrange(8, 12) =~= webp_tag());
    assert(r.subrange(4, 8) =~= bytes32(v, true));
    assert(u32_at(r, 4, true) == u32_at(bytes32(v, true), 0, true));
}

/// Rebuild a WebP file, letting `transform` decide each chunk: `None` drops
/// it, `Some(p)` keeps its fourcc with payload `p`.  `None` when the input is
/// not a WebP file.
pub fn rebuild_webp_chunks(
    webp: &[u8],
    transform: impl Fn(&[u8; 4], &[u8]) -> Option<Vec<u8>>,
) -> (r: Option<Vec<u8>>)
    requires
        forall|fourcc: &[u8; 4], payload: &[u8]| #[trigger] transform.requires((fourcc, payload)),
    ensures
        exists|rs: Seq<Option<Seq<u8>>>|
            #![trigger webp_rebuilt(webp@, rs)]
            rs.len() == webp_chunk_list(webp@).len() && (forall|i: int|
                0 <= i < rs.len() ==> webp_decided(transform, webp@, webp_chunk_list(webp@)[i], #[trigger] rs[i]))
                && opt_view(r) == webp_rebuilt(webp@, rs),
{
    let ghost b = webp@;
    if !is_webp(webp) {
        let ghost e = Seq::<Option<Seq<u8>>>::empty();
        assert(webp_chunk_list(b) =~= Seq::<(int, int)>::empty());
        assert(opt_view(None) == webp_rebuilt(b, e));
        return None;
    }
    let chunks = webp_chunks(webp);
    let ghost cs = webp_chunk_list(b);
    proof {
        lemma_webp_chunks_bounds(b, 12, webp_limit(b));
    }
    let mut out: Vec<u8> = Vec::new();
    out.push(0x52);
    out.push(0x49);
    out.push(0x46);
    out.push(0x46);
    out.push(0);
    out.push(0);
    out.push(0);
    out.push(0);
    out.push(0x57);
    out.push(0x45);
    out.push(0x42);
    out.push(0x50);
    let ghost head = out@;
    let ghost mut rs: Seq<Option<Seq<u8>>> = Seq::empty();
    let mut i: usize = 0;
    while i < chunks.len()
        invariant
            b == webp@,
            span_view(chunks@) == cs,
            cs == webp_chunk_list(b),
            0 <= i <= chunks@.len(),
            rs.len() == i,
            forall|j: int| 0 <= j < i ==> webp_decided(transform, b, cs[j], #[trigger] rs[j]),
            forall|fourcc: &[u8; 4], payload: &[u8]| #[trigger] transform.requires((fourcc, payload)),
            out@ == head + webp_body(b, cs, rs, i as int),
            head.len() == 12,
            forall|j: int|
                0 <= j < cs.len() ==> 12 <= #[trigger] cs[j].0 && cs[j].1 >= 0 && cs[j].0 + 8 + cs[j].1 <= b.len(),
        decreases chunks.len() - i,
    {
        let (start, size) = chunks[i];
        assert(cs[i as int] == (start as int, size as int));
        let fourcc: [u8; 4] = [webp[start], webp[start + 1], webp[start + 2], webp[start + 3]];
        assert(fourcc@ =~= webp_fourcc(b, start as int));
        let res = transform(&fourcc, &webp[start + 8..start + 8 + size]);
        assert(webp@.subrange(start + 8, start + 8 + size) =~= webp_payload(b, cs[i as int]));
        let ghost before = out@;
        let ghost old_rs = rs;
        proof {
            assert(webp_decided(transform, b, cs[i as int], opt_view(res)));
            rs = rs.push(opt_view(res));
            assert(rs.drop_last() =~= old_rs);
            lemma_webp_body_prefix(b, cs, rs, old_rs, i as int);
        }
        match res {
            Some(p) => {
                append_riff_chunk(&mut out, &fourcc, p.as_slice());
            },
            None => {},
        }
        assert(out@ =~= head + webp_body(b, cs, rs, i + 1));
        i = i + 1;
    }
    let ghost body = webp_body(b, cs, rs, cs.len() as int);
    let total = out.len();
    let riff_size = #[verifier::truncate] ((total - 8) as u32);
    write_u32(&mut out, 4, riff_size, true);
    assert(out@ =~= riff_tag() + bytes32(#[verifier::truncate] ((body.len() + 4) as u32), true) + webp_tag() + body);
    assert(opt_view(Some(out)) == webp_rebuilt(b, rs));
    Some(out)
}

/// Append a RIFF chunk (fourcc, little-endian size, payload, pad byte).
fn append_riff_chunk(out: &mut Vec<u8>, fourcc: &[u8; 4], p: &[u8])
    ensures
        final(out)@ == old(out)@ + riff_chunk(fourcc@, p@),
{
    out.push(fourcc[0]);
    out.push(fourcc[1]);
    out.push(fourcc[2]);
    out.push(fourcc[3]);
    push_u32(out, #[verifier::truncate] (p.len() as u32), true);
    extend_range(out, p, 0, p.len());
    if p.len() % 2 == 1 {
        out.push(0);
    }
    assert(p@.subrange(0, p@.len() as int) =~= p@);
    assert(out@ =~= old(out)@ + riff_chunk(fourcc@, p@));
}

} // verus!
