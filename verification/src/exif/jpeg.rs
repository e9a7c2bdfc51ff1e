//! JPEG marker segments.
use vstd::prelude::*;
use crate::bytes::u16_at;
use super::container::{is_jpeg, spec_is_jpeg};

verus! {

// ---- JPEG ------------------------------------------------------------------

/// First position at or after `pos` that is not followed by a fill byte.
pub open spec fn skip_fill(b: Seq<u8>, pos: int) -> int
    decreases b.len() - pos,
{
    if 0 <= pos && pos + 1 < b.len() && b[pos + 1] == 0xFF {
        skip_fill(b, pos + 1)
    } else {
        pos
    }
}

pub proof fn lemma_skip_fill(b: Seq<u8>, pos: int)
    ensures
        skip_fill(b, pos) >= pos,
        0 <= pos ==> skip_fill(b, pos) + 1 >= b.len() || b[skip_fill(b, pos) + 1] != 0xFF,
    decreases b.len() - pos,
{
    if 0 <= pos && pos + 1 < b.len() && b[pos + 1] == 0xFF {
        lemma_skip_fill(b, pos + 1);
    }
}

/// A standalone JPEG marker (TEM, RSTn) that carries no length field.
pub open spec fn is_standalone_marker(m: u8) -> bool {
    m == 0x01 || (0xD0 <= m && m <= 0xD7)
}

/// The marker segments of a JPEG from `pos` up to the start of scan, as
/// `(marker, payload start, payload end)`.  A truncated or corrupt segment
/// ends the list.
pub open spec fn jpeg_segs_from(b: Seq<u8>, pos: int) -> Seq<(u8, int, int)>
    decreases b.len() - pos,
{
    if pos < 0 || pos >= b.len() || b[pos] != 0xFF {
        Seq::empty()
    } else {
        let p = skip_fill(b, pos);
        if p + 1 >= b.len() {
            Seq::empty()
        } else {
            let marker = b[p + 1];
            let q = p + 2;
            proof {
                lemma_skip_fill(b, pos);
            }
            if marker == 0xDA || marker == 0xD9 {
                Seq::empty()
            } else if is_standalone_marker(marker) {
                seq![(marker, q, q)] + jpeg_segs_from(b, q)
            } else if q + 2 > b.len() {
                Seq::empty()
            } else {
                let len = u16_at(b, q, false) as int;
                if len < 2 || q + len > b.len() {
                    Seq::empty()
                } else {
                    seq![(marker, q + 2, q + len)] + jpeg_segs_from(b, q + len)
                }
            }
        }
    }
}

/// The header segments of a JPEG file (none for anything else).
pub open spec fn jpeg_segs(b: Seq<u8>) -> Seq<(u8, int, int)> {
    if spec_is_jpeg(b) {
        jpeg_segs_from(b, 2)
    } else {
        Seq::empty()
    }
}

pub proof fn lemma_jpeg_segs_bounds(b: Seq<u8>, pos: int)
    requires
        pos >= 0,
    ensures
        forall|i: int|
            0 <= i < jpeg_segs_from(b, pos).len() ==> pos <= #[trigger] jpeg_segs_from(b, pos)[i].1
                <= jpeg_segs_from(b, pos)[i].2 <= b.len(),
    decreases b.len() - pos,
{
    if !(pos >= b.len() || b[pos] != 0xFF) {
        lemma_skip_fill(b, pos);
        let p = skip_fill(b, pos);
        if p + 1 < b.len() {
            let marker = b[p + 1];
            let q = p + 2;
            if !(marker == 0xDA || marker == 0xD9) {
                let next = if is_standalone_marker(marker) {
                    q
                } else {
                    q + u16_at(b, q, false) as int
                };
                if is_standalone_marker(marker) || (q + 2 <= b.len() && u16_at(b, q, false) >= 2
                    && next <= b.len()) {
                    lemma_jpeg_segs_bounds(b, next);
                    let all = jpeg_segs_from(b, pos);
                    let rest = jpeg_segs_from(b, next);
                    assert forall|i: int| 0 <= i < all.len() implies pos <= #[trigger] all[i].1
                        <= all[i].2 <= b.len() by {
                        if i > 0 {
                            assert(all[i] == rest[i - 1]);
                        }
                    }
                }
            }
        }
    }
}

pub open spec fn seg_view(v: Seq<(u8, usize, usize)>) -> Seq<(u8, int, int)> {
    v.map_values(|s: (u8, usize, usize)| (s.0, s.1 as int, s.2 as int))
}

/// Marker segments of a JPEG up to the start of scan.
pub fn jpeg_segments(bytes: &[u8]) -> (r: Vec<(u8, usize, usize)>)
    ensures
        seg_view(r@) == jpeg_segs(bytes@),
{
    let ghost b = bytes@;
    let n = bytes.len();
    let mut out: Vec<(u8, usize, usize)> = Vec::new();
    if !is_jpeg(bytes) {
        assert(seg_view(out@) =~= Seq::<(u8, int, int)>::empty());
        return out;
    }
    let mut pos: usize = 2;
    loop
        invariant
            n == b.len(),
            b == bytes@,
            spec_is_jpeg(b),
            pos <= n,
            seg_view(out@) + jpeg_segs_from(b, pos as int) == jpeg_segs(b),
        decreases n - pos,
    {
        if pos >= n || bytes[pos] != 0xFF {
            assert(seg_view(out@) =~= jpeg_segs(b));
            return out;
        }
        let ghost p0 = pos;
        proof {
            lemma_skip_fill(b, pos as int);
        }
        let mut p: usize = pos;
        while p + 1 < n && bytes[p + 1] == 0xFF
            invariant
                n == b.len(),
                b == bytes@,
                p0 <= p < n,
                skip_fill(b, p as int) == skip_fill(b, p0 as int),
            decreases n - p,
        {
            p = p + 1;
        }
        if p + 1 >= n {
            assert(seg_view(out@) =~= jpeg_segs(b));
            return out;
        }
        let marker = bytes[p + 1];
        let q = p + 2;
        if marker == 0xDA || marker == 0xD9 {
            assert(seg_view(out@) =~= jpeg_segs(b));
            return out;
        }
        if marker == 0x01 || (0xD0 <= marker && marker <= 0xD7) {
            let ghost before = seg_view(out@);
            out.push((marker, q, q));
            assert(seg_view(out@) =~= before + seq![(marker, q as int, q as int)]);
            pos = q;
        } else {
            if n - q < 2 {
                assert(seg_view(out@) =~= jpeg_segs(b));
                return out;
            }
            let len = (bytes[q] as usize) * 256 + (bytes[q + 1] as usize);
            assert(len == u16_at(b, q as int, false));
            if len < 2 || len > n - q {
                assert(seg_view(out@) =~= jpeg_segs(b));
                return out;
            }
            let ghost before = seg_view(out@);
            out.push((marker, q + 2, q + len));
            assert(seg_view(out@) =~= before + seq![(marker, q + 2, q + len)]);
            pos = q + len;
        }
    }
}

} // verus!
