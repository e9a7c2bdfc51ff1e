//! Bounds-checked reading and writing of 16/32-bit integers in byte buffers.
use vstd::prelude::*;

verus! {

/// Spans `(offset, length)` as integers.
pub open spec fn span_view(v: Seq<(usize, usize)>) -> Seq<(int, int)> {
    v.map_values(|s: (usize, usize)| (s.0 as int, s.1 as int))
}

/// The 16-bit value stored at `o` in the given byte order.
pub open spec fn u16_at(b: Seq<u8>, o: int, le: bool) -> u16 {
    if le {
        (b[o] + b[o + 1] * 256) as u16
    } else {
        (b[o] * 256 + b[o + 1]) as u16
    }
}

/// The 32-bit value stored at `o` in the given byte order.
pub open spec fn u32_at(b: Seq<u8>, o: int, le: bool) -> u32 {
    if le {
        (b[o] + b[o + 1] * 256 + b[o + 2] * 65536 + b[o + 3] * 16777216) as u32
    } else {
        (b[o] * 16777216 + b[o + 1] * 65536 + b[o + 2] * 256 + b[o + 3]) as u32
    }
}

/// The 64-bit big-endian value stored at `o`.
pub open spec fn u64_be_at(b: Seq<u8>, o: int) -> u64 {
    (u32_at(b, o, false) * 4294967296 + u32_at(b, o + 4, false)) as u64
}

/// `Some` 16-bit value when two bytes are available at `o`.
pub open spec fn rd16(b: Seq<u8>, o: int, le: bool) -> Option<u16> {
    if 0 <= o && o + 2 <= b.len() {
        Some(u16_at(b, o, le))
    } else {
        None
    }
}

/// `Some` 32-bit value when four bytes are available at `o`.
pub open spec fn rd32(b: Seq<u8>, o: int, le: bool) -> Option<u32> {
    if 0 <= o && o + 4 <= b.len() {
        Some(u32_at(b, o, le))
    } else {
        None
    }
}

/// Whether `b` holds `pat` at position `o`.
pub open spec fn has_at(b: Seq<u8>, o: int, pat: Seq<u8>) -> bool {
    0 <= o && o + pat.len() <= b.len() && b.subrange(o, o + pat.len()) == pat
}

/// `b` with the bytes of `v` written at `o` (only when they fit).
pub open spec fn put16(b: Seq<u8>, o: int, v: u16, le: bool) -> Seq<u8> {
    if 0 <= o && o + 2 <= b.len() {
        if le {
            b.update(o, (v % 256) as u8).update(o + 1, (v / 256) as u8)
        } else {
            b.update(o, (v / 256) as u8).update(o + 1, (v % 256) as u8)
        }
    } else {
        b
    }
}

/// The four bytes of `v` in the given order.
pub open spec fn bytes32(v: u32, le: bool) -> Seq<u8> {
    let b0 = (v % 256) as u8;
    let b1 = ((v / 256) % 256) as u8;
    let b2 = ((v / 65536) % 256) as u8;
    let b3 = (v / 16777216) as u8;
    if le {
        seq![b0, b1, b2, b3]
    } else {
        seq![b3, b2, b1, b0]
    }
}

/// The two bytes of `v` in the given order.
pub open spec fn bytes16(v: u16, le: bool) -> Seq<u8> {
    if le {
        seq![(v % 256) as u8, (v / 256) as u8]
    } else {
        seq![(v / 256) as u8, (v % 256) as u8]
    }
}

/// `b` with the bytes of `v` written at `o` (only when they fit).
pub open spec fn put32(b: Seq<u8>, o: int, v: u32, le: bool) -> Seq<u8> {
    if 0 <= o && o + 4 <= b.len() {
        let w = bytes32(v, le);
        b.update(o, w[0]).update(o + 1, w[1]).update(o + 2, w[2]).update(o + 3, w[3])
    } else {
        b
    }
}

/// Reading a 16-bit value back where it was written gives the value; the
/// length and every other byte stay as they were.
pub proof fn lemma_read_after_write16(b: Seq<u8>, o: int, v: u16, le: bool)
    requires
        0 <= o,
        o + 2 <= b.len(),
    ensures
        rd16(put16(b, o, v, le), o, le) == Some(v),
        put16(b, o, v, le).len() == b.len(),
        forall|k: int| 0 <= k < b.len() && (k < o || k >= o + 2) ==> #[trigger] put16(b, o, v, le)[k] == b[k],
{
    let w = put16(b, o, v, le);
    assert(v == (v / 256) * 256 + v % 256);
    if le {
        assert(w[o] == v % 256 && w[o + 1] == v / 256);
    } else {
        assert(w[o] == v / 256 && w[o + 1] == v % 256);
    }
}

/// Reading a 32-bit value back where it was written gives the value; the
/// length and every other byte stay as they were.
pub proof fn lemma_read_after_write32(b: Seq<u8>, o: int, v: u32, le: bool)
    requires
        0 <= o,
        o + 4 <= b.len(),
    ensures
        rd32(put32(b, o, v, le), o, le) == Some(v),
        put32(b, o, v, le).len() == b.len(),
        forall|k: int| 0 <= k < b.len() && (k < o || k >= o + 4) ==> #[trigger] put32(b, o, v, le)[k] == b[k],
{
    let w = put32(b, o, v, le);
    let b0 = v % 256;
    let b1 = (v / 256) % 256;
    let b2 = (v / 65536) % 256;
    let b3 = v / 16777216;
    assert(v == b0 + b1 * 256 + b2 * 65536 + b3 * 16777216);
    if le {
        assert(w[o] == b0 && w[o + 1] == b1 && w[o + 2] == b2 && w[o + 3] == b3);
    } else {
        assert(w[o] == b3 && w[o + 1] == b2 && w[o + 2] == b1 && w[o + 3] == b0);
    }
}

/// The four bytes of `v` read back give `v`.
pub proof fn lemma_bytes32_roundtrip(v: u32, le: bool)
    ensures
        bytes32(v, le).len() == 4,
        u32_at(bytes32(v, le), 0, le) == v,
{
    let b0 = v % 256;
    let b1 = (v / 256) % 256;
    let b2 = (v / 65536) % 256;
    let b3 = v / 16777216;
    assert(v == b0 + b1 * 256 + b2 * 65536 + b3 * 16777216);
}

/// Read the 16-bit value at `o`, if the buffer is long enough.
pub fn read_u16(b: &[u8], o: u64, le: bool) -> (r: Option<u16>)
    ensures
        r == rd16(b@, o as int, le),
{
    let n = b.len() as u64;
    if o > n || n - o < 2 {
        return None;
    }
    let o = o as usize;
    let x0 = b[o] as u16;
    let x1 = b[o + 1] as u16;
    if le {
        Some(x0 + x1 * 256)
    } else {
        Some(x0 * 256 + x1)
    }
}

/// Read the 32-bit value at `o`, if the buffer is long enough.
pub fn read_u32(b: &[u8], o: u64, le: bool) -> (r: Option<u32>)
    ensures
        r == rd32(b@, o as int, le),
{
    let n = b.len() as u64;
    if o > n || n - o < 4 {
        return None;
    }
    let o = o as usize;
    let x0 = b[o] as u32;
    let x1 = b[o + 1] as u32;
    let x2 = b[o + 2] as u32;
    let x3 = b[o + 3] as u32;
    if le {
        Some(x0 + x1 * 256 + x2 * 65536 + x3 * 16777216)
    } else {
        Some(x0 * 16777216 + x1 * 65536 + x2 * 256 + x3)
    }
}

/// Write `v` at `o` when two bytes fit there; otherwise leave `b` alone.
pub fn write_u16(b: &mut Vec<u8>, o: u64, v: u16, le: bool)
    ensures
        final(b)@ == put16(old(b)@, o as int, v, le),
{
    let n = b.len() as u64;
    if o <= n && n - o >= 2 {
        let o = o as usize;
        let lo = (v % 256) as u8;
        let hi = (v / 256) as u8;
        if le {
            b.set(o, lo);
            b.set(o + 1, hi);
        } else {
            b.set(o, hi);
            b.set(o + 1, lo);
        }
    }
}

/// Write `v` at `o` when four bytes fit there; otherwise leave `b` alone.
pub fn write_u32(b: &mut Vec<u8>, o: u64, v: u32, le: bool)
    ensures
        final(b)@ == put32(old(b)@, o as int, v, le),
{
    let n = b.len() as u64;
    if o <= n && n - o >= 4 {
        let o = o as usize;
        let b0 = (v % 256) as u8;
        let b1 = ((v / 256) % 256) as u8;
        let b2 = ((v / 65536) % 256) as u8;
        let b3 = (v / 16777216) as u8;
        if le {
            b.set(o, b0);
            b.set(o + 1, b1);
            b.set(o + 2, b2);
            b.set(o + 3, b3);
        } else {
            b.set(o, b3);
            b.set(o + 1, b2);
            b.set(o + 2, b1);
            b.set(o + 3, b0);
        }
    }
}

/// Append the bytes of `v` to `out`.
pub fn push_u32(out: &mut Vec<u8>, v: u32, le: bool)
    ensures
        final(out)@ == old(out)@ + bytes32(v, le),
{
    let b0 = (v % 256) as u8;
    let b1 = ((v / 256) % 256) as u8;
    let b2 = ((v / 65536) % 256) as u8;
    let b3 = (v / 16777216) as u8;
    if le {
        out.push(b0);
        out.push(b1);
        out.push(b2);
        out.push(b3);
    } else {
        out.push(b3);
        out.push(b2);
        out.push(b1);
        out.push(b0);
    }
    assert(out@ =~= old(out)@ + bytes32(v, le));
}

/// Append the bytes of `v` to `out`.
pub fn push_u16(out: &mut Vec<u8>, v: u16, le: bool)
    ensures
        final(out)@ == old(out)@ + bytes16(v, le),
{
    let lo = (v % 256) as u8;
    let hi = (v / 256) as u8;
    if le {
        out.push(lo);
        out.push(hi);
    } else {
        out.push(hi);
        out.push(lo);
    }
    assert(out@ =~= old(out)@ + bytes16(v, le));
}

/// Append a copy of `src[start..end]` to `out`.
pub fn extend_range(out: &mut Vec<u8>, src: &[u8], start: usize, end: usize)
    requires
        start <= end <= src@.len(),
    ensures
        final(out)@ == old(out)@ + src@.subrange(start as int, end as int),
{
    let mut i: usize = start;
    while i < end
        invariant
            start <= i <= end <= src@.len(),
            out@ == old(out)@ + src@.subrange(start as int, i as int),
        decreases end - i,
    {
        out.push(src[i]);
        i = i + 1;
        assert(out@ =~= old(out)@ + src@.subrange(start as int, i as int));
    }
}

/// A fresh copy of `src`.
pub fn to_vec(src: &[u8]) -> (r: Vec<u8>)
    ensures
        r@ == src@,
{
    let mut out = Vec::new();
    extend_range(&mut out, src, 0, src.len());
    assert(src@.subrange(0, src@.len() as int) =~= src@);
    assert(out@ =~= src@);
    out
}

/// Whether `b` holds `pat` at position `o`.
pub fn bytes_at(b: &[u8], o: usize, pat: &[u8]) -> (r: bool)
    ensures
        r == has_at(b@, o as int, pat@),
{
    if o > b.len() || b.len() - o < pat.len() {
        return false;
    }
    let blen = b.len();
    let mut i: usize = 0;
    while i < pat.len()
        invariant
            blen == b@.len(),
            o + pat@.len() <= b@.len(),
            0 <= i <= pat@.len(),
            forall|k: int| 0 <= k < i ==> b@[o + k] == pat@[k],
        decreases pat.len() - i,
    {
        if b[o + i] != pat[i] {
            assert(b@.subrange(o as int, o + pat@.len())[i as int] != pat@[i as int]);
            return false;
        }
        i = i + 1;
    }
    assert(b@.subrange(o as int, o + pat@.len()) =~= pat@);
    true
}

} // verus!

verus! {

/// Overwrite `buf[at..at + src.len()]` with `src`.
pub fn overwrite(buf: &mut Vec<u8>, at: usize, src: &[u8])
    requires
        at + src@.len() <= old(buf)@.len(),
    ensures
        final(buf)@ == old(buf)@.subrange(0, at as int) + src@ + old(buf)@.subrange(
            at + src@.len(),
            old(buf)@.len() as int,
        ),
{
    let n = buf.len();
    let mut i: usize = 0;
    while i < src.len()
        invariant
            n == buf@.len(),
            at + src@.len() <= buf@.len(),
            buf@.len() == old(buf)@.len(),
            0 <= i <= src@.len(),
            forall|k: int| 0 <= k < at ==> buf@[k] == old(buf)@[k],
            forall|k: int| at + i <= k < buf@.len() ==> buf@[k] == old(buf)@[k],
            forall|k: int| 0 <= k < i ==> buf@[at + k] == src@[k],
        decreases src.len() - i,
    {
        buf.set(at + i, src[i]);
        i = i + 1;
    }
    assert(buf@ =~= old(buf)@.subrange(0, at as int) + src@ + old(buf)@.subrange(
        at + src@.len(),
        old(buf)@.len() as int,
    ));
}

/// Overwrite `buf[start..end]` with zeros.
pub fn zero_range(buf: &mut Vec<u8>, start: usize, end: usize)
    requires
        start <= end <= old(buf)@.len(),
    ensures
        final(buf)@.len() == old(buf)@.len(),
        forall|k: int|
            0 <= k < final(buf)@.len() ==> #[trigger] final(buf)@[k] == if start <= k < end {
                0u8
            } else {
                old(buf)@[k]
            },
{
    let mut i: usize = start;
    while i < end
        invariant
            start <= i <= end <= buf@.len(),
            buf@.len() == old(buf)@.len(),
            forall|k: int|
                0 <= k < buf@.len() ==> #[trigger] buf@[k] == if start <= k < i {
                    0u8
                } else {
                    old(buf)@[k]
                },
        decreases end - i,
    {
        buf.set(i, 0);
        i = i + 1;
    }
}

} // verus!
