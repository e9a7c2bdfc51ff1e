//! Recognising HEIC / HEIF files, by their `ftyp` box or by their file
//! extension.  Decoding and encoding happen outside the library.
use vstd::prelude::*;
use crate::bytes::{extend_range, read_u32, to_vec, u32_at};
use crate::text::{ascii_lower, spec_ascii_lower};

verus! {

/// `ftyp` as a big-endian 32-bit value.
pub open spec fn ftyp_code() -> u32 {
    0x6674_7970
}

/// The major brands of HEIF image files with HEVC or generic image items:
/// `heic`, `heix`, `heim`, `heis`, `hevc`, `hevx`, `hevm`, `hevs`, `mif1`, `msf1`.
pub open spec fn heic_brand(v: u32) -> bool {
    v == 0x6865_6963 || v == 0x6865_6978 || v == 0x6865_696D || v == 0x6865_6973 || v
        == 0x6865_7663 || v == 0x6865_7678 || v == 0x6865_766D || v == 0x6865_7673 || v
        == 0x6D69_6631 || v == 0x6D73_6631
}

/// A file that starts with an `ftyp` box naming a HEIF brand.
pub open spec fn spec_is_heic_bytes(b: Seq<u8>) -> bool {
    b.len() >= 12 && u32_at(b, 4, false) == ftyp_code() && heic_brand(u32_at(b, 8, false))
}

/// Whether `bytes` is a HEIC / HEIF file: its first box is `ftyp` with a
/// HEIF major brand.
pub fn is_heic_bytes(bytes: &[u8]) -> (r: bool)
    ensures
        r == spec_is_heic_bytes(bytes@),
{
    if bytes.len() < 12 {
        return false;
    }
    let kind = read_u32(bytes, 4, false).unwrap();
    let brand = read_u32(bytes, 8, false).unwrap();
    kind == 0x6674_7970 && (brand == 0x6865_6963 || brand == 0x6865_6978 || brand == 0x6865_696D
        || brand == 0x6865_6973 || brand == 0x6865_7663 || brand == 0x6865_7678 || brand
        == 0x6865_766D || brand == 0x6865_7673 || brand == 0x6D69_6631 || brand == 0x6D73_6631)
}

/// `heic` or `heif`, in any letter case.
pub open spec fn spec_is_heic_extension(ext: Seq<char>) -> bool {
    spec_ascii_lower(ext) == seq!['h', 'e', 'i', 'c'] || spec_ascii_lower(ext) == seq![
        'h',
        'e',
        'i',
        'f',
    ]
}

/// Whether a file extension (without the dot) names a HEIC / HEIF file.
pub fn is_heic_extension(ext: &str) -> (r: bool)
    ensures
        r == spec_is_heic_extension(ext@),
{
    let lower = ascii_lower(ext);
    let n = lower.len();
    if n != 4 {
        return false;
    }
    let r = lower[0] == 'h' && lower[1] == 'e' && lower[2] == 'i' && (lower[3] == 'c' || lower[3]
        == 'f');
    assert(r == (lower@ =~= seq!['h', 'e', 'i', 'c'] || lower@ =~= seq!['h', 'e', 'i', 'f']));
    r
}

/// `ext` occurs in `path` right after a `.`.
pub open spec fn dotted_suffix_in(path: Seq<char>, ext: Seq<char>) -> bool {
    exists|i: int|
        0 < i && i + ext.len() <= path.len() && path[i - 1] == '.' && #[trigger] path.subrange(
            i,
            i + ext.len(),
        ) == ext
}

/// A path every platform splits alike: no `\` or `:`, and not starting
/// with `//` (a network prefix where `\` and `/` both separate).
pub open spec fn portable_path(p: Seq<char>) -> bool {
    !p.contains('\\') && !p.contains(':') && !(p.len() >= 2 && p[0] == '/' && p[1] == '/')
}

/// The index of the last `/` among the first `n` characters of `p`, or -1.
pub open spec fn last_slash_before(p: Seq<char>, n: int) -> int
    decreases n,
{
    if n <= 0 || n > p.len() {
        -1
    } else if p[n - 1] == '/' {
        n - 1
    } else {
        last_slash_before(p, n - 1)
    }
}

/// The last component of the first `n` characters of `p`, as std's
/// `Path::components` reads it from the back: trailing `/`s and `.`
/// components after a `/` are skipped; empty when nothing is left.
pub open spec fn last_component_upto(p: Seq<char>, n: int) -> Seq<char>
    decreases n,
{
    if n <= 0 || n > p.len() {
        Seq::empty()
    } else if p[n - 1] == '/' {
        last_component_upto(p, n - 1)
    } else {
        let i = last_slash_before(p, n);
        let piece = p.subrange(i + 1, n);
        if 0 <= i < n && piece == seq!['.'] {
            last_component_upto(p, i)
        } else {
            piece
        }
    }
}

/// The extension std's `Path::extension` finds in a portable path: that of
/// its last component, which is no file name when it is `.`, `..` or empty.
pub open spec fn path_name_extension(p: Seq<char>) -> Option<Seq<char>> {
    let name = last_component_upto(p, p.len() as int);
    if name == seq!['.', '.'] {
        None
    } else {
        name_extension(name)
    }
}

/// The index of the last `.` among the first `n` characters of `p`, or -1.
pub open spec fn last_dot_before(p: Seq<char>, n: int) -> int
    decreases n,
{
    if n <= 0 || n > p.len() {
        -1
    } else if p[n - 1] == '.' {
        n - 1
    } else {
        last_dot_before(p, n - 1)
    }
}

/// The text after the last `.` of the file name `p`, when that dot is not
/// its first character.
pub open spec fn name_extension(p: Seq<char>) -> Option<Seq<char>> {
    let i = last_dot_before(p, p.len() as int);
    if i > 0 {
        Some(p.subrange(i + 1, p.len() as int))
    } else {
        None
    }
}

/// The extension of `path` as std's `Path::extension` finds it: the part of
/// the file name (the last component) after its last `.`, when that dot
/// does not start the name.  For a portable path (see `portable_path`) this
/// is `path_name_extension`.  Where `\`, `:` or a leading `//` can start a
/// prefix or separate components, only this is stated: an extension follows
/// a `.` in the path and holds no `.` or `/`, and a path without a `.` has
/// none.
#[verifier::external_body]
pub(crate) fn path_extension(path: &str) -> (r: Option<String>)
    ensures
        r matches Some(e) ==> dotted_suffix_in(path@, e@) && !e@.contains('.') && !e@.contains('/'),
        !path@.contains('.') ==> r is None,
        portable_path(path@) ==> opt_chars(r) == path_name_extension(path@),
{
    std::path::Path::new(path).extension().and_then(|e| e.to_str()).map(|e| e.to_owned())
}

/// The view of an optional string.
pub open spec fn opt_chars(r: Option<String>) -> Option<Seq<char>> {
    match r {
        Some(s) => Some(s@),
        None => None,
    }
}

/// Returns `true` when the file extension indicates HEIC or HEIF.
pub fn is_heic(path: &str) -> (r: bool)
    ensures
        r ==> exists|e: Seq<char>| dotted_suffix_in(path@, e) && !e.contains('.') && spec_is_heic_extension(e),
        !path@.contains('.') ==> !r,
        portable_path(path@) ==> r == (path_name_extension(path@) matches Some(e) && spec_is_heic_extension(e)),
{
    match path_extension(path) {
        Some(e) => is_heic_extension(e.as_str()),
        None => false,
    }
}

/// The codec a HEIC / HEIF file is written with.
#[derive(Clone, Copy, PartialEq, Eq, Structural, Debug)]
pub enum HeicCodec {
    Hevc,
    Av1,
}

/// `heif` in any letter case.
pub open spec fn spec_is_heif_extension(ext: Seq<char>) -> bool {
    spec_ascii_lower(ext) == seq!['h', 'e', 'i', 'f']
}

/// The codec for the file at `path`: AV1 for a `.heif` extension (in any
/// letter case), HEVC for anything else.
pub fn heic_codec_for(path: &str) -> (r: HeicCodec)
    ensures
        r == HeicCodec::Av1 ==> exists|e: Seq<char>| dotted_suffix_in(path@, e) && !e.contains('.') && spec_is_heif_extension(e),
        !path@.contains('.') ==> r == HeicCodec::Hevc,
        portable_path(path@) ==> ((r == HeicCodec::Av1) == (path_name_extension(path@) matches Some(e)
            && spec_is_heif_extension(e))),
{
    match path_extension(path) {
        Some(e) => {
            let lower = ascii_lower(e.as_str());
            if lower.len() == 4 && lower[0] == 'h' && lower[1] == 'e' && lower[2] == 'i' && lower[3] == 'f' {
                assert(lower@ =~= seq!['h', 'e', 'i', 'f']);
                assert(dotted_suffix_in(path@, e@) && !e@.contains('.') && spec_is_heif_extension(e@));
                HeicCodec::Av1
            } else {
                assert(!(lower@ =~= seq!['h', 'e', 'i', 'f']) ==> lower@ != seq!['h', 'e', 'i', 'f']);
                HeicCodec::Hevc
            }
        },
        None => HeicCodec::Hevc,
    }
}

/// The EXIF data of a HEIF `Exif` metadata item: what follows its leading
/// four-byte offset field, or the item as it is when it holds no more than
/// that field.
pub fn heic_exif_item_body(raw: Vec<u8>) -> (r: Vec<u8>)
    ensures
        r@ == (if raw@.len() > 4 {
            raw@.subrange(4, raw@.len() as int)
        } else {
            raw@
        }),
{
    if raw.len() > 4 {
        let mut out: Vec<u8> = Vec::new();
        extend_range(&mut out, raw.as_slice(), 4, raw.len());
        out
    } else {
        raw
    }
}

// ---- interleaved pixel planes ---------------------------------------------

/// The first `h` rows of `w` bytes of `d`, each starting `s` bytes after
/// the one before, laid end to end.
pub open spec fn packed_rows(d: Seq<u8>, s: int, w: int, h: int) -> Seq<u8>
    decreases h,
{
    if h <= 0 {
        Seq::empty()
    } else {
        packed_rows(d, s, w, h - 1) + d.subrange((h - 1) * s, (h - 1) * s + w)
    }
}

/// `x` with the bytes `v` written over it from offset `o`.
pub open spec fn overwrite(x: Seq<u8>, o: int, v: Seq<u8>) -> Seq<u8> {
    x.subrange(0, o) + v + x.subrange(o + v.len(), x.len() as int)
}

/// `dst` with the first `h` rows of `w` bytes of `raw` (laid end to end)
/// written `s` bytes apart, row after row.
pub open spec fn placed_rows(dst: Seq<u8>, s: int, raw: Seq<u8>, w: int, h: int) -> Seq<u8>
    decreases h,
{
    if h <= 0 {
        dst
    } else {
        overwrite(placed_rows(dst, s, raw, w, h - 1), (h - 1) * s, raw.subrange((h - 1) * w, h * w))
    }
}

proof fn lemma_row_start(row: int, height: int, stride: int, row_len: int)
    by (nonlinear_arith)
    requires
        0 <= row < height,
        0 <= stride,
        0 <= row_len,
    ensures
        row * stride <= (height - 1) * stride,
        (row + 1) * stride == row * stride + stride,
        (row + 1) * row_len == row * row_len + row_len,
        (row + 1) * row_len <= height * row_len,
{
}

/// The rows of an interleaved plane (`height` rows of `row_len` bytes,
/// `stride` bytes apart) copied out without the padding between them.
pub fn pack_rows(data: &[u8], stride: usize, row_len: usize, height: usize) -> (r: Vec<u8>)
    requires
        height == 0 || (height - 1) * stride + row_len <= data@.len(),
    ensures
        r@ == packed_rows(data@, stride as int, row_len as int, height as int),
{
    let n: usize = data.len();
    let mut out: Vec<u8> = Vec::new();
    let mut row: usize = 0;
    let mut start: usize = 0;
    while row < height
        invariant
            n == data@.len(),
            row <= height,
            height == 0 || (height - 1) * stride + row_len <= data@.len(),
            row < height ==> start == row * stride,
            out@ == packed_rows(data@, stride as int, row_len as int, row as int),
        decreases height - row,
    {
        proof {
            lemma_row_start(row as int, height as int, stride as int, row_len as int);
        }
        extend_range(&mut out, data, start, start + row_len);
        row = row + 1;
        if row < height {
            proof {
                lemma_row_start(row as int, height as int, stride as int, row_len as int);
            }
            start = start + stride;
        }
    }
    out
}

/// The rows of `raw` (`height` rows of `row_len` bytes, end to end) written
/// into a copy of the plane `dst`, `stride` bytes apart.
pub fn place_rows(dst: &[u8], stride: usize, raw: &[u8], row_len: usize, height: usize) -> (r: Vec<u8>)
    requires
        height == 0 || (height - 1) * stride + row_len <= dst@.len(),
        height * row_len <= raw@.len(),
    ensures
        r@ == placed_rows(dst@, stride as int, raw@, row_len as int, height as int),
{
    let n: usize = dst.len();
    let m: usize = raw.len();
    let mut out = to_vec(dst);
    let mut row: usize = 0;
    let mut start: usize = 0;
    let mut src: usize = 0;
    while row < height
        invariant
            n == dst@.len(),
            m == raw@.len(),
            row <= height,
            height == 0 || (height - 1) * stride + row_len <= dst@.len(),
            height * row_len <= raw@.len(),
            row < height ==> start == row * stride,
            src == row * row_len,
            out@ == placed_rows(dst@, stride as int, raw@, row_len as int, row as int),
            out@.len() == dst@.len(),
        decreases height - row,
    {
        proof {
            lemma_row_start(row as int, height as int, stride as int, row_len as int);
        }
        let ghost prev = out@;
        let mut k: usize = 0;
        while k < row_len
            invariant
                n == prev.len(),
                m == raw@.len(),
                k <= row_len,
                start + row_len <= prev.len(),
                src + row_len <= raw@.len(),
                out@ == overwrite(prev, start as int, raw@.subrange(src as int, src + k)),
                out@.len() == prev.len(),
            decreases row_len - k,
        {
            out.set(start + k, raw[src + k]);
            k = k + 1;
            assert(out@ =~= overwrite(prev, start as int, raw@.subrange(src as int, src + k)));
        }
        assert(raw@.subrange(src as int, src + row_len) =~= raw@.subrange(row * row_len, (row + 1) * row_len));
        row = row + 1;
        src = src + row_len;
        if row < height {
            proof {
                lemma_row_start(row as int, height as int, stride as int, row_len as int);
            }
            start = start + stride;
        }
    }
    out
}

} // verus!
