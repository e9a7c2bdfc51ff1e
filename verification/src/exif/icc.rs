//! ICC profile names: finding an embedded ICC profile in JPEG, WebP, PNG,
//! TIFF and HEIC files and reading its description, or falling back to the
//! EXIF ColorSpace tag.
use vstd::prelude::*;
use crate::bytes::{bytes_at, has_at, read_u16, read_u32, to_vec, u16_at, u32_at};
use crate::exif::container::{is_png, is_tiff, is_webp, spec_is_png, spec_is_tiff, spec_is_webp};
use crate::exif::extract::{extract_exif_tiff, spec_extract_exif_tiff};
use crate::exif::heic::opt_bytes;
use crate::exif::parser::TagContext;
use crate::exif::tiff::{read_short_tag_from_tiff, spec_read_short_tag};
use crate::text::{is_char, string_of, trim_char, trim_char_vec, trim_ws, trim_ws_vec};

verus! {

// ---- outside decoders ----------------------------------------------------------------

/// Name for std's `String::from_utf8_lossy`: `bytes` decoded as UTF-8, each
/// invalid sequence replaced by U+FFFD.
pub uninterp spec fn utf8_lossy(bytes: Seq<u8>) -> Seq<char>;

/// `units` decoded as UTF-16, as std's `String::from_utf16_lossy` does: a
/// high surrogate followed by a low one gives the character the pair
/// encodes, a unit outside 0xD800..=0xDFFF gives itself, and each unpaired
/// surrogate gives U+FFFD.
pub open spec fn utf16_lossy(units: Seq<u16>) -> Seq<char>
    decreases units.len(),
{
    if units.len() == 0 {
        Seq::empty()
    } else {
        let a = units[0];
        if a < 0xD800 || a > 0xDFFF {
            seq![a as char] + utf16_lossy(units.drop_first())
        } else if a <= 0xDBFF && units.len() >= 2 && 0xDC00 <= units[1] && units[1] <= 0xDFFF {
            seq![(0x10000 + (a - 0xD800) * 0x400 + (units[1] - 0xDC00)) as char] + utf16_lossy(
                units.subrange(2, units.len() as int),
            )
        } else {
            seq!['\u{FFFD}'] + utf16_lossy(units.drop_first())
        }
    }
}

/// Name for flate2's `ZlibDecoder` read to the end: the inflated zlib
/// stream, `None` when reading fails.
pub uninterp spec fn zlib_decoded(data: Seq<u8>) -> Option<Seq<u8>>;

/// Name for flate2's `DeflateDecoder` read to the end: the inflated raw
/// deflate stream, `None` when reading fails.
pub uninterp spec fn deflate_decoded(data: Seq<u8>) -> Option<Seq<u8>>;

/// Name for what kamadak-exif gives for field `(ctx, number)` of the
/// primary image when `Reader::read_raw` reads `bytes` without error:
/// `Some(v)` with `v` the field value's `get_uint(0)`; `None` when reading
/// fails (a partial result counts as failure) or there is no such field.
pub uninterp spec fn exif_uint_field(bytes: Seq<u8>, ctx: TagContext, number: u16) -> Option<Option<u32>>;

/// std's `String::from_utf8_lossy` (see `utf8_lossy`); valid UTF-8 is
/// decoded as it is.
#[verifier::external_body]
fn decode_utf8_lossy(bytes: &[u8]) -> (r: Vec<char>)
    ensures
        r@ == utf8_lossy(bytes@),
        vstd::utf8::valid_utf8(bytes@) ==> r@ == vstd::utf8::decode_utf8(bytes@),
{
    String::from_utf8_lossy(bytes).chars().collect()
}

/// std's `String::from_utf16_lossy`, which its documentation describes as
/// decoding UTF-16 with invalid data replaced by U+FFFD (see `utf16_lossy`).
#[verifier::external_body]
fn decode_utf16_lossy(units: &[u16]) -> (r: Vec<char>)
    ensures
        r@ == utf16_lossy(units@),
{
    String::from_utf16_lossy(units).chars().collect()
}

/// flate2's `ZlibDecoder` (see `zlib_decoded`).
#[verifier::external_body]
fn zlib_decode(data: &[u8]) -> (r: Option<Vec<u8>>)
    ensures
        opt_bytes(r) == zlib_decoded(data@),
{
    let mut out = Vec::new();
    match std::io::Read::read_to_end(&mut flate2::read::ZlibDecoder::new(data), &mut out) {
        Ok(_) => Some(out),
        Err(_) => None,
    }
}

/// flate2's `DeflateDecoder` (see `deflate_decoded`).
#[verifier::external_body]
fn deflate_decode(data: &[u8]) -> (r: Option<Vec<u8>>)
    ensures
        opt_bytes(r) == deflate_decoded(data@),
{
    let mut out = Vec::new();
    match std::io::Read::read_to_end(&mut flate2::read::DeflateDecoder::new(data), &mut out) {
        Ok(_) => Some(out),
        Err(_) => None,
    }
}

/// kamadak-exif's `Reader::read_raw` then `Exif::get_field` and
/// `Value::get_uint(0)` (see `exif_uint_field`).
#[verifier::external_body]
fn read_exif_uint_field(bytes: &[u8], ctx: TagContext, number: u16) -> (r: Option<Option<u32>>)
    ensures
        r == exif_uint_field(bytes@, ctx, number),
{
    let mut reader = ::exif::Reader::new();
    reader.continue_on_error(true);
    let exif = reader.read_raw(bytes.to_vec()).ok()?;
    let c = match ctx {
        TagContext::Tiff => ::exif::Context::Tiff,
        TagContext::Exif => ::exif::Context::Exif,
        TagContext::Gps => ::exif::Context::Gps,
    };
    exif.get_field(::exif::Tag(c, number), ::exif::In::PRIMARY).map(|f| f.value.get_uint(0))
}

// ---- profile descriptions -------------------------------------------------------------

/// Text with NULs and then white space trimmed off both ends, `None` when
/// nothing is left.
pub open spec fn clean_text(cs: Seq<char>) -> Option<Seq<char>> {
    let t = trim_ws(trim_char(cs, '\0'));
    if t.len() > 0 {
        Some(t)
    } else {
        None
    }
}

fn clean(cs: Vec<char>) -> (r: Option<Vec<char>>)
    ensures
        match r {
            Some(t) => clean_text(cs@) == Some(t@),
            None => clean_text(cs@) is None,
        },
{
    let t = trim_ws_vec(&trim_char_vec(&cs, '\0'));
    if t.len() > 0 {
        Some(t)
    } else {
        None
    }
}

/// Big-endian 16-bit code units of `b` (a trailing odd byte is ignored).
pub open spec fn be_units(b: Seq<u8>) -> Seq<u16> {
    Seq::new((b.len() / 2) as nat, |k: int| (b[2 * k] * 256 + b[2 * k + 1]) as u16)
}

/// The text of a profile tag payload: a `mluc` record's UTF-16 string, a
/// `desc` ASCII string, or `text` data; cleaned by `clean_text`.
pub open spec fn spec_payload_text(p: Seq<u8>) -> Option<Seq<char>> {
    if p.len() < 4 {
        None
    } else {
        let typ = u32_at(p, 0, false);
        if typ == 0x6D6C_7563 {
            if p.len() >= 28 && u32_at(p, 8, false) > 0 && u32_at(p, 12, false) >= 12 {
                let sl = u32_at(p, 20, false) as int;
                let so = u32_at(p, 24, false) as int;
                if so + sl <= p.len() {
                    clean_text(utf16_lossy(be_units(p.subrange(so, so + sl))))
                } else {
                    None
                }
            } else {
                None
            }
        } else if typ == 0x6465_7363 {
            if p.len() >= 12 && 12 + u32_at(p, 8, false) <= p.len() {
                clean_text(utf8_lossy(p.subrange(12, 12 + u32_at(p, 8, false))))
            } else {
                None
            }
        } else if typ == 0x7465_7874 && p.len() > 8 {
            clean_text(utf8_lossy(p.subrange(8, p.len() as int)))
        } else {
            None
        }
    }
}

fn payload_text(p: &[u8]) -> (r: Option<Vec<char>>)
    ensures
        match r {
            Some(t) => spec_payload_text(p@) == Some(t@),
            None => spec_payload_text(p@) is None,
        },
{
    let n = p.len();
    if n < 4 {
        return None;
    }
    let typ = read_u32(p, 0, false).unwrap();
    if typ == 0x6D6C_7563 {
        if n >= 28 && read_u32(p, 8, false).unwrap() > 0 && read_u32(p, 12, false).unwrap() >= 12 {
            let sl = read_u32(p, 20, false).unwrap() as usize;
            let so = read_u32(p, 24, false).unwrap() as usize;
            if so <= n && sl <= n - so {
                let s = &p[so..so + sl];
                let mut units: Vec<u16> = Vec::new();
                let mut k: usize = 0;
                while k < sl / 2
                    invariant
                        s@ == p@.subrange(so as int, so + sl),
                        sl == s@.len(),
                        k <= sl / 2,
                        units@ == be_units(s@).subrange(0, k as int),
                    decreases sl / 2 - k,
                {
                    let u = (s[2 * k] as u16) * 256 + (s[2 * k + 1] as u16);
                    units.push(u);
                    k = k + 1;
                    assert(units@ =~= be_units(s@).subrange(0, k as int));
                }
                assert(units@ =~= be_units(s@));
                return clean(decode_utf16_lossy(units.as_slice()));
            }
        }
        None
    } else if typ == 0x6465_7363 {
        if n >= 12 {
            let sl = read_u32(p, 8, false).unwrap() as usize;
            if sl <= n - 12 {
                return clean(decode_utf8_lossy(&p[12..12 + sl]));
            }
        }
        None
    } else if typ == 0x7465_7874 && n > 8 {
        clean(decode_utf8_lossy(&p[8..n]))
    } else {
        None
    }
}

/// The names found among tags `k..n` of a profile's tag table, as
/// `(device model, multi-localized description, description)`; a later
/// tag of the same kind wins.
pub open spec fn icc_scan(
    icc: Seq<u8>,
    k: int,
    n: int,
    acc: (Option<Seq<char>>, Option<Seq<char>>, Option<Seq<char>>),
) -> (Option<Seq<char>>, Option<Seq<char>>, Option<Seq<char>>)
    decreases n - k,
{
    let pos = 132 + 12 * k;
    if k < 0 || k >= n || pos + 12 > icc.len() {
        acc
    } else {
        let sig = u32_at(icc, pos, false);
        let off = u32_at(icc, pos + 4, false) as int;
        let size = u32_at(icc, pos + 8, false) as int;
        let acc1 = if off + size <= icc.len() {
            match spec_payload_text(icc.subrange(off, off + size)) {
                Some(name) => if sig == 0x646D_6464 || sig == 0x6D6D_6F64 || sig == 0x6473_636D {
                    (Some(name), acc.1, acc.2)
                } else if sig == 0x6D6C_7563 {
                    (acc.0, Some(name), acc.2)
                } else if sig == 0x6465_7363 {
                    (acc.0, acc.1, Some(name))
                } else {
                    acc
                },
                None => acc,
            }
        } else {
            acc
        };
        icc_scan(icc, k + 1, n, acc1)
    }
}

/// The name of an ICC profile: its device model, else its multi-localized
/// description, else its description.
#[verifier::opaque]
pub open spec fn spec_icc_profile_name(icc: Seq<u8>) -> Option<Seq<char>> {
    if icc.len() < 132 {
        None
    } else {
        let (model, mluc, desc) = icc_scan(icc, 0, u32_at(icc, 128, false) as int, (None, None, None));
        if model is Some {
            model
        } else if mluc is Some {
            mluc
        } else {
            desc
        }
    }
}

pub open spec fn opt_string(r: Option<String>) -> Option<Seq<char>> {
    match r {
        Some(s) => Some(s@),
        None => None,
    }
}

fn icc_name(icc: &[u8]) -> (r: Option<Vec<char>>)
    ensures
        match r {
            Some(t) => spec_icc_profile_name(icc@) == Some(t@),
            None => spec_icc_profile_name(icc@) is None,
        },
{
    reveal(spec_icc_profile_name);
    let n = icc.len();
    if n < 132 {
        return None;
    }
    let tag_count = read_u32(icc, 128, false).unwrap() as u64;
    let mut model: Option<Vec<char>> = None;
    let mut mluc: Option<Vec<char>> = None;
    let mut desc: Option<Vec<char>> = None;
    let mut k: u64 = 0;
    let mut pos: usize = 132;
    while k < tag_count
        invariant
            n == icc@.len(),
            n >= 132,
            k <= tag_count,
            tag_count <= u32::MAX,
            pos == 132 + 12 * k,
            icc_scan(icc@, 0, tag_count as int, (None, None, None)) == icc_scan(
                icc@,
                k as int,
                tag_count as int,
                (opt_vc(model), opt_vc(mluc), opt_vc(desc)),
            ),
        ensures
            icc_scan(icc@, 0, tag_count as int, (None, None, None)) == (opt_vc(model), opt_vc(mluc), opt_vc(desc)),
        decreases tag_count - k,
    {
        if pos > n || n - pos < 12 {
            break;
        }
        let sig = read_u32(icc, pos as u64, false).unwrap();
        let off = read_u32(icc, (pos + 4) as u64, false).unwrap() as usize;
        let size = read_u32(icc, (pos + 8) as u64, false).unwrap() as usize;
        if off <= n && size <= n - off {
            match payload_text(&icc[off..off + size]) {
                Some(name) => {
                    if sig == 0x646D_6464 || sig == 0x6D6D_6F64 || sig == 0x6473_636D {
                        model = Some(name);
                    } else if sig == 0x6D6C_7563 {
                        mluc = Some(name);
                    } else if sig == 0x6465_7363 {
                        desc = Some(name);
                    }
                },
                None => {},
            }
        }
        k = k + 1;
        pos = pos + 12;
    }
    if model.is_some() {
        model
    } else if mluc.is_some() {
        mluc
    } else {
        desc
    }
}

pub open spec fn opt_vc(r: Option<Vec<char>>) -> Option<Seq<char>> {
    match r {
        Some(v) => Some(v@),
        None => None,
    }
}

fn opt_to_string(r: Option<Vec<char>>) -> (s: Option<String>)
    ensures
        opt_string(s) == opt_vc(r),
{
    match r {
        Some(v) => Some(string_of(&v)),
        None => None,
    }
}

/// The name of an ICC profile (device model, else multi-localized
/// description, else description).
pub fn parse_icc_profile_name(icc: &[u8]) -> (r: Option<String>)
    ensures
        opt_string(r) == spec_icc_profile_name(icc@),
{
    opt_to_string(icc_name(icc))
}

// ---- JPEG -------------------------------------------------------------------------

/// `ICC_PROFILE\0`
pub open spec fn icc_marker() -> Seq<u8> {
    seq![0x49u8, 0x43, 0x43, 0x5F, 0x50, 0x52, 0x4F, 0x46, 0x49, 0x4C, 0x45, 0x00]
}

/// The profile bytes carried by APP2 `ICC_PROFILE` segments from `i` on,
/// concatenated (the two sequence bytes after the marker skipped); RSTn,
/// SOI and EOI are stepped over, any other segment skipped by its length.
/// `None` when an APP2 segment of length 14 or more runs past the end, or
/// one of length 14 or 15 carries the marker (its payload cannot be sliced).
pub open spec fn jpeg_icc_from(b: Seq<u8>, i: int) -> Option<Seq<u8>>
    decreases b.len() - i,
{
    if i < 0 || i + 4 > b.len() || b[i] != 0xFF {
        Some(Seq::empty())
    } else {
        let m = b[i + 1];
        if m == 0xD8 || m == 0xD9 || (0xD0 <= m && m <= 0xD7) {
            jpeg_icc_from(b, i + 2)
        } else {
            let len = u16_at(b, i + 2, false) as int;
            let part: Option<Seq<u8>> = if m == 0xE2 && len >= 14 {
                if i + 2 + len > b.len() {
                    None
                } else if has_at(b, i + 4, icc_marker()) {
                    if len < 16 {
                        None
                    } else {
                        Some(b.subrange(i + 18, i + 2 + len))
                    }
                } else {
                    Some(Seq::empty())
                }
            } else {
                Some(Seq::empty())
            };
            match part {
                None => None,
                Some(d) => if i + 2 + len > b.len() {
                    Some(d)
                } else {
                    match jpeg_icc_from(b, i + 2 + len) {
                        None => None,
                        Some(rest) => Some(d + rest),
                    }
                },
            }
        }
    }
}

/// The profile name of a JPEG's ICC profile.
pub open spec fn spec_icc_from_jpeg(b: Seq<u8>) -> Option<Seq<char>> {
    match jpeg_icc_from(b, 2) {
        Some(d) => if d.len() > 0 {
            spec_icc_profile_name(d)
        } else {
            None
        },
        None => None,
    }
}

fn extract_icc_from_jpeg(bytes: &[u8]) -> (r: Option<Vec<char>>)
    requires
        jpeg_icc_from(bytes@, 2) is Some,
    ensures
        opt_vc(r) == spec_icc_from_jpeg(bytes@),
{
    let ghost b = bytes@;
    let n = bytes.len();
    let sig: [u8; 12] = [0x49, 0x43, 0x43, 0x5F, 0x50, 0x52, 0x4F, 0x46, 0x49, 0x4C, 0x45, 0x00];
    assert(sig@ =~= icc_marker());
    let mut i: usize = 2;
    let mut icc: Vec<u8> = Vec::new();
    while n >= 4 && i <= n - 4
        invariant
            b == bytes@,
            n == b.len(),
            sig@ == icc_marker(),
            i >= 2,
            jpeg_icc_from(b, i as int) is Some,
            jpeg_icc_from(b, 2) == Some(icc@ + jpeg_icc_from(b, i as int)->0),
        ensures
            jpeg_icc_from(b, 2) == Some(icc@),
        decreases n - i,
    {
        if bytes[i] != 0xFF {
            assert(icc@ + Seq::<u8>::empty() =~= icc@);
            break;
        }
        let marker = bytes[i + 1];
        if marker == 0xD8 || marker == 0xD9 || (0xD0 <= marker && marker <= 0xD7) {
            i = i + 2;
            continue;
        }
        let len = (bytes[i + 2] as usize) * 256 + (bytes[i + 3] as usize);
        assert(len == u16_at(b, i + 2, false));
        if len > n - i - 2 {
            assert(icc@ + Seq::<u8>::empty() =~= icc@);
            break;
        }
        let ghost i0 = i;
        let ghost before = icc@;
        if marker == 0xE2 && len >= 14 {
            if bytes_at(bytes, i + 4, &sig) {
                crate::bytes::extend_range(&mut icc, bytes, i + 18, i + 2 + len);
            }
        }
        i = i + 2 + len;
        proof {
            let d = if marker == 0xE2 && len >= 14 && has_at(b, i0 + 4, icc_marker()) {
                b.subrange(i0 + 18, i0 + 2 + len)
            } else {
                Seq::empty()
            };
            assert(icc@ == before + d);
            assert(before + (d + jpeg_icc_from(b, i as int)->0) =~= icc@ + jpeg_icc_from(b, i as int)->0);
        }
    }
    if icc.len() > 0 {
        icc_name(icc.as_slice())
    } else {
        None
    }
}

// ---- WebP ---------------------------------------------------------------------------

/// The profile name of the first `ICCP` chunk (at `pos` or later, before
/// `end`) whose payload lies in the file; chunks are padded to an even size.
pub open spec fn webp_icc_from(b: Seq<u8>, pos: int, end: int) -> Option<Seq<char>>
    decreases end - pos,
{
    if pos < 0 || pos + 8 > end {
        None
    } else {
        let size = u32_at(b, pos + 4, true) as int;
        if u32_at(b, pos, false) == 0x4943_4350 && pos + 8 + size <= b.len() {
            spec_icc_profile_name(b.subrange(pos + 8, pos + 8 + size))
        } else if pos + 8 + size + size % 2 > end {
            None
        } else {
            webp_icc_from(b, pos + 8 + size + size % 2, end)
        }
    }
}

pub open spec fn spec_icc_from_webp(b: Seq<u8>) -> Option<Seq<char>> {
    if !spec_is_webp(b) {
        None
    } else {
        let declared = 8 + u32_at(b, 4, true);
        webp_icc_from(b, 12, if declared < b.len() { declared } else { b.len() as int })
    }
}

/// The walk of `webp_icc_from`, one chunk per call.
fn webp_icc_walk(bytes: &[u8], pos: usize, end: usize) -> (r: Option<Vec<char>>)
    requires
        end <= bytes@.len(),
    ensures
        opt_vc(r) == webp_icc_from(bytes@, pos as int, end as int),
    decreases end - pos,
{
    if end < 8 || pos > end - 8 {
        return None;
    }
    let n = bytes.len();
    let fourcc = read_u32(bytes, pos as u64, false).unwrap();
    let size = read_u32(bytes, (pos + 4) as u64, true).unwrap() as u64;
    if fourcc == 0x4943_4350 && size <= (n - pos - 8) as u64 {
        return icc_name(&bytes[pos + 8..pos + 8 + size as usize]);
    }
    let next = pos as u128 + 8 + size as u128 + (size % 2) as u128;
    if next > end as u128 {
        return None;
    }
    webp_icc_walk(bytes, next as usize, end)
}

fn extract_icc_from_webp(bytes: &[u8]) -> (r: Option<Vec<char>>)
    ensures
        opt_vc(r) == spec_icc_from_webp(bytes@),
{
    if !is_webp(bytes) {
        return None;
    }
    let n = bytes.len();
    let declared = read_u32(bytes, 4, true).unwrap() as u64 + 8;
    let end: usize = if declared < n as u64 {
        declared as usize
    } else {
        n
    };
    webp_icc_walk(bytes, 12, end)
}

// ---- PNG ----------------------------------------------------------------------------

/// Index of the first zero byte of `d` at `i` or later.
pub open spec fn first_zero(d: Seq<u8>, i: int) -> Option<int>
    decreases d.len() - i,
{
    if i < 0 || i >= d.len() {
        None
    } else if d[i] == 0 {
        Some(i)
    } else {
        first_zero(d, i + 1)
    }
}

/// The name an `iCCP` chunk with data `d` yields, its name ending at the
/// NUL at `z`: the embedded profile's name when the zlib (or else raw
/// deflate) stream after the compression byte inflates to a profile with a
/// name, else the chunk's own profile name.
pub open spec fn iccp_name(d: Seq<u8>, z: int) -> Seq<char> {
    let name = utf8_lossy(d.subrange(0, z));
    if z + 2 > d.len() {
        name
    } else {
        let comp = d.subrange(z + 2, d.len() as int);
        let dec = match zlib_decoded(comp) {
            Some(x) => Some(x),
            None => deflate_decoded(comp),
        };
        match dec {
            Some(x) => match spec_icc_profile_name(x) {
                Some(desc) => desc,
                None => name,
            },
            None => name,
        }
    }
}

/// The chunks of a PNG from `i` on whose data the walk can slice: an
/// `iCCP` chunk reached must fit in the file.
pub open spec fn png_icc_ok(b: Seq<u8>, i: int) -> bool
    decreases b.len() - i,
{
    if i < 0 || i + 12 > b.len() {
        true
    } else {
        let len = u32_at(b, i, false) as int;
        if u32_at(b, i + 4, false) == 0x6943_4350 {
            if i + 8 + len > b.len() {
                false
            } else if first_zero(b.subrange(i + 8, i + 8 + len), 0) is Some {
                true
            } else if i + 12 + len > b.len() {
                true
            } else {
                png_icc_ok(b, i + 12 + len)
            }
        } else if i + 12 + len > b.len() {
            true
        } else {
            png_icc_ok(b, i + 12 + len)
        }
    }
}

/// The name of the first `iCCP` chunk (from `i` on) whose data holds a NUL.
pub open spec fn png_icc_from(b: Seq<u8>, i: int) -> Option<Seq<char>>
    decreases b.len() - i,
{
    if i < 0 || i + 12 > b.len() {
        None
    } else {
        let len = u32_at(b, i, false) as int;
        if u32_at(b, i + 4, false) == 0x6943_4350 && i + 8 + len <= b.len() {
            let d = b.subrange(i + 8, i + 8 + len);
            match first_zero(d, 0) {
                Some(z) => Some(iccp_name(d, z)),
                None => if i + 12 + len > b.len() {
                    None
                } else {
                    png_icc_from(b, i + 12 + len)
                },
            }
        } else if i + 12 + len > b.len() {
            None
        } else {
            png_icc_from(b, i + 12 + len)
        }
    }
}

pub open spec fn spec_icc_from_png(b: Seq<u8>) -> Option<Seq<char>> {
    if !spec_is_png(b) {
        None
    } else {
        png_icc_from(b, 8)
    }
}

fn find_zero(d: &[u8]) -> (r: Option<usize>)
    ensures
        match r {
            Some(z) => first_zero(d@, 0) == Some(z as int) && z < d@.len(),
            None => first_zero(d@, 0) is None,
        },
{
    let mut i: usize = 0;
    while i < d.len()
        invariant
            i <= d@.len(),
            first_zero(d@, 0) == first_zero(d@, i as int),
        decreases d.len() - i,
    {
        if d[i] == 0 {
            return Some(i);
        }
        i = i + 1;
    }
    None
}

fn iccp_chunk_name(d: &[u8], z: usize) -> (r: Vec<char>)
    requires
        z < d@.len(),
    ensures
        r@ == iccp_name(d@, z as int),
{
    let name = decode_utf8_lossy(&d[0..z]);
    if d.len() - z < 2 {
        return name;
    }
    let comp = &d[z + 2..d.len()];
    let dec = match zlib_decode(comp) {
        Some(x) => Some(x),
        None => deflate_decode(comp),
    };
    match dec {
        Some(x) => match icc_name(x.as_slice()) {
            Some(desc) => desc,
            None => name,
        },
        None => name,
    }
}

fn extract_icc_from_png(bytes: &[u8]) -> (r: Option<Vec<char>>)
    requires
        png_icc_ok(bytes@, 8),
    ensures
        opt_vc(r) == spec_icc_from_png(bytes@),
{
    if !is_png(bytes) {
        return None;
    }
    let n = bytes.len();
    let mut i: usize = 8;
    while n >= 12 && i <= n - 12
        invariant
            n == bytes@.len(),
            spec_is_png(bytes@),
            png_icc_ok(bytes@, i as int),
            spec_icc_from_png(bytes@) == png_icc_from(bytes@, i as int),
        decreases n - i,
    {
        let len = read_u32(bytes, i as u64, false).unwrap() as usize;
        let ctype = read_u32(bytes, (i + 4) as u64, false).unwrap();
        if ctype == 0x6943_4350 {
            let d = &bytes[i + 8..i + 8 + len];
            match find_zero(d) {
                Some(z) => return Some(iccp_chunk_name(d, z)),
                None => {},
            }
        }
        if len > n - i - 12 {
            return None;
        }
        i = i + 12 + len;
    }
    None
}

// ---- TIFF ---------------------------------------------------------------------------

/// The profile name of the first ICCProfile (34675) entry among IFD0
/// entries `k..n` (table at `pos0`) whose value lies in the file.
pub open spec fn tiff_icc_from(b: Seq<u8>, le: bool, pos0: int, k: int, n: int) -> Option<Seq<char>>
    decreases n - k,
{
    let pos = pos0 + 12 * k;
    if k < 0 || k >= n || pos + 12 > b.len() {
        None
    } else {
        let count = u32_at(b, pos + 4, le) as int;
        let vo = u32_at(b, pos + 8, le) as int;
        if u16_at(b, pos, le) == 34675 && vo + count <= b.len() {
            spec_icc_profile_name(b.subrange(vo, vo + count))
        } else {
            tiff_icc_from(b, le, pos0, k + 1, n)
        }
    }
}

pub open spec fn spec_icc_from_tiff(b: Seq<u8>) -> Option<Seq<char>> {
    if !spec_is_tiff(b) {
        None
    } else {
        let le = b[0] == 0x49;
        match crate::bytes::rd32(b, 4, le) {
            None => None,
            Some(ifd) => if ifd + 2 > b.len() {
                None
            } else {
                tiff_icc_from(b, le, ifd + 2, 0, u16_at(b, ifd as int, le) as int)
            },
        }
    }
}

fn extract_icc_from_tiff(bytes: &[u8]) -> (r: Option<Vec<char>>)
    ensures
        opt_vc(r) == spec_icc_from_tiff(bytes@),
{
    if !is_tiff(bytes) {
        return None;
    }
    let n = bytes.len();
    let le = bytes[0] == 0x49;
    let ifd = match read_u32(bytes, 4, le) {
        Some(v) => v as usize,
        None => return None,
    };
    if ifd > n || n - ifd < 2 {
        return None;
    }
    let count = read_u16(bytes, ifd as u64, le).unwrap() as u64;
    let pos0 = ifd + 2;
    let mut k: u64 = 0;
    let mut pos: usize = pos0;
    while k < count
        invariant
            n == bytes@.len(),
            spec_is_tiff(bytes@),
            le == (bytes@[0] == 0x49),
            pos0 <= n,
            pos == pos0 + 12 * k,
            k <= count,
            count <= u16::MAX,
            spec_icc_from_tiff(bytes@) == tiff_icc_from(bytes@, le, pos0 as int, k as int, count as int),
        decreases count - k,
    {
        if pos > n || n - pos < 12 {
            return None;
        }
        let tag = read_u16(bytes, pos as u64, le).unwrap();
        let cnt = read_u32(bytes, (pos + 4) as u64, le).unwrap() as usize;
        let vo = read_u32(bytes, (pos + 8) as u64, le).unwrap() as usize;
        if tag == 34675 && vo <= n && cnt <= n - vo {
            return icc_name(&bytes[vo..vo + cnt]);
        }
        k = k + 1;
        pos = pos + 12;
    }
    None
}

// ---- HEIC ---------------------------------------------------------------------------

/// The first position at or after `pos` where `colr` occurs.
pub open spec fn first_colr(b: Seq<u8>, pos: int) -> Option<int>
    decreases b.len() - pos,
{
    if pos < 0 || pos + 4 > b.len() {
        None
    } else if u32_at(b, pos, false) == 0x636F_6C72 {
        Some(pos)
    } else {
        first_colr(b, pos + 1)
    }
}

/// The profile name of a `colr` box of type `prof` or `rICC` at `i`, when
/// its size covers its header and fits in the file.
pub open spec fn colr_profile_at(b: Seq<u8>, i: int) -> Option<Seq<char>> {
    if i >= 4 && i + 8 <= b.len() && (u32_at(b, i + 4, false) == 0x7072_6F66 || u32_at(b, i + 4, false)
        == 0x7249_4343) {
        let bs = u32_at(b, i - 4, false) as int;
        if bs >= 12 && i - 4 + bs <= b.len() {
            spec_icc_profile_name(b.subrange(i + 8, i - 4 + bs))
        } else {
            None
        }
    } else {
        None
    }
}

/// The first named profile among the `colr` boxes found from `pos` on.
pub open spec fn heic_icc_from(b: Seq<u8>, pos: int) -> Option<Seq<char>>
    decreases b.len() - pos,
{
    match first_colr(b, pos) {
        None => None,
        Some(i) => if i < pos || i + 4 > b.len() {
            None
        } else {
            match colr_profile_at(b, i) {
                Some(n) => Some(n),
                None => heic_icc_from(b, i + 4),
            }
        },
    }
}

proof fn lemma_first_colr(b: Seq<u8>, pos: int)
    requires
        0 <= pos,
    ensures
        first_colr(b, pos) matches Some(i) ==> pos <= i && i + 4 <= b.len(),
    decreases b.len() - pos,
{
    if pos + 4 <= b.len() && u32_at(b, pos, false) != 0x636F_6C72 {
        lemma_first_colr(b, pos + 1);
    }
}

fn find_colr(b: &[u8], pos: usize) -> (r: Option<usize>)
    ensures
        match r {
            Some(i) => first_colr(b@, pos as int) == Some(i as int),
            None => first_colr(b@, pos as int) is None,
        },
{
    let n = b.len();
    let mut p = pos;
    while n >= 4 && p <= n - 4
        invariant
            n == b@.len(),
            p >= pos,
            first_colr(b@, pos as int) == first_colr(b@, p as int),
        decreases n - p,
    {
        if read_u32(b, p as u64, false).unwrap() == 0x636F_6C72 {
            return Some(p);
        }
        p = p + 1;
    }
    None
}

fn extract_icc_from_heic(bytes: &[u8]) -> (r: Option<Vec<char>>)
    ensures
        opt_vc(r) == heic_icc_from(bytes@, 0),
{
    let n = bytes.len();
    let mut pos: usize = 0;
    loop
        invariant
            n == bytes@.len(),
            pos <= n,
            heic_icc_from(bytes@, 0) == heic_icc_from(bytes@, pos as int),
        decreases n - pos,
    {
        let i = match find_colr(bytes, pos) {
            Some(i) => i,
            None => return None,
        };
        proof {
            lemma_first_colr(bytes@, pos as int);
        }
        if i >= 4 && n - i >= 8 {
            let ctype = read_u32(bytes, (i + 4) as u64, false).unwrap();
            if ctype == 0x7072_6F66 || ctype == 0x7249_4343 {
                let bs = read_u32(bytes, (i - 4) as u64, false).unwrap() as usize;
                if bs >= 12 && bs <= n - (i - 4) {
                    match icc_name(&bytes[i + 8..i - 4 + bs]) {
                        Some(name) => return Some(name),
                        None => {},
                    }
                }
            }
        }
        pos = i + 4;
    }
}

// ---- by format ----------------------------------------------------------------------

/// The inputs the ICC extraction slices safely.
pub open spec fn icc_input_ok(format: Seq<char>, b: Seq<u8>) -> bool {
    &&& (format == seq!['J', 'P', 'E', 'G'] || format == seq!['J', 'P', 'G']) ==> jpeg_icc_from(b, 2) is Some
    &&& format == seq!['P', 'N', 'G'] ==> png_icc_ok(b, 8)
}

fn jpeg_icc_safe(bytes: &[u8]) -> (r: bool)
    ensures
        r == (jpeg_icc_from(bytes@, 2) is Some),
{
    let ghost b = bytes@;
    let n = bytes.len();
    let sig: [u8; 12] = [0x49, 0x43, 0x43, 0x5F, 0x50, 0x52, 0x4F, 0x46, 0x49, 0x4C, 0x45, 0x00];
    assert(sig@ =~= icc_marker());
    let mut i: usize = 2;
    while n >= 4 && i <= n - 4
        invariant
            b == bytes@,
            n == b.len(),
            sig@ == icc_marker(),
            i >= 2,
            (jpeg_icc_from(b, 2) is Some) == (jpeg_icc_from(b, i as int) is Some),
        decreases n - i,
    {
        if bytes[i] != 0xFF {
            return true;
        }
        let marker = bytes[i + 1];
        if marker == 0xD8 || marker == 0xD9 || (0xD0 <= marker && marker <= 0xD7) {
            i = i + 2;
            continue;
        }
        let len = (bytes[i + 2] as usize) * 256 + (bytes[i + 3] as usize);
        assert(len == u16_at(b, i + 2, false));
        if marker == 0xE2 && len >= 14 {
            if len > n - i - 2 {
                return false;
            }
            if bytes_at(bytes, i + 4, &sig) && len < 16 {
                return false;
            }
        }
        if len > n - i - 2 {
            return true;
        }
        i = i + 2 + len;
    }
    true
}

fn png_icc_safe(bytes: &[u8]) -> (r: bool)
    ensures
        r == png_icc_ok(bytes@, 8),
{
    let n = bytes.len();
    let mut i: usize = 8;
    while n >= 12 && i <= n - 12
        invariant
            n == bytes@.len(),
            i >= 8,
            png_icc_ok(bytes@, 8) == png_icc_ok(bytes@, i as int),
        decreases n - i,
    {
        let len = read_u32(bytes, i as u64, false).unwrap() as usize;
        let ctype = read_u32(bytes, (i + 4) as u64, false).unwrap();
        if ctype == 0x6943_4350 {
            if len > n - i - 8 {
                return false;
            }
            let d = &bytes[i + 8..i + 8 + len];
            if find_zero(d).is_some() {
                return true;
            }
        }
        if len > n - i - 12 {
            return true;
        }
        i = i + 12 + len;
    }
    true
}

/// Whether `get_icc_profile_name` and `get_image_details` can handle the
/// input; on the others the read would run out of range: a truncated ICC
/// APP2 segment of a JPEG, or a PNG `iCCP` chunk running past the file.
pub fn icc_input_safe(format: &str, bytes: &[u8]) -> (r: bool)
    ensures
        r == icc_input_ok(format@, bytes@),
{
    let f = crate::text::chars_of(format);
    let jpeg: [char; 4] = ['J', 'P', 'E', 'G'];
    let jpg: [char; 3] = ['J', 'P', 'G'];
    let png: [char; 3] = ['P', 'N', 'G'];
    assert(jpeg@ =~= seq!['J', 'P', 'E', 'G'] && jpg@ =~= seq!['J', 'P', 'G'] && png@ =~= seq!['P', 'N', 'G']);
    if crate::text::chars_are(&f, &jpeg) || crate::text::chars_are(&f, &jpg) {
        jpeg_icc_safe(bytes)
    } else if crate::text::chars_are(&f, &png) {
        png_icc_safe(bytes)
    } else {
        true
    }
}

/// The ICC profile name of an image in the given format (`JPEG`/`JPG`,
/// `WEBP`, `PNG`, `TIFF`, `HEIC`/`AVIF`).
pub open spec fn spec_icc_profile_name_for(format: Seq<char>, b: Seq<u8>) -> Option<Seq<char>> {
    if format == seq!['J', 'P', 'E', 'G'] || format == seq!['J', 'P', 'G'] {
        spec_icc_from_jpeg(b)
    } else if format == seq!['W', 'E', 'B', 'P'] {
        spec_icc_from_webp(b)
    } else if format == seq!['P', 'N', 'G'] {
        spec_icc_from_png(b)
    } else if format == seq!['T', 'I', 'F', 'F'] {
        spec_icc_from_tiff(b)
    } else if format == seq!['H', 'E', 'I', 'C'] || format == seq!['A', 'V', 'I', 'F'] {
        heic_icc_from(b, 0)
    } else {
        None
    }
}

/// Extract the ICC profile name from container bytes.
pub fn get_icc_profile_name(format: &str, bytes: &[u8]) -> (r: Option<String>)
    requires
        icc_input_ok(format@, bytes@),
    ensures
        opt_string(r) == spec_icc_profile_name_for(format@, bytes@),
{
    let f = crate::text::chars_of(format);
    let jpeg: [char; 4] = ['J', 'P', 'E', 'G'];
    let jpg: [char; 3] = ['J', 'P', 'G'];
    let webp: [char; 4] = ['W', 'E', 'B', 'P'];
    let png: [char; 3] = ['P', 'N', 'G'];
    let tiff: [char; 4] = ['T', 'I', 'F', 'F'];
    let heic: [char; 4] = ['H', 'E', 'I', 'C'];
    let avif: [char; 4] = ['A', 'V', 'I', 'F'];
    assert(jpeg@ =~= seq!['J', 'P', 'E', 'G'] && jpg@ =~= seq!['J', 'P', 'G'] && webp@ =~= seq![
        'W',
        'E',
        'B',
        'P',
    ] && png@ =~= seq!['P', 'N', 'G'] && tiff@ =~= seq!['T', 'I', 'F', 'F'] && heic@ =~= seq![
        'H',
        'E',
        'I',
        'C',
    ] && avif@ =~= seq!['A', 'V', 'I', 'F']);
    let r = if crate::text::chars_are(&f, &jpeg) || crate::text::chars_are(&f, &jpg) {
        extract_icc_from_jpeg(bytes)
    } else if crate::text::chars_are(&f, &webp) {
        extract_icc_from_webp(bytes)
    } else if crate::text::chars_are(&f, &png) {
        extract_icc_from_png(bytes)
    } else if crate::text::chars_are(&f, &tiff) {
        extract_icc_from_tiff(bytes)
    } else if crate::text::chars_are(&f, &heic) || crate::text::chars_are(&f, &avif) {
        extract_icc_from_heic(bytes)
    } else {
        None
    };
    opt_to_string(r)
}

// ---- EXIF colour space -----------------------------------------------------------------

/// The EXIF ColorSpace value: kamadak-exif's first unsigned value of the
/// field when it reads the block without error and finds one, else the
/// inline SHORT 0xA001 of IFD0.
pub open spec fn spec_exif_color_space(tiff: Seq<u8>) -> Option<u16> {
    match exif_uint_field(tiff, TagContext::Exif, 0xA001) {
        Some(v) => match v {
            Some(x) => Some((x % 0x10000) as u16),
            None => None,
        },
        None => spec_read_short_tag(tiff, 0xA001),
    }
}

fn exif_color_space_tag(tiff: &[u8]) -> (r: Option<u16>)
    ensures
        r == spec_exif_color_space(tiff@),
{
    match read_exif_uint_field(tiff, TagContext::Exif, 0xA001) {
        Some(v) => match v {
            Some(x) => Some((x % 0x10000) as u16),
            None => None,
        },
        None => read_short_tag_from_tiff(tiff, 0xA001),
    }
}

/// A colour-profile name from the EXIF ColorSpace tag: 1 is sRGB, 2 is
/// Adobe RGB.
pub open spec fn spec_exif_color_profile_name(b: Seq<u8>) -> Option<Seq<char>> {
    match spec_extract_exif_tiff(b) {
        Some(t) => match spec_exif_color_space(t) {
            Some(1) => Some("sRGB IEC61966-2.1"@),
            Some(2) => Some("Adobe RGB (1998)"@),
            _ => None,
        },
        None => None,
    }
}

/// Determine a colour-profile name from the EXIF `ColorSpace` tag (0xA001).
pub fn exif_color_profile_name(_format: &str, bytes: &[u8]) -> (r: Option<String>)
    ensures
        opt_string(r) == spec_exif_color_profile_name(bytes@),
{
    let tiff = match extract_exif_tiff(bytes) {
        Some(t) => t,
        None => return None,
    };
    match exif_color_space_tag(tiff.as_slice()) {
        Some(1) => Some(String::from_str("sRGB IEC61966-2.1")),
        Some(2) => Some(String::from_str("Adobe RGB (1998)")),
        _ => None,
    }
}

} // verus!
