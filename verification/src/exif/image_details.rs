//! Image properties shown by the info view: bit depth, alpha, colour space,
//! colour profile and chroma subsampling, computed from the pixel layout and
//! the raw file bytes.
use vstd::prelude::*;
use crate::bytes::{bytes_at, read_u16, read_u32, u16_at, u32_at};
use crate::exif::container::{is_jpeg, is_tiff, is_webp, spec_is_jpeg, spec_is_tiff, spec_is_webp};
use crate::exif::icc::{
    exif_color_profile_name, get_icc_profile_name, icc_input_ok, opt_string,
    spec_exif_color_profile_name, spec_icc_profile_name_for,
};
use crate::text::{chars_are, chars_of, decimal, push_all, push_decimal, string_of};

verus! {

/// The pixel layouts a decoded image can have.
#[derive(Clone, Copy, PartialEq, Eq, Structural, Debug)]
pub enum ColorType {
    L8,
    La8,
    Rgb8,
    Rgba8,
    L16,
    La16,
    Rgb16,
    Rgba16,
    Rgb32F,
    Rgba32F,
}

/// Bits per pixel of a layout.
pub open spec fn bits_per_pixel(c: ColorType) -> nat {
    match c {
        ColorType::L8 => 8,
        ColorType::La8 => 16,
        ColorType::Rgb8 => 24,
        ColorType::Rgba8 => 32,
        ColorType::L16 => 16,
        ColorType::La16 => 32,
        ColorType::Rgb16 => 48,
        ColorType::Rgba16 => 64,
        ColorType::Rgb32F => 96,
        ColorType::Rgba32F => 128,
    }
}

/// Channels of a layout.
pub open spec fn channel_count(c: ColorType) -> nat {
    match c {
        ColorType::L8 | ColorType::L16 => 1,
        ColorType::La8 | ColorType::La16 => 2,
        ColorType::Rgb8 | ColorType::Rgb16 | ColorType::Rgb32F => 3,
        ColorType::Rgba8 | ColorType::Rgba16 | ColorType::Rgba32F => 4,
    }
}

impl ColorType {
    pub fn bits_per_pixel(&self) -> (r: u16)
        ensures
            r == bits_per_pixel(*self),
    {
        match self {
            ColorType::L8 => 8,
            ColorType::La8 => 16,
            ColorType::Rgb8 => 24,
            ColorType::Rgba8 => 32,
            ColorType::L16 => 16,
            ColorType::La16 => 32,
            ColorType::Rgb16 => 48,
            ColorType::Rgba16 => 64,
            ColorType::Rgb32F => 96,
            ColorType::Rgba32F => 128,
        }
    }

    pub fn channel_count(&self) -> (r: u8)
        ensures
            r == channel_count(*self),
    {
        match self {
            ColorType::L8 | ColorType::L16 => 1,
            ColorType::La8 | ColorType::La16 => 2,
            ColorType::Rgb8 | ColorType::Rgb16 | ColorType::Rgb32F => 3,
            ColorType::Rgba8 | ColorType::Rgba16 | ColorType::Rgba32F => 4,
        }
    }
}

/// Detailed image properties.
#[derive(Debug)]
pub struct ImageDetails {
    pub bit_depth: String,
    pub has_alpha: bool,
    pub colorspace: String,
    pub c_profile: String,
    pub chroma_format: Option<String>,
}

// ---- chroma subsampling ------------------------------------------------------------

/// A JPEG frame's subsampling, from the luma sampling factors `h`×`v`.
pub open spec fn sampling_name(h: int, v: int) -> Option<Seq<char>> {
    if h == 1 && v == 1 {
        Some("4:4:4"@)
    } else if h == 2 && v == 1 {
        Some("4:2:2"@)
    } else if h == 2 && v == 2 {
        Some("4:2:0"@)
    } else if h == 4 && v == 1 {
        Some("4:1:1"@)
    } else if h == 1 && v == 2 {
        Some("4:4:0"@)
    } else {
        None
    }
}

fn sampling(h: u8, v: u8) -> (r: Option<String>)
    ensures
        opt_string(r) == sampling_name(h as int, v as int),
{
    if h == 1 && v == 1 {
        Some(String::from_str("4:4:4"))
    } else if h == 2 && v == 1 {
        Some(String::from_str("4:2:2"))
    } else if h == 2 && v == 2 {
        Some(String::from_str("4:2:0"))
    } else if h == 4 && v == 1 {
        Some(String::from_str("4:1:1"))
    } else if h == 1 && v == 2 {
        Some(String::from_str("4:4:0"))
    } else {
        None
    }
}

/// Start-of-frame markers (0xC0..=0xCF except DHT, JPG and DAC).
pub open spec fn is_sof(m: u8) -> bool {
    0xC0 <= m && m <= 0xCF && m != 0xC4 && m != 0xC8 && m != 0xCC
}

/// The subsampling of the first start-of-frame segment (from `i` on) with
/// a payload of at least nine bytes and at least one component.  RSTn, SOI
/// and EOI are stepped over; a segment length below 2 or a non-marker ends
/// the walk.
pub open spec fn jpeg_chroma_from(b: Seq<u8>, i: int) -> Option<Seq<char>>
    decreases b.len() - i,
{
    if i < 0 || i + 4 > b.len() || b[i] != 0xFF {
        None
    } else {
        let m = b[i + 1];
        if m == 0xD8 || m == 0xD9 || (0xD0 <= m && m <= 0xD7) {
            jpeg_chroma_from(b, i + 2)
        } else {
            let len = u16_at(b, i + 2, false) as int;
            if len < 2 {
                None
            } else if is_sof(m) && i + 2 + len <= b.len() && len - 2 >= 9 && b[i + 4 + 5] > 0 {
                sampling_name((b[i + 4 + 7] / 16) as int, (b[i + 4 + 7] % 16) as int)
            } else if i + 2 + len > b.len() {
                None
            } else {
                jpeg_chroma_from(b, i + 2 + len)
            }
        }
    }
}

pub open spec fn spec_jpeg_chroma(b: Seq<u8>) -> Option<Seq<char>> {
    if spec_is_jpeg(b) {
        jpeg_chroma_from(b, 2)
    } else {
        None
    }
}

fn jpeg_chroma_walk(b: &[u8], i: usize) -> (r: Option<String>)
    ensures
        opt_string(r) == jpeg_chroma_from(b@, i as int),
    decreases b@.len() - i,
{
    let n = b.len();
    if i > n || n - i < 4 || b[i] != 0xFF {
        return None;
    }
    let m = b[i + 1];
    if m == 0xD8 || m == 0xD9 || (0xD0 <= m && m <= 0xD7) {
        return jpeg_chroma_walk(b, i + 2);
    }
    let len = (b[i + 2] as usize) * 256 + (b[i + 3] as usize);
    assert(len == u16_at(b@, i + 2, false));
    if len < 2 {
        return None;
    }
    if 0xC0 <= m && m <= 0xCF && m != 0xC4 && m != 0xC8 && m != 0xCC && len <= n - i - 2 && len - 2 >= 9
        && b[i + 4 + 5] > 0 {
        let s = b[i + 4 + 7];
        return sampling(s / 16, s % 16);
    }
    if len > n - i - 2 {
        return None;
    }
    jpeg_chroma_walk(b, i + 2 + len)
}

fn jpeg_chroma_subsampling(bytes: &[u8]) -> (r: Option<String>)
    ensures
        opt_string(r) == spec_jpeg_chroma(bytes@),
{
    if !is_jpeg(bytes) {
        return None;
    }
    jpeg_chroma_walk(bytes, 2)
}

/// The subsampling of a lossy (`VP8 `: from the first frame byte) or
/// lossless (`VP8L`: always 4:4:4) chunk, from `pos` on before `end`.
pub open spec fn webp_chroma_from(b: Seq<u8>, pos: int, end: int) -> Option<Seq<char>>
    decreases end - pos,
{
    if pos < 0 || pos + 8 > end {
        None
    } else {
        let size = u32_at(b, pos + 4, true) as int;
        let pe = pos + 8 + size;
        let fourcc = u32_at(b, pos, false);
        if pe > b.len() {
            None
        } else if fourcc == 0x5650_3820 {
            if size >= 3 {
                let bits = b[pos + 8] / 64;
                if bits == 0 {
                    Some("4:2:0"@)
                } else if bits == 1 {
                    Some("4:2:2"@)
                } else if bits == 2 {
                    Some("4:4:4"@)
                } else {
                    None
                }
            } else {
                None
            }
        } else if fourcc == 0x5650_384C {
            Some("4:4:4"@)
        } else if pe + size % 2 > end {
            None
        } else {
            webp_chroma_from(b, pe + size % 2, end)
        }
    }
}

pub open spec fn spec_webp_chroma(b: Seq<u8>) -> Option<Seq<char>> {
    if !spec_is_webp(b) {
        None
    } else {
        let declared = 8 + u32_at(b, 4, true);
        webp_chroma_from(b, 12, if declared < b.len() { declared } else { b.len() as int })
    }
}

fn webp_chroma_walk(b: &[u8], pos: usize, end: usize) -> (r: Option<String>)
    requires
        end <= b@.len(),
    ensures
        opt_string(r) == webp_chroma_from(b@, pos as int, end as int),
    decreases end - pos,
{
    if end < 8 || pos > end - 8 {
        return None;
    }
    let n = b.len();
    let size = read_u32(b, (pos + 4) as u64, true).unwrap() as u64;
    let fourcc = read_u32(b, pos as u64, false).unwrap();
    if size > (n - pos - 8) as u64 {
        return None;
    }
    let pe = pos + 8 + size as usize;
    if fourcc == 0x5650_3820 {
        if size >= 3 {
            let bits = b[pos + 8] / 64;
            return if bits == 0 {
                Some(String::from_str("4:2:0"))
            } else if bits == 1 {
                Some(String::from_str("4:2:2"))
            } else if bits == 2 {
                Some(String::from_str("4:4:4"))
            } else {
                None
            };
        }
        return None;
    }
    if fourcc == 0x5650_384C {
        return Some(String::from_str("4:4:4"));
    }
    let next = pe as u128 + (size % 2) as u128;
    if next > end as u128 {
        return None;
    }
    webp_chroma_walk(b, next as usize, end)
}

fn webp_chroma_subsampling(bytes: &[u8]) -> (r: Option<String>)
    ensures
        opt_string(r) == spec_webp_chroma(bytes@),
{
    if !is_webp(bytes) {
        return None;
    }
    let n = bytes.len();
    let declared = read_u32(bytes, 4, true).unwrap() as u64 + 8;
    let end: usize = if declared < n as u64 {
        declared as usize
    } else {
        n
    };
    webp_chroma_walk(bytes, 12, end)
}

/// `FF D8` at `i`.
pub open spec fn soi_at(b: Seq<u8>, i: int) -> bool {
    0 <= i && i + 1 < b.len() && b[i] == 0xFF && b[i + 1] == 0xD8
}

/// `FF D8` somewhere in `b`.
pub open spec fn has_soi(b: Seq<u8>) -> bool {
    exists|i: int| #[trigger] soi_at(b, i)
}

/// A TIFF's subsampling: that of an embedded JPEG stream when one parses
/// from the file's start, else 4:4:4.
pub open spec fn spec_tiff_chroma(b: Seq<u8>) -> Option<Seq<char>> {
    if !spec_is_tiff(b) {
        None
    } else if has_soi(b) && spec_jpeg_chroma(b) is Some {
        spec_jpeg_chroma(b)
    } else {
        Some("4:4:4"@)
    }
}

fn contains_soi(b: &[u8]) -> (r: bool)
    ensures
        r == has_soi(b@),
{
    let n = b.len();
    let mut i: usize = 0;
    while n >= 1 && i < n - 1
        invariant
            n == b@.len(),
            forall|k: int| 0 <= k < i ==> !#[trigger] soi_at(b@, k),
        decreases n - i,
    {
        if b[i] == 0xFF && b[i + 1] == 0xD8 {
            assert(soi_at(b@, i as int));
            return true;
        }
        i = i + 1;
    }
    assert forall|k: int| !#[trigger] soi_at(b@, k) by {
        if 0 <= k < i {
        }
    }
    false
}

fn tiff_chroma_subsampling(bytes: &[u8]) -> (r: Option<String>)
    ensures
        opt_string(r) == spec_tiff_chroma(bytes@),
{
    if !is_tiff(bytes) {
        return None;
    }
    if contains_soi(bytes) {
        match jpeg_chroma_subsampling(bytes) {
            Some(j) => return Some(j),
            None => {},
        }
    }
    Some(String::from_str("4:4:4"))
}

/// The payload of the first box of type `target` found by scanning every
/// position from `pos` on: `None` when the first match has no room for a
/// size field before it; a match whose size is below 8 or runs past the
/// end is skipped.
pub open spec fn box_payload_from(b: Seq<u8>, target: u32, pos: int) -> Option<Seq<u8>>
    decreases b.len() - pos,
{
    if pos < 0 || pos + 8 > b.len() {
        None
    } else if u32_at(b, pos, false) == target {
        if pos < 4 {
            None
        } else {
            let size = u32_at(b, pos - 4, false) as int;
            if size >= 8 && pos - 4 + size <= b.len() {
                Some(b.subrange(pos + 4, pos - 4 + size))
            } else {
                box_payload_from(b, target, pos + 1)
            }
        }
    } else {
        box_payload_from(b, target, pos + 1)
    }
}

fn find_box_payload_by_type(b: &[u8], target: u32) -> (r: Option<&[u8]>)
    ensures
        match r {
            Some(p) => box_payload_from(b@, target, 0) == Some(p@),
            None => box_payload_from(b@, target, 0) is None,
        },
{
    let n = b.len();
    let mut pos: usize = 0;
    while n >= 8 && pos <= n - 8
        invariant
            n == b@.len(),
            box_payload_from(b@, target, 0) == box_payload_from(b@, target, pos as int),
        decreases n - pos,
    {
        if read_u32(b, pos as u64, false).unwrap() == target {
            if pos < 4 {
                return None;
            }
            let size = read_u32(b, (pos - 4) as u64, false).unwrap() as usize;
            if size >= 8 && size <= n - (pos - 4) {
                return Some(&b[pos + 4..pos - 4 + size]);
            }
        }
        pos = pos + 1;
    }
    None
}

/// HEVC chroma format from the `hvcC` box (byte 16, low two bits).
pub open spec fn spec_hevc_chroma(b: Seq<u8>) -> Option<Seq<char>> {
    match box_payload_from(b, 0x6876_6343, 0) {
        Some(p) => if p.len() >= 18 {
            let cf = p[16] % 4;
            if cf == 0 {
                Some("4:0:0"@)
            } else if cf == 1 {
                Some("4:2:0"@)
            } else if cf == 2 {
                Some("4:2:2"@)
            } else {
                Some("4:4:4"@)
            }
        } else {
            None
        },
        None => None,
    }
}

/// AV1 chroma format from the `av1C` box (monochrome and subsampling bits
/// of byte 2).
pub open spec fn spec_av1_chroma(b: Seq<u8>) -> Option<Seq<char>> {
    match box_payload_from(b, 0x6176_3143, 0) {
        Some(p) => if p.len() >= 3 {
            let x = (p[2] / 8) % 2;
            let y = (p[2] / 4) % 2;
            let mono = (p[2] / 16) % 2;
            if mono == 1 {
                Some("4:0:0"@)
            } else if x == 0 && y == 0 {
                Some("4:4:4"@)
            } else if x == 1 && y == 0 {
                Some("4:2:2"@)
            } else if x == 1 && y == 1 {
                Some("4:2:0"@)
            } else {
                None
            }
        } else {
            None
        },
        None => None,
    }
}

pub open spec fn spec_heic_chroma(b: Seq<u8>) -> Option<Seq<char>> {
    if spec_hevc_chroma(b) is Some {
        spec_hevc_chroma(b)
    } else {
        spec_av1_chroma(b)
    }
}

fn hevc_chroma_format(bytes: &[u8]) -> (r: Option<String>)
    ensures
        opt_string(r) == spec_hevc_chroma(bytes@),
{
    let p = match find_box_payload_by_type(bytes, 0x6876_6343) {
        Some(p) => p,
        None => return None,
    };
    if p.len() >= 18 {
        let cf = p[16] % 4;
        if cf == 0 {
            Some(String::from_str("4:0:0"))
        } else if cf == 1 {
            Some(String::from_str("4:2:0"))
        } else if cf == 2 {
            Some(String::from_str("4:2:2"))
        } else {
            Some(String::from_str("4:4:4"))
        }
    } else {
        None
    }
}

fn av1_chroma_format(bytes: &[u8]) -> (r: Option<String>)
    ensures
        opt_string(r) == spec_av1_chroma(bytes@),
{
    let p = match find_box_payload_by_type(bytes, 0x6176_3143) {
        Some(p) => p,
        None => return None,
    };
    if p.len() >= 3 {
        let x = (p[2] / 8) % 2;
        let y = (p[2] / 4) % 2;
        let mono = (p[2] / 16) % 2;
        if mono == 1 {
            Some(String::from_str("4:0:0"))
        } else if x == 0 && y == 0 {
            Some(String::from_str("4:4:4"))
        } else if x == 1 && y == 0 {
            Some(String::from_str("4:2:2"))
        } else if x == 1 && y == 1 {
            Some(String::from_str("4:2:0"))
        } else {
            None
        }
    } else {
        None
    }
}

fn heic_chroma_format(bytes: &[u8]) -> (r: Option<String>)
    ensures
        opt_string(r) == spec_heic_chroma(bytes@),
{
    match hevc_chroma_format(bytes) {
        Some(s) => Some(s),
        None => av1_chroma_format(bytes),
    }
}

// ---- the details ----------------------------------------------------------------------

pub open spec fn spec_bit_depth(c: ColorType) -> Seq<char> {
    decimal(bits_per_pixel(c) / channel_count(c)) + " bits/channel"@
}

pub open spec fn spec_has_alpha(c: ColorType) -> bool {
    c == ColorType::Rgba8 || c == ColorType::Rgba16
}

pub open spec fn is_jpeg_name(f: Seq<char>) -> bool {
    f == seq!['J', 'P', 'E', 'G'] || f == seq!['J', 'P', 'G']
}

/// The colour space shown for a layout in a format: HEIC is always YCbCr,
/// JPEG colour layouts are YCbCr, other RGB(A) layouts RGB(A), luma layouts
/// grayscale.
pub open spec fn spec_colorspace(c: ColorType, format: Seq<char>) -> Seq<char> {
    if format == seq!['H', 'E', 'I', 'C'] {
        if spec_has_alpha(c) {
            "YCbCr + Alpha"@
        } else {
            "YCbCr"@
        }
    } else {
        match c {
            ColorType::Rgb8 | ColorType::Rgb16 => if is_jpeg_name(format) {
                "YCbCr"@
            } else {
                "RGB"@
            },
            ColorType::Rgba8 | ColorType::Rgba16 => if is_jpeg_name(format) {
                "YCbCr + Alpha"@
            } else {
                "RGBA"@
            },
            ColorType::L8 | ColorType::L16 => "Grayscale"@,
            _ => "Unknown"@,
        }
    }
}

/// The colour profile shown: the ICC profile's name, else the EXIF colour
/// space's name, else sRGB (a profile literally named "Unknown" counts as
/// none).
pub open spec fn spec_c_profile(format: Seq<char>, b: Seq<u8>) -> Seq<char> {
    let p1 = match spec_icc_profile_name_for(format, b) {
        Some(n) => n,
        None => "Unknown"@,
    };
    let p2 = if p1 == "Unknown"@ {
        match spec_exif_color_profile_name(b) {
            Some(n) => n,
            None => p1,
        }
    } else {
        p1
    };
    if p2 == "Unknown"@ {
        "sRGB"@
    } else {
        p2
    }
}

/// The chroma format shown: PNG stores full colour (4:4:4, or 4:4:4:4 with
/// alpha); JPEG, WebP, TIFF and HEIC are read from the file.
pub open spec fn spec_chroma(c: ColorType, format: Seq<char>, b: Seq<u8>) -> Option<Seq<char>> {
    if format == seq!['P', 'N', 'G'] {
        Some(
            if spec_has_alpha(c) {
                "4:4:4:4"@
            } else {
                "4:4:4"@
            },
        )
    } else if format == seq!['J', 'P', 'E', 'G'] {
        spec_jpeg_chroma(b)
    } else if format == seq!['W', 'E', 'B', 'P'] {
        spec_webp_chroma(b)
    } else if format == seq!['T', 'I', 'F', 'F'] {
        spec_tiff_chroma(b)
    } else if format == seq!['H', 'E', 'I', 'C'] {
        spec_heic_chroma(b)
    } else {
        None
    }
}

fn colorspace_name(color: ColorType, f: &Vec<char>) -> (r: String)
    ensures
        r@ == spec_colorspace(color, f@),
{
    let heic: [char; 4] = ['H', 'E', 'I', 'C'];
    let jpeg: [char; 4] = ['J', 'P', 'E', 'G'];
    let jpg: [char; 3] = ['J', 'P', 'G'];
    assert(heic@ =~= seq!['H', 'E', 'I', 'C'] && jpeg@ =~= seq!['J', 'P', 'E', 'G'] && jpg@ =~= seq!['J', 'P', 'G']);
    let has_alpha = color == ColorType::Rgba8 || color == ColorType::Rgba16;
    if chars_are(f, &heic) {
        return if has_alpha {
            String::from_str("YCbCr + Alpha")
        } else {
            String::from_str("YCbCr")
        };
    }
    let is_jpeg_fmt = chars_are(f, &jpeg) || chars_are(f, &jpg);
    match color {
        ColorType::Rgb8 | ColorType::Rgb16 => if is_jpeg_fmt {
            String::from_str("YCbCr")
        } else {
            String::from_str("RGB")
        },
        ColorType::Rgba8 | ColorType::Rgba16 => if is_jpeg_fmt {
            String::from_str("YCbCr + Alpha")
        } else {
            String::from_str("RGBA")
        },
        ColorType::L8 | ColorType::L16 => String::from_str("Grayscale"),
        _ => String::from_str("Unknown"),
    }
}

fn is_unknown(s: &String) -> (r: bool)
    ensures
        r == (s@ == "Unknown"@),
{
    let t: [char; 7] = ['U', 'n', 'k', 'n', 'o', 'w', 'n'];
    proof {
        reveal_strlit("Unknown");
    }
    assert(t@ =~= "Unknown"@);
    chars_are(&chars_of(s.as_str()), &t)
}

fn colour_profile(format: &str, bytes: &[u8]) -> (r: String)
    requires
        icc_input_ok(format@, bytes@),
    ensures
        r@ == spec_c_profile(format@, bytes@),
{
    let mut p = match get_icc_profile_name(format, bytes) {
        Some(n) => n,
        None => String::from_str("Unknown"),
    };
    if is_unknown(&p) {
        match exif_color_profile_name(format, bytes) {
            Some(n) => {
                p = n;
            },
            None => {},
        }
    }
    if is_unknown(&p) {
        p = String::from_str("sRGB");
    }
    p
}

fn chroma_format(color: ColorType, f: &Vec<char>, bytes: &[u8]) -> (r: Option<String>)
    ensures
        opt_string(r) == spec_chroma(color, f@, bytes@),
{
    let png: [char; 3] = ['P', 'N', 'G'];
    let jpeg: [char; 4] = ['J', 'P', 'E', 'G'];
    let webp: [char; 4] = ['W', 'E', 'B', 'P'];
    let tiff: [char; 4] = ['T', 'I', 'F', 'F'];
    let heic: [char; 4] = ['H', 'E', 'I', 'C'];
    assert(png@ =~= seq!['P', 'N', 'G'] && jpeg@ =~= seq!['J', 'P', 'E', 'G'] && webp@ =~= seq!['W', 'E', 'B', 'P']
        && tiff@ =~= seq!['T', 'I', 'F', 'F'] && heic@ =~= seq!['H', 'E', 'I', 'C']);
    if chars_are(f, &png) {
        let has_alpha = color == ColorType::Rgba8 || color == ColorType::Rgba16;
        Some(
            if has_alpha {
                String::from_str("4:4:4:4")
            } else {
                String::from_str("4:4:4")
            },
        )
    } else if chars_are(f, &jpeg) {
        jpeg_chroma_subsampling(bytes)
    } else if chars_are(f, &webp) {
        webp_chroma_subsampling(bytes)
    } else if chars_are(f, &tiff) {
        tiff_chroma_subsampling(bytes)
    } else if chars_are(f, &heic) {
        heic_chroma_format(bytes)
    } else {
        None
    }
}

/// Compute the image properties shown by the info view.
pub fn get_image_details(color: ColorType, format: &str, bytes: &[u8]) -> (r: ImageDetails)
    requires
        icc_input_ok(format@, bytes@),
    ensures
        r.bit_depth@ == spec_bit_depth(color),
        r.has_alpha == spec_has_alpha(color),
        r.colorspace@ == spec_colorspace(color, format@),
        r.c_profile@ == spec_c_profile(format@, bytes@),
        opt_string(r.chroma_format) == spec_chroma(color, format@, bytes@),
{
    let bpp = color.bits_per_pixel();
    let channels = color.channel_count();
    let mut digits: Vec<char> = Vec::new();
    push_decimal(&mut digits, (bpp / (channels as u16)) as u64);
    assert(digits@ =~= decimal(bits_per_pixel(color) / channel_count(color)));
    let mut bit_depth = string_of(&digits);
    bit_depth.append(" bits/channel");
    let has_alpha = color == ColorType::Rgba8 || color == ColorType::Rgba16;
    let f = chars_of(format);
    let colorspace = colorspace_name(color, &f);
    let c_profile = colour_profile(format, bytes);
    let chroma_format = chroma_format(color, &f, bytes);
    ImageDetails { bit_depth, has_alpha, colorspace, c_profile, chroma_format }
}

} // verus!
