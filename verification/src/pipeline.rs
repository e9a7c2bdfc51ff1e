//! Validation of the processing options: resize specs, rotations, border
//! colours, and which files count as images.
use vstd::prelude::*;
use vstd::utf8::encode_utf8;
use vstd::string::StringSliceAdditionalSpecFns;
use crate::error::BatImgError;
use crate::cli::{spec_extension, OutputFormat};
use crate::heic::{dotted_suffix_in, path_extension, path_name_extension, portable_path};
use crate::text::{chars_are, chars_of, is_char, string_of, to_lowercase, trim_start_by, unicode_lowercase};

verus! {

// ---- resize ------------------------------------------------------------------------

/// A target size; 0 in one dimension means "from the aspect ratio".
#[derive(Debug, Clone)]
pub struct ResizeSpec {
    pub width: u32,
    pub height: u32,
}

/// The value of a run of decimal digits.
pub open spec fn digits_value(d: Seq<char>) -> nat
    decreases d.len(),
{
    if d.len() == 0 {
        0
    } else {
        digits_value(d.drop_last()) * 10 + ((d.last() as u32) - 48) as nat
    }
}

pub open spec fn all_digits(d: Seq<char>) -> bool {
    forall|i: int| 0 <= i < d.len() ==> '0' <= #[trigger] d[i] && d[i] <= '9'
}

/// The text after an optional leading `+`.
pub open spec fn unsigned_digits(s: Seq<char>) -> Seq<char> {
    if s.len() > 0 && s[0] == '+' {
        s.drop_first()
    } else {
        s
    }
}

/// std's `u32::from_str`: an optional `+`, then one or more decimal digits
/// whose value fits in 32 bits.
pub open spec fn parse_u32(s: Seq<char>) -> Option<u32> {
    let d = unsigned_digits(s);
    if d.len() == 0 || !all_digits(d) || digits_value(d) > u32::MAX {
        None
    } else {
        Some(digits_value(d) as u32)
    }
}

fn parse_u32_chars(s: &Vec<char>, lo: usize, hi: usize) -> (r: Option<u32>)
    requires
        lo <= hi <= s@.len(),
    ensures
        r == parse_u32(s@.subrange(lo as int, hi as int)),
{
    let ghost t = s@.subrange(lo as int, hi as int);
    let mut i = lo;
    if i < hi && s[i] == '+' {
        i = i + 1;
    }
    let ghost d = s@.subrange(i as int, hi as int);
    assert(d =~= unsigned_digits(t));
    if i == hi {
        return None;
    }
    let start = i;
    let mut j = start;
    while j < hi
        invariant
            start <= j <= hi <= s@.len(),
            d == s@.subrange(start as int, hi as int),
            t == s@.subrange(lo as int, hi as int),
            d == unsigned_digits(t),
            d.len() > 0,
            forall|k: int| start <= k < j ==> '0' <= #[trigger] s@[k] <= '9',
        decreases hi - j,
    {
        if !('0' <= s[j] && s[j] <= '9') {
            assert(d[j - start] == s@[j as int]);
            assert(!all_digits(d));
            assert(parse_u32(t) is None);
            return None;
        }
        j = j + 1;
    }
    assert(all_digits(d)) by {
        assert forall|k: int| 0 <= k < d.len() implies '0' <= #[trigger] d[k] && d[k] <= '9' by {
            assert(d[k] == s@[start + k]);
        }
    }
    let mut v: u64 = 0;
    while i < hi
        invariant
            start <= i <= hi <= s@.len(),
            d == s@.subrange(start as int, hi as int),
            t == s@.subrange(lo as int, hi as int),
            d == unsigned_digits(t),
            d.len() > 0,
            all_digits(d),
            v == digits_value(d.subrange(0, i - start)),
            v <= u32::MAX,
        decreases hi - i,
    {
        let c = s[i];
        assert(d.subrange(0, i + 1 - start).drop_last() =~= d.subrange(0, i - start));
        assert(d[i - start] == c);
        let nv = v * 10 + ((c as u32) - 48) as u64;
        if nv > 0xFFFF_FFFF {
            proof {
                lemma_digits_value_grows(d, i + 1 - start);
                let p = d.subrange(0, i + 1 - start);
                assert(p.last() == c);
                assert(digits_value(p) == nv);
                assert(digits_value(d) > u32::MAX);
                assert(parse_u32(t) is None);
            }
            return None;
        }
        v = nv;
        i = i + 1;
    }
    assert(d.subrange(0, hi - start) =~= d);
    Some(v as u32)
}

/// A prefix of a run of digits is worth no more than the whole run.
proof fn lemma_digits_value_grows(d: Seq<char>, k: int)
    requires
        0 <= k <= d.len(),
        all_digits(d),
    ensures
        digits_value(d.subrange(0, k)) <= digits_value(d),
    decreases d.len() - k,
{
    if k < d.len() {
        lemma_digits_value_grows(d, k + 1);
        let p = d.subrange(0, k + 1);
        assert(p.drop_last() =~= d.subrange(0, k));
        assert('0' <= p.last());
    } else {
        assert(d.subrange(0, k) =~= d);
    }
}

/// The index of the first `x` in `s`.
pub open spec fn first_x(s: Seq<char>, i: int) -> Option<int>
    decreases s.len() - i,
{
    if i < 0 || i >= s.len() {
        None
    } else if s[i] == 'x' {
        Some(i)
    } else {
        first_x(s, i + 1)
    }
}

/// `WxH` split at the first `x`, both sides parsed; `None` for a missing
/// `x`, an unparsable side, or `0x0`.
pub open spec fn spec_resize(s: Seq<char>) -> Option<(u32, u32)> {
    match first_x(s, 0) {
        None => None,
        Some(k) => match (parse_u32(s.subrange(0, k)), parse_u32(s.subrange(k + 1, s.len() as int))) {
            (Some(w), Some(h)) => if w == 0 && h == 0 {
                None
            } else {
                Some((w, h))
            },
            _ => None,
        },
    }
}

/// Parse a `WIDTHxHEIGHT` resize spec (0 = from the aspect ratio).
pub fn parse_resize_spec(spec: &str) -> (r: Result<ResizeSpec, BatImgError>)
    ensures
        match r {
            Ok(rs) => spec_resize(spec@) == Some((rs.width, rs.height)),
            Err(e) => spec_resize(spec@) is None && (e matches BatImgError::InvalidResize(m) && m@ == spec@),
        },
{
    let s = chars_of(spec);
    let mut k: usize = 0;
    while k < s.len() && s[k] != 'x'
        invariant
            s@ == spec@,
            k <= s@.len(),
            first_x(s@, 0) == first_x(s@, k as int),
        decreases s.len() - k,
    {
        k = k + 1;
    }
    if k == s.len() {
        return Err(BatImgError::InvalidResize(spec.to_owned()));
    }
    let w = parse_u32_chars(&s, 0, k);
    let h = parse_u32_chars(&s, k + 1, s.len());
    match (w, h) {
        (Some(w), Some(h)) => if w == 0 && h == 0 {
            Err(BatImgError::InvalidResize(spec.to_owned()))
        } else {
            Ok(ResizeSpec { width: w, height: h })
        },
        _ => Err(BatImgError::InvalidResize(spec.to_owned())),
    }
}

// ---- rotation -----------------------------------------------------------------------

/// Rotations must be 90, 180 or 270 degrees.
pub fn validate_rotation(rot: u32) -> (r: Result<(), BatImgError>)
    ensures
        r is Ok <==> (rot == 90 || rot == 180 || rot == 270),
        r matches Err(e) ==> e == BatImgError::InvalidRotation(rot),
{
    if rot == 90 || rot == 180 || rot == 270 {
        Ok(())
    } else {
        Err(BatImgError::InvalidRotation(rot))
    }
}

// ---- colours ------------------------------------------------------------------------

/// An RGBA colour.
#[derive(Debug, Clone, Copy, PartialEq, Eq)]
pub struct Rgba(pub [u8; 4]);

/// The named colours (white, black, red, green, blue, gray/grey, transparent).
pub open spec fn named_color(l: Seq<char>) -> Option<Seq<u8>> {
    if l == "white"@ {
        Some(seq![255u8, 255, 255, 255])
    } else if l == "black"@ {
        Some(seq![0u8, 0, 0, 255])
    } else if l == "red"@ {
        Some(seq![255u8, 0, 0, 255])
    } else if l == "green"@ {
        Some(seq![0u8, 128, 0, 255])
    } else if l == "blue"@ {
        Some(seq![0u8, 0, 255, 255])
    } else if l == "gray"@ || l == "grey"@ {
        Some(seq![128u8, 128, 128, 255])
    } else if l == "transparent"@ {
        Some(seq![0u8, 0, 0, 0])
    } else {
        None
    }
}

/// A hexadecimal digit's value.
pub open spec fn hex_digit(c: char) -> Option<u8> {
    if '0' <= c && c <= '9' {
        Some(((c as u32) - 48) as u8)
    } else if 'a' <= c && c <= 'f' {
        Some(((c as u32) - 87) as u8)
    } else if 'A' <= c && c <= 'F' {
        Some(((c as u32) - 55) as u8)
    } else {
        None
    }
}

/// std's `u8::from_str_radix` with radix 16 on a two-character string: an
/// optional `+` and one digit, or two digits.
pub open spec fn hex_byte(c1: char, c2: char) -> Option<u8> {
    if c1 == '+' {
        hex_digit(c2)
    } else {
        match (hex_digit(c1), hex_digit(c2)) {
            (Some(a), Some(b)) => Some((16 * a + b) as u8),
            _ => None,
        }
    }
}

/// The channels of a 6- or 8-digit ASCII hex colour (alpha 255 when absent).
pub open spec fn hex_color(h: Seq<char>) -> Option<Seq<u8>> {
    match (hex_byte(h[0], h[1]), hex_byte(h[2], h[3]), hex_byte(h[4], h[5])) {
        (Some(r), Some(g), Some(b)) => if h.len() == 6 {
            Some(seq![r, g, b, 255u8])
        } else {
            match hex_byte(h[6], h[7]) {
                Some(a) => Some(seq![r, g, b, a]),
                None => None,
            }
        },
        _ => None,
    }
}

/// Whether every character is ASCII.
pub open spec fn ascii_text(h: Seq<char>) -> bool {
    forall|i: int| 0 <= i < h.len() ==> (#[trigger] h[i] as u32) < 128
}

/// The text after the leading `#`s of a lower-cased colour.
pub open spec fn hex_part(l: Seq<char>) -> Seq<char> {
    trim_start_by(l, is_char('#'))
}

/// A `#` colour that is no name and whose text after the `#`s takes 6 or
/// 8 bytes in UTF-8: its two-digit groups are read as numbers, so a group
/// that is not one fails as a bad digit rather than as a bad colour.
pub open spec fn hex_sized(color: Seq<char>) -> bool {
    hex_sized_lower(unicode_lowercase(color))
}

/// `hex_sized` for a colour already lower-cased.
pub open spec fn hex_sized_lower(l: Seq<char>) -> bool {
    named_color(l) is None && l.len() > 0 && l[0] == '#' && (encode_utf8(hex_part(l)).len() == 6
        || encode_utf8(hex_part(l)).len() == 8)
}

/// A text of `n` characters takes between `n` and `4 * n` bytes in UTF-8.
proof fn lemma_utf8_len_bounds(s: Seq<char>)
    ensures
        s.len() <= encode_utf8(s).len() <= 4 * s.len(),
    decreases s.len(),
{
    if s.len() > 0 {
        lemma_utf8_len_bounds(s.drop_first());
    }
}

/// ASCII text takes one byte per character in UTF-8.
proof fn lemma_ascii_utf8_len(s: Seq<char>)
    requires
        ascii_text(s),
    ensures
        encode_utf8(s).len() == s.len(),
    decreases s.len(),
{
    if s.len() > 0 {
        let t = s.drop_first();
        assert forall|i: int| 0 <= i < t.len() implies (#[trigger] t[i] as u32) < 128 by {
            assert(t[i] == s[i + 1]);
        }
        lemma_ascii_utf8_len(t);
        assert((s[0] as u32) < 128);
    }
}

/// A colour: a name (after Unicode lower-casing) or `#` and 6 or 8 hex
/// digits; `None` for anything else.
pub open spec fn spec_parse_color(color: Seq<char>) -> Option<Seq<u8>> {
    spec_lower_color(unicode_lowercase(color))
}

/// `spec_parse_color` for a colour already lower-cased.
pub open spec fn spec_lower_color(l: Seq<char>) -> Option<Seq<u8>> {
    match named_color(l) {
        Some(c) => Some(c),
        None => if l.len() > 0 && l[0] == '#' && ascii_text(hex_part(l)) && (hex_part(l).len() == 6
            || hex_part(l).len() == 8) {
            hex_color(hex_part(l))
        } else {
            None
        },
    }
}

/// Why a lower-cased text is no colour.
#[derive(Clone, Copy, PartialEq, Eq, Structural, Debug)]
pub enum ColorFault {
    /// Neither a known name nor `#` followed by 6 or 8 bytes.
    NotAColor,
    /// `#` followed by 6 or 8 bytes, one of whose two-digit groups is no
    /// hexadecimal number.
    BadHexDigits,
}

fn hex_digit_exec(c: char) -> (r: Option<u8>)
    ensures
        r == hex_digit(c),
{
    if '0' <= c && c <= '9' {
        Some(((c as u32) - 48) as u8)
    } else if 'a' <= c && c <= 'f' {
        Some(((c as u32) - 87) as u8)
    } else if 'A' <= c && c <= 'F' {
        Some(((c as u32) - 55) as u8)
    } else {
        None
    }
}

fn hex_byte_exec(c1: char, c2: char) -> (r: Option<u8>)
    ensures
        r == hex_byte(c1, c2),
{
    if c1 == '+' {
        hex_digit_exec(c2)
    } else {
        match (hex_digit_exec(c1), hex_digit_exec(c2)) {
            (Some(a), Some(b)) => Some(16 * a + b),
            _ => None,
        }
    }
}

pub open spec fn rgba_view(c: Rgba) -> Seq<u8> {
    c.0@
}

fn named(l: &Vec<char>) -> (r: Option<Rgba>)
    ensures
        match r {
            Some(c) => named_color(l@) == Some(rgba_view(c)),
            None => named_color(l@) is None,
        },
{
    proof {
        reveal_strlit("white");
        reveal_strlit("black");
        reveal_strlit("red");
        reveal_strlit("green");
        reveal_strlit("blue");
        reveal_strlit("gray");
        reveal_strlit("grey");
        reveal_strlit("transparent");
    }
    let white = ['w', 'h', 'i', 't', 'e'];
    let black = ['b', 'l', 'a', 'c', 'k'];
    let red = ['r', 'e', 'd'];
    let green = ['g', 'r', 'e', 'e', 'n'];
    let blue = ['b', 'l', 'u', 'e'];
    let gray = ['g', 'r', 'a', 'y'];
    let grey = ['g', 'r', 'e', 'y'];
    let transparent = ['t', 'r', 'a', 'n', 's', 'p', 'a', 'r', 'e', 'n', 't'];
    assert(white@ =~= "white"@ && black@ =~= "black"@ && red@ =~= "red"@ && green@ =~= "green"@
        && blue@ =~= "blue"@ && gray@ =~= "gray"@ && grey@ =~= "grey"@ && transparent@ =~= "transparent"@);
    let c = if chars_are(l, &white) {
        [255u8, 255, 255, 255]
    } else if chars_are(l, &black) {
        [0u8, 0, 0, 255]
    } else if chars_are(l, &red) {
        [255u8, 0, 0, 255]
    } else if chars_are(l, &green) {
        [0u8, 128, 0, 255]
    } else if chars_are(l, &blue) {
        [0u8, 0, 255, 255]
    } else if chars_are(l, &gray) || chars_are(l, &grey) {
        [128u8, 128, 128, 255]
    } else if chars_are(l, &transparent) {
        [0u8, 0, 0, 0]
    } else {
        return None;
    };
    let r = Rgba(c);
    assert(rgba_view(r) =~= named_color(l@)->0);
    Some(r)
}

/// Whether the characters of `v` from `from` on are all ASCII.
fn ascii_from(v: &Vec<char>, from: usize) -> (r: bool)
    requires
        from <= v@.len(),
    ensures
        r == ascii_text(v@.subrange(from as int, v@.len() as int)),
{
    let ghost t = v@.subrange(from as int, v@.len() as int);
    let mut k = from;
    while k < v.len()
        invariant
            from <= k <= v@.len(),
            t == v@.subrange(from as int, v@.len() as int),
            forall|j: int| from <= j < k ==> (#[trigger] v@[j] as u32) < 128,
        decreases v.len() - k,
    {
        if v[k] as u32 >= 128 {
            assert(t[k - from] == v@[k as int]);
            return false;
        }
        k = k + 1;
    }
    assert forall|j: int| 0 <= j < t.len() implies (#[trigger] t[j] as u32) < 128 by {
        assert(t[j] == v@[from + j]);
    }
    true
}

/// Parse a CSS-style colour: a name or `#rrggbb[aa]`.
pub fn parse_color(color: &str) -> (r: Result<Rgba, BatImgError>)
    ensures
        match r {
            Ok(c) => spec_parse_color(color@) == Some(rgba_view(c)),
            Err(e) => spec_parse_color(color@) is None && if hex_sized(color@) {
                e matches BatImgError::InvalidHexDigits(m) && m@ == color@
            } else {
                e matches BatImgError::InvalidColor(m) && m@ == color@
            },
        },
{
    let lower = to_lowercase(color);
    let l = chars_of(lower.as_str());
    match parse_lowercase_color(&l) {
        Ok(c) => Ok(c),
        Err(ColorFault::NotAColor) => Err(BatImgError::InvalidColor(color.to_owned())),
        Err(ColorFault::BadHexDigits) => Err(BatImgError::InvalidHexDigits(color.to_owned())),
    }
}

/// A lower-cased colour: a name or `#rrggbb[aa]` (see `spec_lower_color`),
/// else why it is none.
pub fn parse_lowercase_color(l: &Vec<char>) -> (r: Result<Rgba, ColorFault>)
    ensures
        match r {
            Ok(c) => spec_lower_color(l@) == Some(rgba_view(c)),
            Err(f) => spec_lower_color(l@) is None && (f == ColorFault::BadHexDigits) == hex_sized_lower(l@),
        },
{
    match named(l) {
        Some(c) => return Ok(c),
        None => {},
    }
    if l.len() == 0 || l[0] != '#' {
        return Err(ColorFault::NotAColor);
    }
    let mut i: usize = 0;
    while i < l.len() && l[i] == '#'
        invariant
            i <= l@.len(),
            forall|k: int| 0 <= k < i ==> l@[k] == '#',
        decreases l.len() - i,
    {
        i = i + 1;
    }
    proof {
        crate::text::lemma_trim_start_index(l@, is_char('#'), i as int);
        if i < l@.len() {
            assert(l@.subrange(i as int, l@.len() as int)[0] == l@[i as int]);
        }
    }
    let ghost h = hex_part(l@);
    assert(h == l@.subrange(i as int, l@.len() as int));
    let n = l.len() - i;
    let mut hv: Vec<char> = Vec::new();
    let mut k: usize = i;
    while k < l.len()
        invariant
            i <= k <= l@.len(),
            hv@ == l@.subrange(i as int, k as int),
        decreases l.len() - k,
    {
        hv.push(l[k]);
        k = k + 1;
        assert(hv@ =~= l@.subrange(i as int, k as int));
    }
    proof {
        lemma_utf8_len_bounds(h);
    }
    if hv.len() > 8 {
        return Err(ColorFault::NotAColor);
    }
    let hex = string_of(&hv);
    let t = hex.as_str();
    assert(t.spec_bytes() == encode_utf8(t@));
    let nb = t.len();
    proof {
        assert(t@ == h);
        if ascii_text(h) {
            lemma_ascii_utf8_len(h);
        }
    }
    if nb != 6 && nb != 8 {
        return Err(ColorFault::NotAColor);
    }
    if !ascii_from(&l, i) || (n != 6 && n != 8) {
        return Err(ColorFault::BadHexDigits);
    }
    let r = hex_byte_exec(l[i], l[i + 1]);
    let g = hex_byte_exec(l[i + 2], l[i + 3]);
    let b = hex_byte_exec(l[i + 4], l[i + 5]);
    let a = if n == 8 {
        hex_byte_exec(l[i + 6], l[i + 7])
    } else {
        Some(255u8)
    };
    match (r, g, b, a) {
        (Some(r), Some(g), Some(b), Some(a)) => {
            let c = Rgba([r, g, b, a]);
            assert(rgba_view(c) =~= hex_color(h)->0);
            Ok(c)
        },
        _ => Err(ColorFault::BadHexDigits),
    }
}

/// Whether GPS data is removed: when asked for, and whenever all metadata
/// is removed.
pub fn strips_gps(strip_gps: bool, strip_all: bool) -> (r: bool)
    ensures
        r == (strip_gps || strip_all),
{
    strip_gps || strip_all
}

// ---- image files --------------------------------------------------------------------

/// The extensions of image files (after lower-casing).
pub open spec fn spec_is_image_extension(l: Seq<char>) -> bool {
    l == "jpg"@ || l == "jpeg"@ || l == "png"@ || l == "webp"@ || l == "tiff"@ || l == "tif"@ || l
        == "bmp"@ || l == "gif"@ || l == "heic"@ || l == "heif"@
}

/// Every extension the tool writes (that of each output format), and the
/// other spellings `jpeg` and `tif`, name an image file.
pub proof fn lemma_format_extensions_are_images(f: OutputFormat)
    ensures
        spec_is_image_extension(spec_extension(f)),
        spec_is_image_extension("jpeg"@),
        spec_is_image_extension("tif"@),
{
}

/// Every extension accepted as an image is an output format's extension or
/// one of the other spellings `jpeg` and `tif`.
pub proof fn lemma_image_extensions_are_formats(l: Seq<char>)
    requires
        spec_is_image_extension(l),
    ensures
        (exists|f: OutputFormat| #[trigger] spec_extension(f) == l) || l == "jpeg"@ || l == "tif"@,
{
    if l == "jpg"@ {
        assert(spec_extension(OutputFormat::Jpeg) == l);
    } else if l == "png"@ {
        assert(spec_extension(OutputFormat::Png) == l);
    } else if l == "webp"@ {
        assert(spec_extension(OutputFormat::Webp) == l);
    } else if l == "tiff"@ {
        assert(spec_extension(OutputFormat::Tiff) == l);
    } else if l == "bmp"@ {
        assert(spec_extension(OutputFormat::Bmp) == l);
    } else if l == "gif"@ {
        assert(spec_extension(OutputFormat::Gif) == l);
    } else if l == "heic"@ {
        assert(spec_extension(OutputFormat::Heic) == l);
    } else if l == "heif"@ {
        assert(spec_extension(OutputFormat::Heif) == l);
    }
}

/// Whether a file extension (without the dot) names a supported image.
pub fn is_image_extension(ext: &str) -> (r: bool)
    ensures
        r == spec_is_image_extension(unicode_lowercase(ext@)),
{
    proof {
        reveal_strlit("jpg");
        reveal_strlit("jpeg");
        reveal_strlit("png");
        reveal_strlit("webp");
        reveal_strlit("tiff");
        reveal_strlit("tif");
        reveal_strlit("bmp");
        reveal_strlit("gif");
        reveal_strlit("heic");
        reveal_strlit("heif");
    }
    let lower = to_lowercase(ext);
    let l = chars_of(lower.as_str());
    let names: [&[char]; 10] = [
        &['j', 'p', 'g'],
        &['j', 'p', 'e', 'g'],
        &['p', 'n', 'g'],
        &['w', 'e', 'b', 'p'],
        &['t', 'i', 'f', 'f'],
        &['t', 'i', 'f'],
        &['b', 'm', 'p'],
        &['g', 'i', 'f'],
        &['h', 'e', 'i', 'c'],
        &['h', 'e', 'i', 'f'],
    ];
    assert(names[0]@ =~= "jpg"@ && names[1]@ =~= "jpeg"@ && names[2]@ =~= "png"@ && names[3]@ =~= "webp"@
        && names[4]@ =~= "tiff"@ && names[5]@ =~= "tif"@ && names[6]@ =~= "bmp"@ && names[7]@ =~= "gif"@
        && names[8]@ =~= "heic"@ && names[9]@ =~= "heif"@);
    chars_are(&l, names[0]) || chars_are(&l, names[1]) || chars_are(&l, names[2]) || chars_are(&l, names[3])
        || chars_are(&l, names[4]) || chars_are(&l, names[5]) || chars_are(&l, names[6]) || chars_are(
        &l,
        names[7],
    ) || chars_are(&l, names[8]) || chars_are(&l, names[9])
}

/// Whether `path` has an image file extension.
pub fn is_image(path: &str) -> (r: bool)
    ensures
        r ==> exists|e: Seq<char>|
            dotted_suffix_in(path@, e) && !e.contains('.') && spec_is_image_extension(unicode_lowercase(e)),
        !path@.contains('.') ==> !r,
        portable_path(path@) ==> r == (path_name_extension(path@) matches Some(e) && spec_is_image_extension(
            unicode_lowercase(e),
        )),
{
    match path_extension(path) {
        Some(e) => is_image_extension(e.as_str()),
        None => false,
    }
}

} // verus!
