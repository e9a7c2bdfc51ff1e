//! The decisions of processing one file: which path a job takes, the target
//! size of a resize, how EXIF orientation is undone, which metadata is
//! kept, and the output file's name and encoder.
use vstd::prelude::*;
use crate::cli::{spec_extension, OutputFormat};
use crate::error::BatImgError;
use crate::exif::metadata::rewrite::{
    gps_strip_input_ok, spec_strip_all_metadata, spec_strip_gps_metadata, strip_all_metadata,
    strip_gps_metadata,
};
use crate::exif::parser::{read_orientation, spec_read_orientation};
use crate::pipeline::{ResizeSpec, Rgba};
use crate::text::{chars_are, chars_of, push_all, string_of, to_lowercase, unicode_lowercase};

verus! {

// ---- target dimensions ----------------------------------------------------------------

/// `orig * num / den` rounded to the nearest integer (halves upwards) and
/// capped at `u32::MAX`.  With `den == 0` the ratio is unbounded: the side
/// is `u32::MAX`, or 0 when `orig` is 0.
pub open spec fn scale_side(orig: u32, num: u32, den: u32) -> u32 {
    if den == 0 {
        if orig == 0 {
            0
        } else {
            u32::MAX
        }
    } else {
        let q = (2 * orig * num + den) / (2 * den);
        if q > u32::MAX {
            u32::MAX
        } else {
            q as u32
        }
    }
}

/// Target dimensions for a resize: 0 in one dimension means "keep the
/// aspect ratio", both 0 means "keep the source size".
pub open spec fn spec_resolve_dimensions(orig_w: u32, orig_h: u32, target_w: u32, target_h: u32) -> (u32, u32) {
    if target_w == 0 && target_h == 0 {
        (orig_w, orig_h)
    } else if target_h == 0 {
        (target_w, scale_side(orig_h, target_w, orig_w))
    } else if target_w == 0 {
        (scale_side(orig_w, target_h, orig_h), target_h)
    } else {
        (target_w, target_h)
    }
}

proof fn lemma_round_half_up(p: int, d: int, q: int, r: int)
    requires
        d > 0,
        0 <= r < d,
        p == q * d + r,
    ensures
        (2 * p + d) / (2 * d) == if 2 * r >= d {
            q + 1
        } else {
            q
        },
{
    let e: int = if 2 * r >= d {
        q + 1
    } else {
        q
    };
    let m: int = if 2 * r >= d {
        2 * r - d
    } else {
        2 * r + d
    };
    assert(2 * p + d == e * (2 * d) + m) by (nonlinear_arith)
        requires
            p == q * d + r,
            e == (if 2 * r >= d { q + 1 } else { q }),
            m == (if 2 * r >= d { 2 * r - d } else { 2 * r + d }),
    ;
    assert(0 <= m < 2 * d);
    vstd::arithmetic::div_mod::lemma_fundamental_div_mod_converse_div(2 * p + d, 2 * d, e, m);
}

/// The scaled side is the nearest whole number to `orig * num / den`.
proof fn lemma_scale_side_nearest(orig: u32, num: u32, den: u32)
    requires
        den > 0,
    ensures
        scale_side(orig, num, den) < u32::MAX ==> -(den as int) < 2 * (scale_side(orig, num, den) * den - orig * num)
            <= den,
        scale_side(orig, num, den) == u32::MAX ==> 2 * orig * num + den >= 2 * den * u32::MAX,
{
    let x: int = 2 * orig * num + den;
    let d2: int = 2 * den;
    let q: int = x / d2;
    let m: int = x % d2;
    vstd::arithmetic::div_mod::lemma_fundamental_div_mod(x, d2);
    assert(0 <= m < d2);
    assert(x == d2 * q + m);
    assert(q >= 0) by (nonlinear_arith)
        requires
            x == d2 * q + m,
            x >= 0,
            m < d2,
            d2 > 0,
    ;
    if q < u32::MAX {
        assert(-(den as int) < 2 * (q * den - orig * num) <= den) by (nonlinear_arith)
            requires
                x == d2 * q + m,
                0 <= m < d2,
                d2 == 2 * den,
                x == 2 * orig * num + den,
        ;
    } else {
        assert(x >= d2 * u32::MAX) by (nonlinear_arith)
            requires
                x == d2 * q + m,
                0 <= m,
                d2 > 0,
                q >= u32::MAX,
        ;
    }
}

/// A resize given by one side keeps the aspect ratio: the other side is
/// the nearest whole number to its proportional length, unless that length
/// does not fit in 32 bits, where it is capped at `u32::MAX`.
pub proof fn lemma_resolve_keeps_aspect(orig_w: u32, orig_h: u32, target: u32)
    requires
        orig_w > 0,
        orig_h > 0,
        target > 0,
    ensures
        spec_resolve_dimensions(orig_w, orig_h, target, 0).0 == target,
        ({
            let h = spec_resolve_dimensions(orig_w, orig_h, target, 0).1;
            &&& h < u32::MAX ==> -(orig_w as int) < 2 * (h * orig_w - orig_h * target) <= orig_w
            &&& h == u32::MAX ==> 2 * orig_h * target + orig_w >= 2 * orig_w * u32::MAX
        }),
        spec_resolve_dimensions(orig_w, orig_h, 0, target).1 == target,
        ({
            let w = spec_resolve_dimensions(orig_w, orig_h, 0, target).0;
            &&& w < u32::MAX ==> -(orig_h as int) < 2 * (w * orig_h - orig_w * target) <= orig_h
            &&& w == u32::MAX ==> 2 * orig_w * target + orig_h >= 2 * orig_h * u32::MAX
        }),
{
    lemma_scale_side_nearest(orig_h, target, orig_w);
    lemma_scale_side_nearest(orig_w, target, orig_h);
}

fn scale_side_exec(orig: u32, num: u32, den: u32) -> (r: u32)
    ensures
        r == scale_side(orig, num, den),
{
    if den == 0 {
        return if orig == 0 {
            0
        } else {
            u32::MAX
        };
    }
    assert((orig as int) * (num as int) <= 0xFFFF_FFFE_0000_0001) by (nonlinear_arith)
        requires
            orig <= 0xFFFF_FFFF,
            num <= 0xFFFF_FFFF,
    ;
    let p: u64 = orig as u64 * num as u64;
    let q: u64 = p / den as u64;
    let rem: u64 = p % den as u64;
    proof {
        vstd::arithmetic::div_mod::lemma_fundamental_div_mod(p as int, den as int);
        assert(p == (q as int) * (den as int) + rem) by (nonlinear_arith)
            requires
                p == (den as int) * (p as int / den as int) + (p as int % den as int),
                q == p as int / den as int,
                rem == p as int % den as int,
        ;
        lemma_round_half_up(p as int, den as int, q as int, rem as int);
        assert(2 * orig * num == 2 * p) by (nonlinear_arith)
            requires
                p == (orig as int) * (num as int),
        ;
        assert(q <= p) by (nonlinear_arith)
            requires
                p == (q as int) * (den as int) + rem,
                den >= 1,
                rem >= 0,
                q >= 0,
        ;
    }
    let rounded: u64 = if 2 * rem >= den as u64 {
        q + 1
    } else {
        q
    };
    if rounded > 0xFFFF_FFFF {
        u32::MAX
    } else {
        rounded as u32
    }
}

/// Resolve target dimensions; 0 means "auto from aspect ratio".
pub fn resolve_dimensions(orig_w: u32, orig_h: u32, target_w: u32, target_h: u32) -> (r: (u32, u32))
    ensures
        r == spec_resolve_dimensions(orig_w, orig_h, target_w, target_h),
{
    if target_w == 0 && target_h == 0 {
        (orig_w, orig_h)
    } else if target_h == 0 {
        (target_w, scale_side_exec(orig_h, target_w, orig_w))
    } else if target_w == 0 {
        (scale_side_exec(orig_w, target_h, orig_h), target_h)
    } else {
        (target_w, target_h)
    }
}

/// How a resize is carried out: to `width` x `height`, exactly (both
/// sides were given) or fitting the box while keeping the aspect ratio.
#[derive(Debug, Clone, Copy, PartialEq, Eq)]
pub struct ResizePlan {
    pub width: u32,
    pub height: u32,
    pub exact: bool,
}

/// The resize to perform on an `orig_w` x `orig_h` image, or `None` when
/// `no_upscale` forbids it (both target sides larger than the source image).
pub open spec fn spec_resize_plan(orig_w: u32, orig_h: u32, width: u32, height: u32, no_upscale: bool) -> Option<
    ResizePlan,
> {
    let (tw, th) = spec_resolve_dimensions(orig_w, orig_h, width, height);
    if no_upscale && tw > orig_w && th > orig_h {
        None
    } else {
        Some(ResizePlan { width: tw, height: th, exact: width != 0 && height != 0 })
    }
}

pub fn resize_plan(orig_w: u32, orig_h: u32, spec: &ResizeSpec, no_upscale: bool) -> (r: Option<ResizePlan>)
    ensures
        r == spec_resize_plan(orig_w, orig_h, spec.width, spec.height, no_upscale),
{
    let (tw, th) = resolve_dimensions(orig_w, orig_h, spec.width, spec.height);
    if no_upscale && tw > orig_w && th > orig_h {
        None
    } else {
        Some(ResizePlan { width: tw, height: th, exact: spec.width != 0 && spec.height != 0 })
    }
}

// ---- which path a job takes -----------------------------------------------------------

/// The steps a job asks for (whether each option is present).
#[derive(Debug, Clone, Copy, PartialEq, Eq)]
pub struct JobSteps {
    pub strip_gps: bool,
    pub strip_all: bool,
    pub resize: bool,
    pub rotate: bool,
    pub flip_h: bool,
    pub flip_v: bool,
    pub border: bool,
    pub brightness: bool,
    pub contrast: bool,
    pub sharpen: bool,
    pub grayscale: bool,
    pub convert: bool,
}

/// A job that strips metadata and asks for nothing else.
pub open spec fn spec_is_metadata_only(s: JobSteps) -> bool {
    (s.strip_all || s.strip_gps) && !s.resize && !s.rotate && !s.flip_h && !s.flip_v && !s.border
        && !s.brightness && !s.contrast && !s.sharpen && !s.grayscale && !s.convert
}

pub fn is_metadata_only(s: &JobSteps) -> (r: bool)
    ensures
        r == spec_is_metadata_only(*s),
{
    (s.strip_all || s.strip_gps) && !s.resize && !s.rotate && !s.flip_h && !s.flip_v && !s.border
        && !s.brightness && !s.contrast && !s.sharpen && !s.grayscale && !s.convert
}

/// Whether the EXIF orientation asks for pixels to be turned.
pub open spec fn needs_reorient(raw: Seq<u8>) -> bool {
    spec_read_orientation(raw) matches Some(o) && o != 1
}

/// A metadata-only job on an upright image is done on the file's bytes,
/// without decoding its pixels.
pub fn takes_fast_path(s: &JobSteps, raw: &[u8]) -> (r: bool)
    ensures
        r == (spec_is_metadata_only(*s) && !needs_reorient(raw@)),
{
    if !is_metadata_only(s) {
        return false;
    }
    match read_orientation(raw) {
        Some(o) => o == 1,
        None => true,
    }
}

/// The bytes the fast path writes: all metadata or the GPS data stripped,
/// or the input unchanged.
pub open spec fn spec_fast_path_bytes(strip_all: bool, strip_gps: bool, raw: Seq<u8>) -> Option<Seq<u8>> {
    if strip_all {
        Some(spec_strip_all_metadata(raw))
    } else if strip_gps {
        spec_strip_gps_metadata(raw)
    } else {
        Some(raw)
    }
}

pub fn fast_path_bytes(strip_all: bool, strip_gps: bool, raw: Vec<u8>) -> (r: Result<Vec<u8>, BatImgError>)
    requires
        !strip_all && strip_gps ==> gps_strip_input_ok(raw@),
    ensures
        match r {
            Ok(v) => spec_fast_path_bytes(strip_all, strip_gps, raw@) == Some(v@),
            Err(e) => spec_fast_path_bytes(strip_all, strip_gps, raw@) is None && e is Exif,
        },
{
    if strip_all {
        strip_all_metadata(raw.as_slice())
    } else if strip_gps {
        strip_gps_metadata(raw.as_slice())
    } else {
        Ok(raw)
    }
}

/// The orientation baked into the pixels: the EXIF one (1 when absent)
/// when metadata is stripped from a file that is not HEIC, else 1.
pub open spec fn spec_exif_orientation(is_heic: bool, strips: bool, raw: Seq<u8>) -> u32 {
    if !is_heic && strips {
        match spec_read_orientation(raw) {
            Some(o) => o,
            None => 1,
        }
    } else {
        1
    }
}

pub fn exif_orientation(is_heic: bool, strips: bool, raw: &[u8]) -> (r: u32)
    ensures
        r == spec_exif_orientation(is_heic, strips, raw@),
{
    if !is_heic && strips {
        match read_orientation(raw) {
            Some(o) => o,
            None => 1,
        }
    } else {
        1
    }
}

/// The EXIF carried to the output: none when all metadata is stripped,
/// the input without GPS data when GPS is stripped, else the input itself
/// (none when empty).  The outer `None` means the GPS strip failed.
pub open spec fn spec_exif_to_keep(strip_all: bool, strip_gps: bool, raw: Seq<u8>) -> Option<Option<Seq<u8>>> {
    if strip_all {
        Some(None)
    } else if strip_gps {
        match spec_strip_gps_metadata(raw) {
            Some(v) => Some(Some(v)),
            None => None,
        }
    } else if raw.len() == 0 {
        Some(None)
    } else {
        Some(Some(raw))
    }
}

pub open spec fn opt_bytes_view(o: Option<Vec<u8>>) -> Option<Seq<u8>> {
    match o {
        Some(v) => Some(v@),
        None => None,
    }
}

pub fn exif_to_keep(strip_all: bool, strip_gps: bool, raw: &[u8]) -> (r: Result<Option<Vec<u8>>, BatImgError>)
    requires
        !strip_all && strip_gps ==> gps_strip_input_ok(raw@),
    ensures
        match r {
            Ok(o) => spec_exif_to_keep(strip_all, strip_gps, raw@) == Some(opt_bytes_view(o)),
            Err(e) => spec_exif_to_keep(strip_all, strip_gps, raw@) is None && e is Exif,
        },
{
    if strip_all {
        Ok(None)
    } else if strip_gps {
        match strip_gps_metadata(raw) {
            Ok(v) => Ok(Some(v)),
            Err(e) => Err(e),
        }
    } else if raw.len() == 0 {
        Ok(None)
    } else {
        Ok(Some(crate::bytes::to_vec(raw)))
    }
}

// ---- orientation ----------------------------------------------------------------------

/// How to turn an image upright: rotate clockwise by `rotate` degrees (0,
/// 90, 180 or 270), then mirror it.
#[derive(Debug, Clone, Copy, PartialEq, Eq)]
pub struct OrientationFix {
    pub rotate: u32,
    pub flip_h: bool,
    pub flip_v: bool,
}

/// The fix for each EXIF orientation (1 and unknown values: none).
pub open spec fn spec_orientation_fix(o: u32) -> OrientationFix {
    if o == 2 {
        OrientationFix { rotate: 0, flip_h: true, flip_v: false }
    } else if o == 3 {
        OrientationFix { rotate: 180, flip_h: false, flip_v: false }
    } else if o == 4 {
        OrientationFix { rotate: 0, flip_h: false, flip_v: true }
    } else if o == 5 {
        OrientationFix { rotate: 90, flip_h: true, flip_v: false }
    } else if o == 6 {
        OrientationFix { rotate: 90, flip_h: false, flip_v: false }
    } else if o == 7 {
        OrientationFix { rotate: 270, flip_h: true, flip_v: false }
    } else if o == 8 {
        OrientationFix { rotate: 270, flip_h: false, flip_v: false }
    } else {
        OrientationFix { rotate: 0, flip_h: false, flip_v: false }
    }
}

pub fn orientation_fix(o: u32) -> (r: OrientationFix)
    ensures
        r == spec_orientation_fix(o),
{
    match o {
        2 => OrientationFix { rotate: 0, flip_h: true, flip_v: false },
        3 => OrientationFix { rotate: 180, flip_h: false, flip_v: false },
        4 => OrientationFix { rotate: 0, flip_h: false, flip_v: true },
        5 => OrientationFix { rotate: 90, flip_h: true, flip_v: false },
        6 => OrientationFix { rotate: 90, flip_h: false, flip_v: false },
        7 => OrientationFix { rotate: 270, flip_h: true, flip_v: false },
        8 => OrientationFix { rotate: 270, flip_h: false, flip_v: false },
        _ => OrientationFix { rotate: 0, flip_h: false, flip_v: false },
    }
}

// ---- the pixel work of a job ------------------------------------------------------

/// The settings that decide the pixel work of a job.
#[derive(Debug, Clone, Copy)]
pub struct PixelSettings {
    /// Turn the image upright as its EXIF orientation asks (done when the
    /// metadata that records the orientation is being stripped).
    pub upright: bool,
    pub grayscale: bool,
    /// The requested size, `(width, height)`, 0 for "from the aspect ratio".
    pub resize: Option<(u32, u32)>,
    pub no_upscale: bool,
    pub brightness: Option<i32>,
    pub contrast: bool,
    pub sharpen: bool,
    pub rotate: Option<u32>,
    pub flip_h: bool,
    pub flip_v: bool,
    /// Border width in pixels and its colour.
    pub border: Option<(u32, Rgba)>,
}

/// One operation on the decoded pixels.  The contrast and sharpen amounts
/// are floating-point settings the caller holds.
#[derive(Debug, Clone, Copy, PartialEq, Eq)]
pub enum PixelStep {
    /// Rotate clockwise by 90, 180 or 270 degrees.
    Rotate(u32),
    FlipH,
    FlipV,
    /// Convert to 8-bit grayscale.
    Grayscale,
    Resize(ResizePlan),
    Brighten(i32),
    Contrast,
    Sharpen,
    /// Surround with a border of this width and colour.
    Border(u32, Rgba),
}

/// A quarter-turn rotation step; nothing for any other angle.
pub open spec fn rotate_steps(deg: u32) -> Seq<PixelStep> {
    if deg == 90 || deg == 180 || deg == 270 {
        seq![PixelStep::Rotate(deg)]
    } else {
        Seq::empty()
    }
}

/// `step` when `on`, else nothing.
pub open spec fn step_if(on: bool, step: PixelStep) -> Seq<PixelStep> {
    if on {
        seq![step]
    } else {
        Seq::empty()
    }
}

/// The steps that turn an image with EXIF orientation `o` upright.
pub open spec fn upright_steps(o: u32) -> Seq<PixelStep> {
    let f = spec_orientation_fix(o);
    rotate_steps(f.rotate) + step_if(f.flip_h, PixelStep::FlipH) + step_if(f.flip_v, PixelStep::FlipV)
}

/// The size of a `w` x `h` image after it is turned upright (when asked).
pub open spec fn upright_size(upright: bool, o: u32, w: u32, h: u32) -> (u32, u32) {
    let r = spec_orientation_fix(o).rotate;
    if upright && (r == 90 || r == 270) {
        (h, w)
    } else {
        (w, h)
    }
}

/// The upright steps, when asked for.
pub open spec fn upright_part(s: PixelSettings, o: u32) -> Seq<PixelStep> {
    if s.upright {
        upright_steps(o)
    } else {
        Seq::empty()
    }
}

/// The resize step planned on a `w` x `h` image, when one is asked for and
/// allowed.
pub open spec fn resize_part(s: PixelSettings, w: u32, h: u32) -> Seq<PixelStep> {
    match s.resize {
        Some((rw, rh)) => match spec_resize_plan(w, h, rw, rh, s.no_upscale) {
            Some(plan) => seq![PixelStep::Resize(plan)],
            None => Seq::empty(),
        },
        None => Seq::empty(),
    }
}

pub open spec fn brighten_part(s: PixelSettings) -> Seq<PixelStep> {
    match s.brightness {
        Some(b) => seq![PixelStep::Brighten(b)],
        None => Seq::empty(),
    }
}

pub open spec fn rotate_part(s: PixelSettings) -> Seq<PixelStep> {
    match s.rotate {
        Some(d) => rotate_steps(d),
        None => Seq::empty(),
    }
}

pub open spec fn border_part(s: PixelSettings) -> Seq<PixelStep> {
    match s.border {
        Some((px, c)) => seq![PixelStep::Border(px, c)],
        None => Seq::empty(),
    }
}

/// The pixel work, in order: turn upright, grayscale, resize (planned on
/// the upright size), brighten, contrast, sharpen, rotate, flip
/// horizontally, flip vertically, border.
pub open spec fn spec_pixel_steps(s: PixelSettings, o: u32, w: u32, h: u32) -> Seq<PixelStep> {
    let (w1, h1) = upright_size(s.upright, o, w, h);
    upright_part(s, o) + step_if(s.grayscale, PixelStep::Grayscale) + resize_part(s, w1, h1) + brighten_part(s)
        + step_if(s.contrast, PixelStep::Contrast) + step_if(s.sharpen, PixelStep::Sharpen) + rotate_part(s)
        + step_if(s.flip_h, PixelStep::FlipH) + step_if(s.flip_v, PixelStep::FlipV) + border_part(s)
}

fn push_rotation(out: &mut Vec<PixelStep>, deg: u32)
    ensures
        final(out)@ == old(out)@ + rotate_steps(deg),
{
    if deg == 90 || deg == 180 || deg == 270 {
        out.push(PixelStep::Rotate(deg));
    }
    assert(final(out)@ =~= old(out)@ + rotate_steps(deg));
}

fn push_if(out: &mut Vec<PixelStep>, on: bool, step: PixelStep)
    ensures
        final(out)@ == old(out)@ + step_if(on, step),
{
    if on {
        out.push(step);
    }
    assert(final(out)@ =~= old(out)@ + step_if(on, step));
}

fn push_upright(out: &mut Vec<PixelStep>, s: &PixelSettings, o: u32, w: u32, h: u32) -> (r: (u32, u32))
    ensures
        final(out)@ == old(out)@ + upright_part(*s, o),
        r == upright_size(s.upright, o, w, h),
{
    if s.upright {
        let f = orientation_fix(o);
        push_rotation(out, f.rotate);
        push_if(out, f.flip_h, PixelStep::FlipH);
        push_if(out, f.flip_v, PixelStep::FlipV);
        assert(final(out)@ =~= old(out)@ + upright_part(*s, o));
        if f.rotate == 90 || f.rotate == 270 {
            (h, w)
        } else {
            (w, h)
        }
    } else {
        assert(final(out)@ =~= old(out)@ + upright_part(*s, o));
        (w, h)
    }
}

fn push_resize(out: &mut Vec<PixelStep>, s: &PixelSettings, w: u32, h: u32)
    ensures
        final(out)@ == old(out)@ + resize_part(*s, w, h),
{
    match s.resize {
        Some((rw, rh)) => {
            let spec = ResizeSpec { width: rw, height: rh };
            match resize_plan(w, h, &spec, s.no_upscale) {
                Some(plan) => out.push(PixelStep::Resize(plan)),
                None => {},
            }
        },
        None => {},
    }
    assert(final(out)@ =~= old(out)@ + resize_part(*s, w, h));
}

fn push_tail(out: &mut Vec<PixelStep>, s: &PixelSettings)
    ensures
        final(out)@ == old(out)@ + brighten_part(*s) + step_if(s.contrast, PixelStep::Contrast) + step_if(
            s.sharpen,
            PixelStep::Sharpen,
        ) + rotate_part(*s) + step_if(s.flip_h, PixelStep::FlipH) + step_if(s.flip_v, PixelStep::FlipV)
            + border_part(*s),
{
    let ghost o0 = out@;
    match s.brightness {
        Some(v) => out.push(PixelStep::Brighten(v)),
        None => {},
    }
    assert(out@ =~= o0 + brighten_part(*s));
    push_if(out, s.contrast, PixelStep::Contrast);
    push_if(out, s.sharpen, PixelStep::Sharpen);
    let ghost o1 = out@;
    match s.rotate {
        Some(deg) => push_rotation(out, deg),
        None => {},
    }
    assert(out@ =~= o1 + rotate_part(*s));
    push_if(out, s.flip_h, PixelStep::FlipH);
    push_if(out, s.flip_v, PixelStep::FlipV);
    let ghost o2 = out@;
    match s.border {
        Some((px, col)) => out.push(PixelStep::Border(px, col)),
        None => {},
    }
    assert(out@ =~= o2 + border_part(*s));
    assert(out@ =~= o0 + brighten_part(*s) + step_if(s.contrast, PixelStep::Contrast) + step_if(
        s.sharpen,
        PixelStep::Sharpen,
    ) + rotate_part(*s) + step_if(s.flip_h, PixelStep::FlipH) + step_if(s.flip_v, PixelStep::FlipV)
        + border_part(*s));
}

/// The pixel steps of a job on a decoded `width` x `height` image whose EXIF
/// orientation is `orientation` (see `spec_pixel_steps`).
pub fn pixel_steps(s: &PixelSettings, orientation: u32, width: u32, height: u32) -> (r: Vec<PixelStep>)
    ensures
        r@ == spec_pixel_steps(*s, orientation, width, height),
{
    let mut out: Vec<PixelStep> = Vec::new();
    let (w, h) = push_upright(&mut out, s, orientation, width, height);
    push_if(&mut out, s.grayscale, PixelStep::Grayscale);
    push_resize(&mut out, s, w, h);
    push_tail(&mut out, s);
    assert(out@ =~= spec_pixel_steps(*s, orientation, width, height));
    out
}

/// What to do with a job once its output path is known.
#[derive(Debug, Clone, Copy, PartialEq, Eq, Structural)]
pub enum JobAction {
    /// A dry run: report the output path, touch nothing.
    DryRun,
    /// The output exists and may not be overwritten: leave it.
    SkipExisting,
    /// Do the work and write the output.
    Run,
}

/// The action for a job: a dry run does nothing; otherwise a job that
/// decodes the image leaves an existing output alone unless it works in
/// place or may overwrite (the byte-level fast path always writes).
pub open spec fn spec_plan_job(fast_path: bool, dry_run: bool, overwrite: bool, in_place: bool, output_exists: bool) -> JobAction {
    if dry_run {
        JobAction::DryRun
    } else if !fast_path && !in_place && !overwrite && output_exists {
        JobAction::SkipExisting
    } else {
        JobAction::Run
    }
}

pub fn plan_job(fast_path: bool, dry_run: bool, overwrite: bool, in_place: bool, output_exists: bool) -> (r: JobAction)
    ensures
        r == spec_plan_job(fast_path, dry_run, overwrite, in_place, output_exists),
{
    if dry_run {
        JobAction::DryRun
    } else if !fast_path && !in_place && !overwrite && output_exists {
        JobAction::SkipExisting
    } else {
        JobAction::Run
    }
}

/// Where the pixel at `(x, y)` of a `w` x `h` image lands after a clockwise
/// rotation by `deg` degrees (0, 90, 180 or 270; anything else leaves it).
pub open spec fn rotated_pos(deg: u32, w: int, h: int, x: int, y: int) -> (int, int) {
    if deg == 90 {
        (h - 1 - y, x)
    } else if deg == 180 {
        (w - 1 - x, h - 1 - y)
    } else if deg == 270 {
        (y, w - 1 - x)
    } else {
        (x, y)
    }
}

/// The size of a `w` x `h` image after a clockwise rotation by `deg`.
pub open spec fn rotated_size(deg: u32, w: int, h: int) -> (int, int) {
    if deg == 90 || deg == 270 {
        (h, w)
    } else {
        (w, h)
    }
}

/// Where the stored pixel `(x, y)` lands when a fix is carried out: rotate,
/// then mirror left-right, then mirror top-bottom (each on the size the
/// image has at that point).
pub open spec fn fixed_pos(f: OrientationFix, w: int, h: int, x: int, y: int) -> (int, int) {
    let (x1, y1) = rotated_pos(f.rotate, w, h, x, y);
    let (w1, h1) = rotated_size(f.rotate, w, h);
    let x2 = if f.flip_h {
        w1 - 1 - x1
    } else {
        x1
    };
    let y2 = if f.flip_v {
        h1 - 1 - y1
    } else {
        y1
    };
    (x2, y2)
}

/// Where the stored pixel `(x, y)` of a `w` x `h` image belongs in the
/// upright picture, for each EXIF orientation (EXIF 2.3, tag 0x0112):
/// 1 as stored, 2 mirrored left-right, 3 turned 180 degrees, 4 mirrored
/// top-bottom, 5 transposed, 6 turned 90 degrees clockwise to be upright,
/// 7 transversed, 8 turned 270 degrees clockwise to be upright.
pub open spec fn exif_upright_pos(o: u32, w: int, h: int, x: int, y: int) -> (int, int) {
    if o == 2 {
        (w - 1 - x, y)
    } else if o == 3 {
        (w - 1 - x, h - 1 - y)
    } else if o == 4 {
        (x, h - 1 - y)
    } else if o == 5 {
        (y, x)
    } else if o == 6 {
        (h - 1 - y, x)
    } else if o == 7 {
        (h - 1 - y, w - 1 - x)
    } else if o == 8 {
        (y, w - 1 - x)
    } else {
        (x, y)
    }
}

/// The upright picture's size for each EXIF orientation: 5 to 8 swap the
/// sides of the stored image.
pub open spec fn exif_upright_size(o: u32, w: int, h: int) -> (int, int) {
    if 5 <= o && o <= 8 {
        (h, w)
    } else {
        (w, h)
    }
}

/// The fix for every EXIF orientation turns the stored pixels upright:
/// carried out on any image, it puts each pixel where the orientation tag
/// says it belongs, and gives the upright picture's size.  (An unknown
/// orientation leaves the image as stored.)
pub proof fn lemma_orientation_fix_turns_upright(o: u32, w: int, h: int, x: int, y: int)
    requires
        0 <= x < w,
        0 <= y < h,
    ensures
        fixed_pos(spec_orientation_fix(o), w, h, x, y) == exif_upright_pos(o, w, h, x, y),
        rotated_size(spec_orientation_fix(o).rotate, w, h) == exif_upright_size(o, w, h),
{
}

// ---- output naming --------------------------------------------------------------------

/// Extensions that name the same format as far as writing in place goes.
pub open spec fn spec_same_format(src: Seq<char>, dst: Seq<char>) -> bool {
    src == dst || (src == "jpg"@ && dst == "jpeg"@) || (src == "jpeg"@ && dst == "jpg"@) || (src
        == "tif"@ && dst == "tiff"@) || (src == "tiff"@ && dst == "tif"@)
}

/// Whether writing `format` over a file with extension `src_ext` keeps its
/// format (the extension is compared after lower-casing).
pub fn keeps_format(src_ext: &str, format: OutputFormat) -> (r: bool)
    ensures
        r == spec_same_format(unicode_lowercase(src_ext@), spec_extension(format)),
{
    proof {
        reveal_strlit("jpg");
        reveal_strlit("jpeg");
        reveal_strlit("tif");
        reveal_strlit("tiff");
    }
    let lower = to_lowercase(src_ext);
    let src = chars_of(lower.as_str());
    let dst = chars_of(format.extension());
    let jpg = ['j', 'p', 'g'];
    let jpeg = ['j', 'p', 'e', 'g'];
    let tif = ['t', 'i', 'f'];
    let tiff = ['t', 'i', 'f', 'f'];
    assert(jpg@ =~= "jpg"@ && jpeg@ =~= "jpeg"@ && tif@ =~= "tif"@ && tiff@ =~= "tiff"@);
    chars_are(&src, dst.as_slice()) || (chars_are(&src, &jpg) && chars_are(&dst, &jpeg)) || (chars_are(
        &src,
        &jpeg,
    ) && chars_are(&dst, &jpg)) || (chars_are(&src, &tif) && chars_are(&dst, &tiff)) || (chars_are(
        &src,
        &tiff,
    ) && chars_are(&dst, &tif))
}

/// The extension written: the output format's, else the input's
/// (lower-cased), else `jpg`.
pub open spec fn spec_output_extension(format: Option<OutputFormat>, input_ext: Option<Seq<char>>) -> Seq<char> {
    match format {
        Some(f) => spec_extension(f),
        None => match input_ext {
            Some(e) => unicode_lowercase(e),
            None => "jpg"@,
        },
    }
}

pub open spec fn opt_str_view(o: Option<&str>) -> Option<Seq<char>> {
    match o {
        Some(s) => Some(s@),
        None => None,
    }
}

/// `prefix` + stem (`image` when there is none) + `suffix` + `.` + extension.
pub open spec fn spec_output_file_name(
    prefix: Seq<char>,
    stem: Option<Seq<char>>,
    suffix: Seq<char>,
    format: Option<OutputFormat>,
    input_ext: Option<Seq<char>>,
) -> Seq<char> {
    let stem = match stem {
        Some(s) => s,
        None => "image"@,
    };
    prefix + stem + suffix + seq!['.'] + spec_output_extension(format, input_ext)
}

/// The name of the output file for an input with file stem `stem` and
/// extension `input_ext`.
pub fn output_file_name(
    prefix: &str,
    stem: Option<&str>,
    suffix: &str,
    format: Option<OutputFormat>,
    input_ext: Option<&str>,
) -> (r: String)
    ensures
        r@ == spec_output_file_name(prefix@, opt_str_view(stem), suffix@, format, opt_str_view(input_ext)),
{
    proof {
        reveal_strlit("image");
        reveal_strlit("jpg");
    }
    let mut out: Vec<char> = chars_of(prefix);
    let st = match stem {
        Some(s) => chars_of(s),
        None => {
            let v = vec!['i', 'm', 'a', 'g', 'e'];
            assert(v@ =~= "image"@);
            v
        },
    };
    push_all(&mut out, st.as_slice());
    let sf = chars_of(suffix);
    push_all(&mut out, sf.as_slice());
    out.push('.');
    let ext = match format {
        Some(f) => chars_of(f.extension()),
        None => match input_ext {
            Some(e) => {
                let l = to_lowercase(e);
                chars_of(l.as_str())
            },
            None => {
                let v = vec!['j', 'p', 'g'];
                assert(v@ =~= "jpg"@);
                v
            },
        },
    };
    push_all(&mut out, ext.as_slice());
    let r = string_of(&out);
    assert(r@ =~= spec_output_file_name(prefix@, opt_str_view(stem), suffix@, format, opt_str_view(input_ext)));
    r
}

/// The name of the sibling file an in-place write goes through:
/// `stem.ext.bat_img_tmp`.
pub fn temp_file_name(stem: &str, ext: &str) -> (r: String)
    ensures
        r@ == stem@ + seq!['.'] + ext@ + ".bat_img_tmp"@,
{
    proof {
        reveal_strlit(".bat_img_tmp");
    }
    let mut out = chars_of(stem);
    out.push('.');
    let e = chars_of(ext);
    push_all(&mut out, e.as_slice());
    let tail = ['.', 'b', 'a', 't', '_', 'i', 'm', 'g', '_', 't', 'm', 'p'];
    assert(tail@ =~= ".bat_img_tmp"@);
    push_all(&mut out, &tail);
    let r = string_of(&out);
    assert(r@ =~= stem@ + seq!['.'] + ext@ + ".bat_img_tmp"@);
    r
}

// ---- encoders -------------------------------------------------------------------------

/// The encoder used for an output extension.
#[derive(Debug, Clone, Copy, PartialEq, Eq)]
pub enum Encoder {
    Heif,
    Jpeg,
    Webp,
    Png,
    Tiff,
    /// Chosen by the image library from the file name.
    ByPath,
}

pub open spec fn spec_encoder_for(ext: Seq<char>) -> Encoder {
    if ext == "heic"@ || ext == "heif"@ {
        Encoder::Heif
    } else if ext == "jpg"@ || ext == "jpeg"@ {
        Encoder::Jpeg
    } else if ext == "webp"@ {
        Encoder::Webp
    } else if ext == "png"@ {
        Encoder::Png
    } else if ext == "tif"@ || ext == "tiff"@ {
        Encoder::Tiff
    } else {
        Encoder::ByPath
    }
}

/// The encoder that writes each output format: HEIC and HEIF through the
/// HEIF encoder, BMP and GIF by the image library from the file name.
pub open spec fn format_encoder(f: OutputFormat) -> Encoder {
    match f {
        OutputFormat::Jpeg => Encoder::Jpeg,
        OutputFormat::Png => Encoder::Png,
        OutputFormat::Webp => Encoder::Webp,
        OutputFormat::Tiff => Encoder::Tiff,
        OutputFormat::Bmp => Encoder::ByPath,
        OutputFormat::Gif => Encoder::ByPath,
        OutputFormat::Heic => Encoder::Heif,
        OutputFormat::Heif => Encoder::Heif,
    }
}

/// Every output format's extension selects that format's encoder, and the
/// other spellings `jpeg` and `tif` select the JPEG and TIFF encoders.
pub proof fn lemma_each_format_gets_its_encoder(f: OutputFormat)
    ensures
        spec_encoder_for(spec_extension(f)) == format_encoder(f),
        spec_encoder_for("jpeg"@) == Encoder::Jpeg,
        spec_encoder_for("tif"@) == Encoder::Tiff,
{
    reveal_strlit("heic");
    reveal_strlit("heif");
    reveal_strlit("jpg");
    reveal_strlit("jpeg");
    reveal_strlit("webp");
    reveal_strlit("png");
    reveal_strlit("tif");
    reveal_strlit("tiff");
    reveal_strlit("bmp");
    reveal_strlit("gif");
    let (heic, heif, jpg, jpeg, webp) = ("heic"@, "heif"@, "jpg"@, "jpeg"@, "webp"@);
    let (png, tif, tiff, bmp, gif) = ("png"@, "tif"@, "tiff"@, "bmp"@, "gif"@);
    // Equal-length spellings differ in one of their first four letters.
    assert(jpeg[0] != heic[0] && jpeg[0] != heif[0]);
    assert(tif[0] != jpg[0] && tif[0] != png[0] && tif[0] != bmp[0] && tif[0] != gif[0]);
    assert(jpg[0] != png[0] && jpg[0] != bmp[0] && jpg[0] != gif[0]);
    assert(webp[0] != heic[0] && webp[0] != heif[0] && webp[0] != jpeg[0]);
    assert(png[0] != bmp[0] && png[0] != gif[0]);
    assert(tiff[0] != heic[0] && tiff[0] != heif[0] && tiff[0] != jpeg[0] && tiff[0] != webp[0]);
    assert(bmp[0] != gif[0] && heic[3] != heif[3]);
}

/// An extension that selects an encoder of its own (anything but a choice by
/// path) is an output format's extension with that format's encoder, or one
/// of the other spellings `jpeg` and `tif`.
pub proof fn lemma_only_format_extensions_get_an_encoder(ext: Seq<char>)
    requires
        spec_encoder_for(ext) != Encoder::ByPath,
    ensures
        (exists|f: OutputFormat|
            spec_extension(f) == ext && #[trigger] format_encoder(f) == spec_encoder_for(ext))
            || ext == "jpeg"@ || ext == "tif"@,
{
    if ext == "heic"@ {
        assert(format_encoder(OutputFormat::Heic) == Encoder::Heif);
    } else if ext == "heif"@ {
        assert(format_encoder(OutputFormat::Heif) == Encoder::Heif);
    } else if ext == "jpg"@ {
        assert(format_encoder(OutputFormat::Jpeg) == Encoder::Jpeg);
    } else if ext == "webp"@ {
        assert(format_encoder(OutputFormat::Webp) == Encoder::Webp);
    } else if ext == "png"@ {
        assert(format_encoder(OutputFormat::Png) == Encoder::Png);
    } else if ext == "tiff"@ {
        assert(format_encoder(OutputFormat::Tiff) == Encoder::Tiff);
    }
}

/// The encoder for a (lower-case) output extension.
pub fn encoder_for(ext: &str) -> (r: Encoder)
    ensures
        r == spec_encoder_for(ext@),
{
    proof {
        reveal_strlit("heic");
        reveal_strlit("heif");
        reveal_strlit("jpg");
        reveal_strlit("jpeg");
        reveal_strlit("webp");
        reveal_strlit("png");
        reveal_strlit("tif");
        reveal_strlit("tiff");
    }
    let e = chars_of(ext);
    let heic = ['h', 'e', 'i', 'c'];
    let heif = ['h', 'e', 'i', 'f'];
    let jpg = ['j', 'p', 'g'];
    let jpeg = ['j', 'p', 'e', 'g'];
    let webp = ['w', 'e', 'b', 'p'];
    let png = ['p', 'n', 'g'];
    let tif = ['t', 'i', 'f'];
    let tiff = ['t', 'i', 'f', 'f'];
    assert(heic@ =~= "heic"@ && heif@ =~= "heif"@ && jpg@ =~= "jpg"@ && jpeg@ =~= "jpeg"@ && webp@
        =~= "webp"@ && png@ =~= "png"@ && tif@ =~= "tif"@ && tiff@ =~= "tiff"@);
    if chars_are(&e, &heic) || chars_are(&e, &heif) {
        Encoder::Heif
    } else if chars_are(&e, &jpg) || chars_are(&e, &jpeg) {
        Encoder::Jpeg
    } else if chars_are(&e, &webp) {
        Encoder::Webp
    } else if chars_are(&e, &png) {
        Encoder::Png
    } else if chars_are(&e, &tif) || chars_are(&e, &tiff) {
        Encoder::Tiff
    } else {
        Encoder::ByPath
    }
}

} // verus!
