//! The per-file report of `--info`: which lines appear, in which order,
//! with which labels and values.  The report is a sequence of pieces of
//! text, each with the tone a terminal shows it in.
use vstd::prelude::*;
use crate::exif::image_details::ImageDetails;
use crate::heic::{is_heic, opt_chars, path_name_extension, portable_path, spec_is_heic_extension};
use crate::info::{easy_file_sz, exposure_text, spec_easy_file_sz, spec_exposure_text};
use crate::text::{chars_of, decimal, push_all, push_decimal, string_of, to_uppercase, unicode_uppercase};

verus! {

/// How a terminal shows a piece of the report.
#[derive(Debug, Clone, Copy, PartialEq, Eq, Structural)]
pub enum Tone {
    Plain,
    Bold,
    Dimmed,
    Blue,
    Red,
    /// Bold, underlined and dimmed.
    Heading,
}

/// A piece of the report.
#[derive(Debug)]
pub struct Piece {
    pub text: String,
    pub tone: Tone,
}

/// The camera tags of the report, as read from the file's EXIF block.
#[derive(Debug)]
pub struct ExifFacts {
    pub make: Option<String>,
    pub model: Option<String>,
    /// The first 16 bytes of the date and time (to the minute).
    pub date_time: Option<String>,
    pub iso: Option<String>,
    /// The exposure value as read (cleaned here).
    pub exposure: Option<String>,
    /// The aperture number as the caller formats it (a floating-point value).
    pub aperture: Option<String>,
    /// The focal length with its unit, as the caller formats it.
    pub focal_length: Option<String>,
    pub gps_present: bool,
}

/// What the report tells about one file.
#[derive(Debug)]
pub struct InfoFacts {
    /// The file's size in bytes, when its metadata could be read.
    pub file_size: Option<u64>,
    /// Its modification time, as the caller formats it (local time).
    pub modified: Option<String>,
    /// The format name, upper-cased (see `format_label`).
    pub format: String,
    /// The decoded size, when the image could be decoded.
    pub dimensions: Option<(u32, u32)>,
    /// The size in megapixels, to one decimal, as the caller formats it.
    pub megapixels: String,
    pub details: ImageDetails,
    /// The camera tags; `None` when no EXIF block could be read.
    pub exif: Option<ExifFacts>,
}

pub open spec fn piece_seq(v: Seq<Piece>) -> Seq<(Seq<char>, Tone)> {
    v.map_values(|p: Piece| (p.text@, p.tone))
}

/// A line of the file section: the label (padded to 15 columns) in bold,
/// then its value.
pub open spec fn line_pieces(label: Seq<char>, value: Seq<char>) -> Seq<(Seq<char>, Tone)> {
    seq![("  "@, Tone::Plain), (label, Tone::Bold), (" : "@, Tone::Plain), (value + "\n"@, Tone::Plain)]
}

/// A line of the EXIF section (label padded to 14 columns), when the tag is
/// present.
pub open spec fn exif_line(label: Seq<char>, value: Option<Seq<char>>) -> Seq<(Seq<char>, Tone)> {
    match value {
        Some(v) => seq![("    "@ + label + " : "@ + v + "\n"@, Tone::Plain)],
        None => Seq::empty(),
    }
}

pub open spec fn opt_map_prefix(p: Seq<char>, v: Option<Seq<char>>) -> Option<Seq<char>> {
    match v {
        Some(t) => Some(p + t),
        None => None,
    }
}

pub open spec fn file_pieces(f: InfoFacts) -> Seq<(Seq<char>, Tone)> {
    (match f.file_size {
        Some(b) => seq![
            ("  "@, Tone::Plain),
            ("File Size      "@, Tone::Bold),
            (" : "@, Tone::Plain),
            (spec_easy_file_sz(b), Tone::Plain),
            (" ("@, Tone::Plain),
            (decimal(b as nat) + " bytes"@, Tone::Dimmed),
            (")\n"@, Tone::Plain),
        ],
        None => Seq::empty(),
    }) + (match f.modified {
        Some(m) => line_pieces("Last Modified  "@, m@),
        None => Seq::empty(),
    }) + seq![
        ("  "@, Tone::Plain),
        ("Format         "@, Tone::Bold),
        (" : "@, Tone::Plain),
        (f.format@, Tone::Blue),
        ("\n"@, Tone::Plain),
    ] + (match f.dimensions {
        Some((w, h)) => line_pieces(
            "Dimensions     "@,
            decimal(w as nat) + " x "@ + decimal(h as nat) + " ("@ + f.megapixels@ + " MP)"@,
        ),
        None => Seq::empty(),
    })
}

pub open spec fn detail_pieces(d: ImageDetails) -> Seq<(Seq<char>, Tone)> {
    line_pieces("Bit Depth      "@, d.bit_depth@) + line_pieces(
        "Alpha Channel  "@,
        if d.has_alpha {
            "Yes"@
        } else {
            "No"@
        },
    ) + line_pieces("Color Space    "@, d.colorspace@) + line_pieces("Color Profile  "@, d.c_profile@) + (
    match d.chroma_format {
        Some(c) => line_pieces("Chroma Format  "@, c@),
        None => Seq::empty(),
    })
}

/// Whether any camera tag other than GPS is present.
pub open spec fn any_camera_tag(x: ExifFacts) -> bool {
    x.make is Some || x.model is Some || x.date_time is Some || x.iso is Some || x.exposure is Some
        || x.aperture is Some || x.focal_length is Some
}

/// The lines of the camera tags that are present.
pub open spec fn camera_pieces(x: ExifFacts) -> Seq<(Seq<char>, Tone)> {
    exif_line("Make          "@, opt_chars(x.make)) + exif_line("Model         "@, opt_chars(x.model)) + exif_line(
        "Date/Time     "@,
        opt_chars(x.date_time),
    ) + exif_line("ISO Speed     "@, opt_map_prefix("ISO "@, opt_chars(x.iso))) + exif_line(
        "Exposure      "@,
        match x.exposure {
            Some(v) => Some(spec_exposure_text(v@) + " s"@),
            None => None,
        },
    ) + exif_line("Aperture      "@, opt_map_prefix("f/"@, opt_chars(x.aperture))) + exif_line(
        "Focal Length  "@,
        opt_chars(x.focal_length),
    )
}

/// The GPS line, and the note shown when no camera tag is present.
pub open spec fn gps_pieces(x: ExifFacts) -> Seq<(Seq<char>, Tone)> {
    seq![
        ("    "@, Tone::Plain),
        ("GPS Data      "@, Tone::Red),
        (" : "@ + (if x.gps_present {
            "Present"@
        } else {
            "None"@
        }) + "\n"@, Tone::Plain),
    ] + (if any_camera_tag(x) {
        Seq::empty()
    } else {
        seq![("    No standard camera tags found in EXIF.\n"@, Tone::Plain)]
    })
}

pub open spec fn exif_pieces(e: Option<ExifFacts>) -> Seq<(Seq<char>, Tone)> {
    match e {
        None => seq![("    None (or unreadable EXIF header)\n"@, Tone::Plain)],
        Some(x) => camera_pieces(x) + gps_pieces(x),
    }
}

/// Name for what the image crate's `ImageFormat::from_path` finds for
/// `path` (it goes by the path's extension alone), written as the format's
/// `Debug` name; `None` when no format goes with that extension.
pub uninterp spec fn image_format_name(path: Seq<char>) -> Option<Seq<char>>;

/// The image crate's `ImageFormat::from_path`, its format written with
/// `Debug` (see `image_format_name`).
#[verifier::external_body]
fn format_name_from_path(path: &str) -> (r: Option<String>)
    ensures
        opt_chars(r) == image_format_name(path@),
{
    image::ImageFormat::from_path(path).ok().map(|f| format!("{:?}", f))
}

/// The format shown for a file: `HEIF` for a HEIC/HEIF extension, else the
/// format the image crate finds for the path, else `Unknown`.
pub open spec fn spec_format_text(heic: bool, name: Option<Seq<char>>) -> Seq<char> {
    if heic {
        "HEIF"@
    } else {
        match name {
            Some(n) => n,
            None => "Unknown"@,
        }
    }
}

/// The format line's text for `path`, upper-cased (see `spec_format_text`;
/// for a portable path, whether it is HEIC is decided by its extension).
pub fn format_label(path: &str) -> (r: String)
    ensures
        exists|h: bool| r@ == #[trigger] unicode_uppercase(spec_format_text(h, image_format_name(path@))),
        portable_path(path@) ==> r@ == unicode_uppercase(
            spec_format_text(
                path_name_extension(path@) matches Some(e) && spec_is_heic_extension(e),
                image_format_name(path@),
            ),
        ),
{
    let heic = is_heic(path);
    let text = if heic {
        "HEIF".to_owned()
    } else {
        match format_name_from_path(path) {
            Some(n) => n,
            None => "Unknown".to_owned(),
        }
    };
    assert(text@ == spec_format_text(heic, image_format_name(path@)));
    to_uppercase(text.as_str())
}

/// The whole report: the file and image lines, the colour details, then
/// the EXIF section under its heading, and a blank line.
pub open spec fn spec_info_report(f: InfoFacts) -> Seq<(Seq<char>, Tone)> {
    file_pieces(f) + detail_pieces(f.details) + seq![
        ("\n  "@, Tone::Plain),
        ("[ EXIF Metadata ]"@, Tone::Heading),
        ("\n"@, Tone::Plain),
    ] + exif_pieces(f.exif) + seq![("\n"@, Tone::Plain)]
}

fn add_piece(out: &mut Vec<Piece>, text: &Vec<char>, tone: Tone)
    ensures
        piece_seq(final(out)@) == piece_seq(old(out)@).push((text@, tone)),
{
    out.push(Piece { text: string_of(text), tone });
    assert(piece_seq(out@) =~= piece_seq(old(out)@).push((text@, tone)));
}

fn add_str(out: &mut Vec<Piece>, text: &str, tone: Tone)
    ensures
        piece_seq(final(out)@) == piece_seq(old(out)@).push((text@, tone)),
{
    add_piece(out, &chars_of(text), tone);
}

/// `a` followed by the characters of `s`.
fn cat(a: &mut Vec<char>, s: &str)
    ensures
        final(a)@ == old(a)@ + s@,
{
    let cs = chars_of(s);
    push_all(a, cs.as_slice());
}

fn add_line(out: &mut Vec<Piece>, label: &str, value: &Vec<char>)
    ensures
        piece_seq(final(out)@) == piece_seq(old(out)@) + line_pieces(label@, value@),
{
    let ghost o = piece_seq(out@);
    add_str(out, "  ", Tone::Plain);
    add_str(out, label, Tone::Bold);
    add_str(out, " : ", Tone::Plain);
    let mut v: Vec<char> = Vec::new();
    push_all(&mut v, value.as_slice());
    cat(&mut v, "\n");
    add_piece(out, &v, Tone::Plain);
    assert(piece_seq(out@) =~= o + line_pieces(label@, value@));
}

fn add_exif_line(out: &mut Vec<Piece>, label: &str, prefix: &str, value: &Option<String>)
    ensures
        piece_seq(final(out)@) == piece_seq(old(out)@) + exif_line(
            label@,
            opt_map_prefix(prefix@, opt_chars(*value)),
        ),
{
    match value {
        Some(t) => {
            let mut v = chars_of("    ");
            cat(&mut v, label);
            cat(&mut v, " : ");
            cat(&mut v, prefix);
            cat(&mut v, t.as_str());
            cat(&mut v, "\n");
            add_piece(out, &v, Tone::Plain);
            assert(v@ =~= "    "@ + label@ + " : "@ + (prefix@ + t@) + "\n"@);
            assert(piece_seq(final(out)@) =~= piece_seq(old(out)@) + exif_line(
                label@,
                opt_map_prefix(prefix@, opt_chars(*value)),
            ));
        },
        None => {
            assert(piece_seq(final(out)@) =~= piece_seq(old(out)@) + exif_line(
                label@,
                opt_map_prefix(prefix@, opt_chars(*value)),
            ));
        },
    }
}

fn add_file_pieces(out: &mut Vec<Piece>, f: &InfoFacts)
    ensures
        piece_seq(final(out)@) == piece_seq(old(out)@) + file_pieces(*f),
{
    let ghost o = piece_seq(out@);
    match f.file_size {
        Some(b) => {
            add_str(out, "  ", Tone::Plain);
            add_str(out, "File Size      ", Tone::Bold);
            add_str(out, " : ", Tone::Plain);
            let s = easy_file_sz(b);
            add_str(out, s.as_str(), Tone::Plain);
            add_str(out, " (", Tone::Plain);
            let mut v: Vec<char> = Vec::new();
            push_decimal(&mut v, b);
            cat(&mut v, " bytes");
            add_piece(out, &v, Tone::Dimmed);
            add_str(out, ")\n", Tone::Plain);
        },
        None => {},
    }
    let ghost o1 = piece_seq(out@);
    assert(o1 =~= o + (match f.file_size {
        Some(b) => seq![
            ("  "@, Tone::Plain),
            ("File Size      "@, Tone::Bold),
            (" : "@, Tone::Plain),
            (spec_easy_file_sz(b), Tone::Plain),
            (" ("@, Tone::Plain),
            (decimal(b as nat) + " bytes"@, Tone::Dimmed),
            (")\n"@, Tone::Plain),
        ],
        None => Seq::empty(),
    }));
    match &f.modified {
        Some(m) => add_line(out, "Last Modified  ", &chars_of(m.as_str())),
        None => {},
    }
    let ghost o2 = piece_seq(out@);
    assert(o2 =~= o1 + (match f.modified {
        Some(m) => line_pieces("Last Modified  "@, m@),
        None => Seq::empty(),
    }));
    add_str(out, "  ", Tone::Plain);
    add_str(out, "Format         ", Tone::Bold);
    add_str(out, " : ", Tone::Plain);
    add_str(out, f.format.as_str(), Tone::Blue);
    add_str(out, "\n", Tone::Plain);
    let ghost o3 = piece_seq(out@);
    match f.dimensions {
        Some((w, h)) => {
            let mut v: Vec<char> = Vec::new();
            push_decimal(&mut v, w as u64);
            cat(&mut v, " x ");
            push_decimal(&mut v, h as u64);
            cat(&mut v, " (");
            cat(&mut v, f.megapixels.as_str());
            cat(&mut v, " MP)");
            add_line(out, "Dimensions     ", &v);
        },
        None => {},
    }
    assert(piece_seq(out@) =~= o3 + (match f.dimensions {
        Some((w, h)) => line_pieces(
            "Dimensions     "@,
            decimal(w as nat) + " x "@ + decimal(h as nat) + " ("@ + f.megapixels@ + " MP)"@,
        ),
        None => Seq::empty(),
    }));
    assert(piece_seq(out@) =~= o + file_pieces(*f));
}

fn add_detail_pieces(out: &mut Vec<Piece>, d: &ImageDetails)
    ensures
        piece_seq(final(out)@) == piece_seq(old(out)@) + detail_pieces(*d),
{
    let ghost o = piece_seq(out@);
    add_line(out, "Bit Depth      ", &chars_of(d.bit_depth.as_str()));
    let alpha = if d.has_alpha {
        chars_of("Yes")
    } else {
        chars_of("No")
    };
    add_line(out, "Alpha Channel  ", &alpha);
    add_line(out, "Color Space    ", &chars_of(d.colorspace.as_str()));
    add_line(out, "Color Profile  ", &chars_of(d.c_profile.as_str()));
    let ghost o4 = piece_seq(out@);
    match &d.chroma_format {
        Some(c) => add_line(out, "Chroma Format  ", &chars_of(c.as_str())),
        None => {},
    }
    assert(piece_seq(out@) =~= o4 + (match d.chroma_format {
        Some(c) => line_pieces("Chroma Format  "@, c@),
        None => Seq::empty(),
    }));
    assert(piece_seq(out@) =~= o + detail_pieces(*d));
}

proof fn lemma_empty_prefix(v: Option<Seq<char>>)
    ensures
        opt_map_prefix(""@, v) == v,
{
    reveal_strlit("");
    if let Some(t) = v {
        assert(""@ + t =~= t);
    }
}

#[verifier::rlimit(40)]
fn add_camera_pieces(out: &mut Vec<Piece>, x: &ExifFacts)
    ensures
        piece_seq(final(out)@) == piece_seq(old(out)@) + camera_pieces(*x),
{
    let ghost o = piece_seq(out@);
    proof {
        lemma_empty_prefix(opt_chars(x.make));
        lemma_empty_prefix(opt_chars(x.model));
        lemma_empty_prefix(opt_chars(x.date_time));
        lemma_empty_prefix(opt_chars(x.focal_length));
    }
    add_exif_line(out, "Make          ", "", &x.make);
    add_exif_line(out, "Model         ", "", &x.model);
    add_exif_line(out, "Date/Time     ", "", &x.date_time);
    add_exif_line(out, "ISO Speed     ", "ISO ", &x.iso);
    let exposure = match &x.exposure {
        Some(v) => {
            let mut t = chars_of(exposure_text(v.as_str()).as_str());
            cat(&mut t, " s");
            Some(string_of(&t))
        },
        None => None,
    };
    proof {
        lemma_empty_prefix(opt_chars(exposure));
    }
    add_exif_line(out, "Exposure      ", "", &exposure);
    add_exif_line(out, "Aperture      ", "f/", &x.aperture);
    add_exif_line(out, "Focal Length  ", "", &x.focal_length);
    assert(piece_seq(out@) =~= o + camera_pieces(*x));
}

fn add_gps_pieces(out: &mut Vec<Piece>, x: &ExifFacts)
    ensures
        piece_seq(final(out)@) == piece_seq(old(out)@) + gps_pieces(*x),
{
    let ghost o = piece_seq(out@);
    add_str(out, "    ", Tone::Plain);
    add_str(out, "GPS Data      ", Tone::Red);
    let mut g = chars_of(" : ");
    if x.gps_present {
        cat(&mut g, "Present");
    } else {
        cat(&mut g, "None");
    }
    cat(&mut g, "\n");
    add_piece(out, &g, Tone::Plain);
    let any = x.make.is_some() || x.model.is_some() || x.date_time.is_some() || x.iso.is_some()
        || x.exposure.is_some() || x.aperture.is_some() || x.focal_length.is_some();
    if !any {
        add_str(out, "    No standard camera tags found in EXIF.\n", Tone::Plain);
    }
    assert(piece_seq(out@) =~= o + gps_pieces(*x));
}

fn add_exif_pieces(out: &mut Vec<Piece>, e: &Option<ExifFacts>)
    ensures
        piece_seq(final(out)@) == piece_seq(old(out)@) + exif_pieces(*e),
{
    let ghost o = piece_seq(out@);
    match e {
        None => {
            add_str(out, "    None (or unreadable EXIF header)\n", Tone::Plain);
        },
        Some(x) => {
            add_camera_pieces(out, x);
            add_gps_pieces(out, x);
        },
    }
    assert(piece_seq(out@) =~= o + exif_pieces(*e));
}

/// The report on one file (see `spec_info_report`).
pub fn info_report(f: &InfoFacts) -> (r: Vec<Piece>)
    ensures
        piece_seq(r@) == spec_info_report(*f),
{
    let mut out: Vec<Piece> = Vec::new();
    add_file_pieces(&mut out, f);
    add_detail_pieces(&mut out, &f.details);
    let ghost o = piece_seq(out@);
    add_str(&mut out, "\n  ", Tone::Plain);
    add_str(&mut out, "[ EXIF Metadata ]", Tone::Heading);
    add_str(&mut out, "\n", Tone::Plain);
    add_exif_pieces(&mut out, &f.exif);
    add_str(&mut out, "\n", Tone::Plain);
    assert(piece_seq(out@) =~= spec_info_report(*f));
    out
}

} // verus!
