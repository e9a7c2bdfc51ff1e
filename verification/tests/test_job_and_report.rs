use bat_img_rs::exif::image_details::ImageDetails;
use bat_img_rs::pipeline::{parse_lowercase_color, ColorFault, Rgba};
use bat_img_rs::processor::{pixel_steps, plan_job, JobAction, PixelSettings, PixelStep, ResizePlan};
use bat_img_rs::report::{format_label, info_report, ExifFacts, InfoFacts, Piece, Tone};

fn settings() -> PixelSettings {
    PixelSettings {
        upright: false,
        grayscale: false,
        resize: None,
        no_upscale: false,
        brightness: None,
        contrast: false,
        sharpen: false,
        rotate: None,
        flip_h: false,
        flip_v: false,
        border: None,
    }
}

#[test]
fn pixel_steps_follow_the_fixed_order() {
    let s = PixelSettings {
        upright: true,
        grayscale: true,
        resize: Some((100, 0)),
        brightness: Some(-5),
        contrast: true,
        sharpen: true,
        rotate: Some(180),
        flip_h: true,
        flip_v: true,
        border: Some((3, Rgba([1, 2, 3, 4]))),
        ..settings()
    };
    // Orientation 6: rotate 90 degrees, so the 400 x 200 image is 200 x 400
    // when the resize is planned.
    assert_eq!(
        pixel_steps(&s, 6, 400, 200),
        vec![
            PixelStep::Rotate(90),
            PixelStep::Grayscale,
            PixelStep::Resize(ResizePlan { width: 100, height: 200, exact: false }),
            PixelStep::Brighten(-5),
            PixelStep::Contrast,
            PixelStep::Sharpen,
            PixelStep::Rotate(180),
            PixelStep::FlipH,
            PixelStep::FlipV,
            PixelStep::Border(3, Rgba([1, 2, 3, 4])),
        ]
    );
}

#[test]
fn pixel_steps_skip_what_is_not_asked_for() {
    assert_eq!(pixel_steps(&settings(), 6, 10, 10), vec![]);
    // Orientation is only applied when asked; odd angles rotate nothing.
    let s = PixelSettings { rotate: Some(45), ..settings() };
    assert_eq!(pixel_steps(&s, 8, 10, 10), vec![]);
    // No upscale: a resize beyond both sides is dropped.
    let s = PixelSettings { resize: Some((50, 50)), no_upscale: true, ..settings() };
    assert_eq!(pixel_steps(&s, 1, 10, 10), vec![]);
    let s = PixelSettings { upright: true, ..settings() };
    assert_eq!(pixel_steps(&s, 7, 10, 10), vec![PixelStep::Rotate(270), PixelStep::FlipH]);
}

#[test]
fn plan_job_decides_dry_runs_and_existing_outputs() {
    assert_eq!(plan_job(false, true, false, false, true), JobAction::DryRun);
    assert_eq!(plan_job(false, false, false, false, true), JobAction::SkipExisting);
    assert_eq!(plan_job(false, false, true, false, true), JobAction::Run);
    assert_eq!(plan_job(false, false, false, true, true), JobAction::Run);
    assert_eq!(plan_job(false, false, false, false, false), JobAction::Run);
    // The byte-level fast path writes whether or not the output exists.
    assert_eq!(plan_job(true, false, false, false, true), JobAction::Run);
    assert_eq!(plan_job(true, true, false, false, true), JobAction::DryRun);
}

#[test]
fn lowercase_colours_are_told_apart_from_bad_digits() {
    assert_eq!(parse_lowercase_color(&"white".chars().collect()), Ok(Rgba([255, 255, 255, 255])));
    assert_eq!(parse_lowercase_color(&"#0a0b0c".chars().collect()), Ok(Rgba([10, 11, 12, 255])));
    assert_eq!(parse_lowercase_color(&"#gg0000".chars().collect()), Err(ColorFault::BadHexDigits));
    assert_eq!(parse_lowercase_color(&"#fff".chars().collect()), Err(ColorFault::NotAColor));
    assert_eq!(parse_lowercase_color(&"WHITE".chars().collect()), Err(ColorFault::NotAColor));
}

#[test]
fn format_labels_come_from_the_extension() {
    assert_eq!(format_label("a/photo.jpg"), "JPEG");
    assert_eq!(format_label("photo.WebP"), "WEBP");
    assert_eq!(format_label("x/photo.heic"), "HEIF");
    assert_eq!(format_label("notes.txt"), "UNKNOWN");
    assert_eq!(format_label("noext"), "UNKNOWN");
}

fn details() -> ImageDetails {
    ImageDetails {
        bit_depth: "8 bits/channel".to_string(),
        has_alpha: false,
        colorspace: "YCbCr".to_string(),
        c_profile: "sRGB".to_string(),
        chroma_format: Some("4:2:0".to_string()),
    }
}

fn text(pieces: &[Piece]) -> String {
    pieces.iter().map(|p| p.text.as_str()).collect()
}

#[test]
fn info_report_lays_out_every_line() {
    let facts = InfoFacts {
        file_size: Some(2048),
        modified: Some("2024-05-01 10:20".to_string()),
        format: "JPEG".to_string(),
        dimensions: Some((100, 50)),
        megapixels: "0.0".to_string(),
        details: details(),
        exif: Some(ExifFacts {
            make: Some("Apple".to_string()),
            model: None,
            date_time: Some("2024:05:01 10:20".to_string()),
            iso: Some("100".to_string()),
            exposure: Some("1/60".to_string()),
            aperture: Some("1.8".to_string()),
            focal_length: Some("4.20 mm".to_string()),
            gps_present: true,
        }),
    };
    let pieces = info_report(&facts);
    let expected = "  File Size       : 2 KB (2048 bytes)\n\
                    \x20 Last Modified   : 2024-05-01 10:20\n\
                    \x20 Format          : JPEG\n\
                    \x20 Dimensions      : 100 x 50 (0.0 MP)\n\
                    \x20 Bit Depth       : 8 bits/channel\n\
                    \x20 Alpha Channel   : No\n\
                    \x20 Color Space     : YCbCr\n\
                    \x20 Color Profile   : sRGB\n\
                    \x20 Chroma Format   : 4:2:0\n\
                    \n  [ EXIF Metadata ]\n\
                    \x20   Make           : Apple\n\
                    \x20   Date/Time      : 2024:05:01 10:20\n\
                    \x20   ISO Speed      : ISO 100\n\
                    \x20   Exposure       : 1/60 s\n\
                    \x20   Aperture       : f/1.8\n\
                    \x20   Focal Length   : 4.20 mm\n\
                    \x20   GPS Data       : Present\n\
                    \n";
    assert_eq!(text(&pieces), expected);
    assert!(pieces.iter().any(|p| p.text == "File Size      " && p.tone == Tone::Bold));
    assert!(pieces.iter().any(|p| p.text == "2048 bytes" && p.tone == Tone::Dimmed));
    assert!(pieces.iter().any(|p| p.text == "JPEG" && p.tone == Tone::Blue));
    assert!(pieces.iter().any(|p| p.text == "GPS Data      " && p.tone == Tone::Red));
    assert!(pieces.iter().any(|p| p.text == "[ EXIF Metadata ]" && p.tone == Tone::Heading));
}

#[test]
fn info_report_without_exif_or_decoding() {
    let facts = InfoFacts {
        file_size: None,
        modified: None,
        format: "UNKNOWN".to_string(),
        dimensions: None,
        megapixels: String::new(),
        details: ImageDetails { chroma_format: None, ..details() },
        exif: None,
    };
    let out = text(&info_report(&facts));
    assert!(out.starts_with("  Format          : UNKNOWN\n  Bit Depth"));
    assert!(!out.contains("Dimensions") && !out.contains("Chroma Format") && !out.contains("File Size"));
    assert!(out.ends_with("[ EXIF Metadata ]\n    None (or unreadable EXIF header)\n\n"));

    let facts = InfoFacts {
        exif: Some(ExifFacts {
            make: None,
            model: None,
            date_time: None,
            iso: None,
            exposure: None,
            aperture: None,
            focal_length: None,
            gps_present: false,
        }),
        ..facts
    };
    let out = text(&info_report(&facts));
    assert!(out.ends_with("    GPS Data       : None\n    No standard camera tags found in EXIF.\n\n"));
}
