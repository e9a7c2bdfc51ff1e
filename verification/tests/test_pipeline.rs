use bat_img_rs::cli::OutputFormat;
use bat_img_rs::error::BatImgError;
use bat_img_rs::heic::{is_heic, is_heic_bytes};
use bat_img_rs::pipeline::{
    is_image, parse_color, parse_resize_spec, validate_rotation, Rgba,
};
use bat_img_rs::processor::resolve_dimensions;

// ---- parse_color -------------------------------------------------------------------

#[test]
fn color_named_white() {
    assert_eq!(parse_color("white").unwrap(), Rgba([255, 255, 255, 255]));
}

#[test]
fn color_named_black() {
    assert_eq!(parse_color("black").unwrap(), Rgba([0, 0, 0, 255]));
}

#[test]
fn color_named_red() {
    assert_eq!(parse_color("red").unwrap(), Rgba([255, 0, 0, 255]));
}

#[test]
fn color_named_green() {
    assert_eq!(parse_color("green").unwrap(), Rgba([0, 128, 0, 255]));
}

#[test]
fn color_named_blue() {
    assert_eq!(parse_color("blue").unwrap(), Rgba([0, 0, 255, 255]));
}

#[test]
fn color_named_gray() {
    assert_eq!(parse_color("gray").unwrap(), Rgba([128, 128, 128, 255]));
}

#[test]
fn color_named_grey_alias() {
    assert_eq!(parse_color("grey").unwrap(), parse_color("gray").unwrap());
}

#[test]
fn color_named_transparent() {
    assert_eq!(parse_color("transparent").unwrap(), Rgba([0, 0, 0, 0]));
}

#[test]
fn color_named_case_insensitive() {
    assert_eq!(parse_color("WHITE").unwrap(), Rgba([255, 255, 255, 255]));
    assert_eq!(parse_color("White").unwrap(), Rgba([255, 255, 255, 255]));
}

#[test]
fn color_hex_six_digits() {
    assert_eq!(parse_color("#ff8800").unwrap(), Rgba([0xFF, 0x88, 0x00, 255]));
}

#[test]
fn color_hex_six_uppercase() {
    assert_eq!(parse_color("#FF8800").unwrap(), Rgba([0xFF, 0x88, 0x00, 255]));
}

#[test]
fn color_hex_eight_digits_with_alpha() {
    assert_eq!(parse_color("#ff880080").unwrap(), Rgba([0xFF, 0x88, 0x00, 0x80]));
}

#[test]
fn color_hex_full_opaque_white() {
    assert_eq!(parse_color("#ffffff").unwrap(), Rgba([255, 255, 255, 255]));
}

#[test]
fn color_hex_full_transparent() {
    assert_eq!(parse_color("#00000000").unwrap(), Rgba([0, 0, 0, 0]));
}

#[test]
fn color_invalid_name_errors() {
    assert!(parse_color("mauve").is_err());
    assert!(parse_color("").is_err());
    assert!(parse_color("rgb(255,0,0)").is_err());
}

#[test]
fn color_invalid_hex_length_errors() {
    assert!(parse_color("#fff").is_err()); // 3 digits
    assert!(parse_color("#ffff").is_err()); // 4 digits
    assert!(parse_color("#fffff").is_err()); // 5 digits
    assert!(parse_color("#fffffff").is_err()); // 7 digits
}

#[test]
fn color_invalid_hex_chars_errors() {
    assert!(parse_color("#zzzzzz").is_err());
}

#[test]
fn color_leading_hashes_and_plus_signs() {
    // Every leading '#' is dropped; a digit pair may be "+d".
    assert_eq!(parse_color("##ff8800").unwrap(), Rgba([0xFF, 0x88, 0x00, 255]));
    assert_eq!(parse_color("#+f+f+f").unwrap(), Rgba([15, 15, 15, 255]));
    assert_eq!(
        parse_color("#gg0000"),
        Err(BatImgError::InvalidHexDigits("#gg0000".to_string()))
    );
    // Six bytes but not six ASCII characters.
    assert!(parse_color("#ééé").is_err());
}

// ---- resize spec ------------------------------------------------------------------------

#[test]
fn resize_spec_width_only() {
    let (w, h) = resolve_dimensions(3840, 2160, 1920, 0);
    assert_eq!(w, 1920);
    assert_eq!(h, 1080);
}

#[test]
fn resize_spec_height_only() {
    let (w, h) = resolve_dimensions(1920, 1080, 0, 1080);
    assert_eq!(w, 1920);
    assert_eq!(h, 1080);
}

#[test]
fn resize_spec_both_dimensions() {
    let (w, h) = resolve_dimensions(4000, 3000, 800, 600);
    assert_eq!(w, 800);
    assert_eq!(h, 600);
}

#[test]
fn resize_spec_zero_zero_passthrough() {
    let (w, h) = resolve_dimensions(1920, 1080, 0, 0);
    assert_eq!(w, 1920);
    assert_eq!(h, 1080);
}

#[test]
fn resize_spec_width_rounding() {
    let (w, h) = resolve_dimensions(100, 75, 0, 50);
    assert_eq!(h, 50);
    assert_eq!(w, 67);
}

#[test]
fn resize_spec_height_rounding() {
    let (w, h) = resolve_dimensions(100, 75, 50, 0);
    assert_eq!(w, 50);
    assert_eq!(h, 38);
}

#[test]
fn resize_spec_square_image() {
    let (w, h) = resolve_dimensions(500, 500, 200, 0);
    assert_eq!(w, 200);
    assert_eq!(h, 200);
}

#[test]
fn resolve_dimensions_of_an_empty_side_saturate() {
    assert_eq!(resolve_dimensions(0, 100, 50, 0), (50, u32::MAX));
    assert_eq!(resolve_dimensions(0, 0, 50, 0), (50, 0));
    assert_eq!(resolve_dimensions(1, u32::MAX, 2, 0), (2, u32::MAX));
}

#[test]
fn resolve_dimensions_keeps_the_aspect_ratio() {
    // 1000 * 333 / 1024 = 325.195...
    assert_eq!(resolve_dimensions(1024, 1000, 333, 0), (333, 325));
    // 3 * 5 / 2 = 7.5 rounds up
    assert_eq!(resolve_dimensions(2, 3, 5, 0), (5, 8));
}

#[test]
fn parse_resize_spec_accepts_width_by_height() {
    let r = parse_resize_spec("1920x0").unwrap();
    assert_eq!((r.width, r.height), (1920, 0));
    let r = parse_resize_spec("+800x+600").unwrap();
    assert_eq!((r.width, r.height), (800, 600));
    // The split is at the first 'x'.
    assert_eq!(
        parse_resize_spec("10x10x10").unwrap_err(),
        BatImgError::InvalidResize("10x10x10".to_string())
    );
}

#[test]
fn parse_resize_spec_rejects_bad_specs() {
    for bad in ["", "1920", "0x0", "x10", "10x", "-1x10", "1 x 2", "4294967296x1", "axb"] {
        assert_eq!(
            parse_resize_spec(bad).unwrap_err(),
            BatImgError::InvalidResize(bad.to_string()),
            "{bad}"
        );
    }
    assert!(parse_resize_spec("4294967295x1").is_ok());
}

#[test]
fn validate_rotation_accepts_quarter_turns_only() {
    assert!(validate_rotation(90).is_ok());
    assert!(validate_rotation(180).is_ok());
    assert!(validate_rotation(270).is_ok());
    assert_eq!(validate_rotation(0), Err(BatImgError::InvalidRotation(0)));
    assert_eq!(validate_rotation(45), Err(BatImgError::InvalidRotation(45)));
    assert_eq!(validate_rotation(360), Err(BatImgError::InvalidRotation(360)));
}

// ---- file kinds ---------------------------------------------------------------------------

#[test]
fn image_files_are_recognised_by_extension() {
    assert!(is_image("photos/a.JPG"));
    assert!(is_image("b.heif"));
    assert!(is_image("c.tif"));
    assert!(!is_image("notes.txt"));
    assert!(!is_image("no_extension"));
    assert!(!is_image(".png"));
}

#[test]
fn heic_is_recognised_by_extension_and_brand() {
    assert!(is_heic("sample.HEIC"));
    assert!(is_heic("sample.heif"));
    assert!(!is_heic("sample.jpg"));
    let mut ftyp = 24u32.to_be_bytes().to_vec();
    ftyp.extend_from_slice(b"ftypheic");
    ftyp.extend_from_slice(&[0; 12]);
    assert!(is_heic_bytes(&ftyp));
    let mut avif = ftyp.clone();
    avif[8..12].copy_from_slice(b"avif");
    assert!(!is_heic_bytes(&avif));
    assert!(!is_heic_bytes(b"\xFF\xD8\xFF"));
}

#[test]
fn output_format_extensions() {
    assert_eq!(OutputFormat::Jpeg.extension(), "jpg");
    assert_eq!(OutputFormat::Tiff.extension(), "tiff");
    assert_eq!(OutputFormat::Heif.extension(), "heif");
}

#[test]
fn colours_with_non_ascii_hex_are_invalid() {
    // "é" takes two bytes: "#aéaaa" has six bytes, with a character
    // straddling the first two-digit group.
    assert!(matches!(parse_color("#aéaaa"), Err(BatImgError::InvalidHexDigits(m)) if m == "#aéaaa"));
    assert!(matches!(parse_color("#a\u{e9}\u{e9}\u{e9}b"), Err(BatImgError::InvalidHexDigits(_))));
    assert!(matches!(parse_color("#ééé"), Err(BatImgError::InvalidHexDigits(_))));
    // Wrong length in bytes: not a hex colour at all.
    assert!(matches!(parse_color("#éé"), Err(BatImgError::InvalidColor(_))));
    assert!(matches!(parse_color("#fffff"), Err(BatImgError::InvalidColor(_))));
    assert_eq!(parse_color("#102030").unwrap(), Rgba([0x10, 0x20, 0x30, 255]));
}
