use bat_img_rs::exif::container::{is_png, is_tiff};
use bat_img_rs::exif::extract::extract_exif_tiff;
use bat_img_rs::exif::heic::{extract_heic_exif_raw, replace_heic_exif_payload, tiff_from_heic_metadata};
use bat_img_rs::exif::metadata::rewrite::{rewrite_exif_metadata, strip_all_metadata, strip_gps_metadata};
use bat_img_rs::exif::metadata::tiff_edit::{strip_gps_from_tiff, strip_tiff_metadata};
use bat_img_rs::exif::metadata::tiff_copy::extract_tiff_metadata_only;
use bat_img_rs::exif::metadata::tiff_graft::inject_exif_into_tiff;
use bat_img_rs::exif::parser::{parse_exif_bytes, read_orientation};
use image::RgbImage;

// ---- byte builders ----------------------------------------------------------------

fn png_with_exif_chunk(exif: &[u8]) -> Vec<u8> {
    let mut out = Vec::new();
    out.extend_from_slice(b"\x89PNG\r\n\x1a\n");
    out.extend_from_slice(&(exif.len() as u32).to_be_bytes());
    out.extend_from_slice(b"eXIf");
    out.extend_from_slice(exif);
    out.extend_from_slice(&0u32.to_be_bytes());
    out.extend_from_slice(&0u32.to_be_bytes());
    out.extend_from_slice(b"IEND");
    out.extend_from_slice(&0u32.to_be_bytes());
    out
}

fn webp_with_exif_chunk(exif: &[u8]) -> Vec<u8> {
    let mut body = Vec::new();
    body.extend_from_slice(b"EXIF");
    body.extend_from_slice(&(exif.len() as u32).to_le_bytes());
    body.extend_from_slice(exif);
    if exif.len() % 2 == 1 {
        body.push(0);
    }
    let file_size = 4 + body.len();
    let mut out = Vec::new();
    out.extend_from_slice(b"RIFF");
    out.extend_from_slice(&(file_size as u32).to_le_bytes());
    out.extend_from_slice(b"WEBP");
    out.extend_from_slice(&body);
    out
}

/// A little-endian TIFF with one IFD of `(tag, type, value)` entries.
fn build_tiff_le(entries: &[(u16, u16, u16)]) -> Vec<u8> {
    let mut buf: Vec<u8> = vec![b'I', b'I', 0x2A, 0x00, 0x08, 0x00, 0x00, 0x00];
    buf.extend_from_slice(&(entries.len() as u16).to_le_bytes());
    for &(tag, typ, val) in entries {
        buf.extend_from_slice(&tag.to_le_bytes());
        buf.extend_from_slice(&typ.to_le_bytes());
        buf.extend_from_slice(&1u32.to_le_bytes());
        buf.extend_from_slice(&(val as u32).to_le_bytes());
    }
    buf.extend_from_slice(&0u32.to_le_bytes());
    buf
}

/// A big-endian TIFF with a single orientation entry.
fn build_tiff_be(orientation: u16) -> Vec<u8> {
    let mut buf: Vec<u8> = vec![b'M', b'M', 0x00, 0x2A, 0x00, 0x00, 0x00, 0x08];
    buf.extend_from_slice(&1u16.to_be_bytes());
    buf.extend_from_slice(&0x0112u16.to_be_bytes());
    buf.extend_from_slice(&3u16.to_be_bytes());
    buf.extend_from_slice(&1u32.to_be_bytes());
    buf.extend_from_slice(&orientation.to_be_bytes());
    buf.extend_from_slice(&[0x00, 0x00]);
    buf.extend_from_slice(&0u32.to_be_bytes());
    buf
}

/// A TIFF block in a minimal JPEG APP1 EXIF segment.
fn jpeg_with_exif(tiff: &[u8]) -> Vec<u8> {
    let exif_header = b"Exif\x00\x00";
    let payload_len = exif_header.len() + tiff.len();
    let seg_len = (payload_len + 2) as u16;
    let mut jpeg = vec![0xFF, 0xD8];
    jpeg.push(0xFF);
    jpeg.push(0xE1);
    jpeg.extend_from_slice(&seg_len.to_be_bytes());
    jpeg.extend_from_slice(exif_header);
    jpeg.extend_from_slice(tiff);
    jpeg.extend_from_slice(&[0xFF, 0xD9]);
    jpeg
}

/// A TIFF whose IFD0 holds Orientation and a GPS IFD pointer.
fn build_tiff_with_gps(gps_offset: u32) -> Vec<u8> {
    let mut buf: Vec<u8> = vec![b'I', b'I', 0x2A, 0x00, 0x08, 0x00, 0x00, 0x00];
    buf.extend_from_slice(&2u16.to_le_bytes());
    buf.extend_from_slice(&0x0112u16.to_le_bytes());
    buf.extend_from_slice(&3u16.to_le_bytes());
    buf.extend_from_slice(&1u32.to_le_bytes());
    buf.extend_from_slice(&1u32.to_le_bytes());
    buf.extend_from_slice(&0x8825u16.to_le_bytes());
    buf.extend_from_slice(&4u16.to_le_bytes());
    buf.extend_from_slice(&1u32.to_le_bytes());
    buf.extend_from_slice(&gps_offset.to_le_bytes());
    buf.extend_from_slice(&0u32.to_le_bytes());
    buf
}

/// ftyp + a `meta` box holding version/flags and the TIFF block.
fn mock_heic_with_exif(tiff_payload: &[u8]) -> Vec<u8> {
    let mut bytes = Vec::new();
    bytes.extend_from_slice(&12u32.to_be_bytes());
    bytes.extend_from_slice(b"ftypheic");
    let meta_payload_len = 4 + tiff_payload.len();
    let meta_box_len = (8 + meta_payload_len) as u32;
    bytes.extend_from_slice(&meta_box_len.to_be_bytes());
    bytes.extend_from_slice(b"meta");
    bytes.extend_from_slice(&[0, 0, 0, 0]);
    bytes.extend_from_slice(tiff_payload);
    bytes
}

fn jpeg_without_exif() -> Vec<u8> {
    let mut jpeg = vec![0xFF, 0xD8];
    let app0_payload = b"JFIF\x00\x01\x01\x00\x00\x01\x00\x01\x00\x00";
    let seg_len = (app0_payload.len() + 2) as u16;
    jpeg.push(0xFF);
    jpeg.push(0xE0);
    jpeg.extend_from_slice(&seg_len.to_be_bytes());
    jpeg.extend_from_slice(app0_payload);
    jpeg.extend_from_slice(&[0xFF, 0xD9]);
    jpeg
}

// ---- display formatting of EXIF values -----------------------------------------------

#[test]
fn test_exif_format_make_and_model_strips_quotes() {
    let raw_make = "\"Apple\"";
    let raw_model = "\"iPhone 16 Pro Max\"";

    let clean_make = raw_make.trim().trim_matches('"').trim();
    let clean_model = raw_model.trim().trim_matches('"').trim();

    assert_eq!(clean_make, "Apple");
    assert_eq!(clean_model, "iPhone 16 Pro Max");
}

#[test]
fn test_exif_format_exposure_time_strips_double_seconds() {
    let raw = "1/348 s";
    let clean = raw.trim().trim_end_matches('s').trim();
    assert_eq!(format!("{clean} s"), "1/348 s");
}

#[test]
fn test_exif_format_aperture_normalizes_f_number_and_floats() {
    let raw = "f/f/1.7799999713880652";
    let clean_f = raw
        .trim()
        .trim_start_matches("f/")
        .trim_start_matches("f/")
        .trim_start_matches('f')
        .trim();
    let formatted_f = if let Ok(val) = clean_f.parse::<f64>() {
        format!("{:.2}", val).trim_end_matches('0').trim_end_matches('.').to_string()
    } else {
        clean_f.to_string()
    };
    assert_eq!(format!("f/{formatted_f}"), "f/1.78");

    let raw2 = "f/2.8000";
    let clean_f2 = raw2.trim().trim_start_matches("f/").trim_start_matches('f').trim();
    let formatted_f2 = if let Ok(val) = clean_f2.parse::<f64>() {
        format!("{:.2}", val).trim_end_matches('0').trim_end_matches('.').to_string()
    } else {
        clean_f2.to_string()
    };
    assert_eq!(format!("f/{formatted_f2}"), "f/2.8");
}

#[test]
fn test_exif_format_focal_length_rounds_float_and_normalizes_mm() {
    let raw = "6.764999866370901 mm";
    let clean_fl = raw.trim().trim_end_matches("mm").trim();
    let formatted_fl = if let Ok(val) = clean_fl.parse::<f64>() {
        format!("{:.2} mm", val)
    } else {
        format!("{} mm", clean_fl)
    };
    assert_eq!(formatted_fl, "6.76 mm");
}

#[test]
fn test_exif_parser_format_make_and_model_strips_quotes() {
    let raw_make = "\"Apple\"";
    let raw_model = "\"iPhone 16 Pro Max\"";
    assert_eq!(raw_make.trim_matches('"'), "Apple");
    assert_eq!(raw_model.trim_matches('"'), "iPhone 16 Pro Max");
}

#[test]
fn test_exif_parser_format_exposure_time_strips_double_seconds() {
    let raw = "1/348 s";
    let clean = raw.trim().trim_end_matches('s').trim();
    assert_eq!(format!("{clean} s"), "1/348 s");
}

#[test]
fn test_exif_parser_format_aperture_normalizes_f_number_and_floats() {
    let raw = "f/f/1.7799999713880652";
    let clean_f = raw
        .trim()
        .trim_start_matches("f/")
        .trim_start_matches("f/")
        .trim_start_matches('f')
        .trim();
    let formatted_f = if let Ok(val) = clean_f.parse::<f64>() {
        format!("{:.2}", val).trim_end_matches('0').trim_end_matches('.').to_string()
    } else {
        clean_f.to_string()
    };
    assert_eq!(format!("f/{formatted_f}"), "f/1.78");

    let raw2 = "f/2.8000";
    let clean_f2 = raw2.trim().trim_start_matches("f/").trim_start_matches('f').trim();
    let formatted_f2 = if let Ok(val) = clean_f2.parse::<f64>() {
        format!("{:.2}", val).trim_end_matches('0').trim_end_matches('.').to_string()
    } else {
        clean_f2.to_string()
    };
    assert_eq!(format!("f/{formatted_f2}"), "f/2.8");
}

#[test]
fn test_exif_parser_format_focal_length_rounds_float_and_normalizes_mm() {
    let raw = "6.764999866370901 mm";
    let clean_fl = raw.trim().trim_end_matches("mm").trim();
    let formatted_fl = if let Ok(val) = clean_fl.parse::<f64>() {
        format!("{:.2} mm", val)
    } else {
        format!("{} mm", clean_fl)
    };
    assert_eq!(formatted_fl, "6.76 mm");
}

// ---- orientation -------------------------------------------------------------------

#[test]
fn test_exif_orientation_little_endian_values() {
    for expected in 1u16..=8 {
        let tiff = build_tiff_le(&[(0x0112, 3, expected)]);
        let jpeg = jpeg_with_exif(&tiff);
        assert_eq!(read_orientation(&jpeg), Some(expected as u32), "LE orientation {expected}");
    }
}

#[test]
fn test_exif_orientation_big_endian() {
    let jpeg = jpeg_with_exif(&build_tiff_be(6));
    assert_eq!(read_orientation(&jpeg), Some(6));
}

#[test]
fn test_exif_orientation_missing_tag_returns_none() {
    let tiff = build_tiff_le(&[(0x010F, 2, 0)]);
    let jpeg = jpeg_with_exif(&tiff);
    assert_eq!(read_orientation(&jpeg), None);
}

#[test]
fn test_exif_orientation_non_jpeg_returns_none() {
    let png = b"\x89PNG\r\n\x1a\n";
    assert_eq!(read_orientation(png), None);
}

#[test]
fn test_exif_orientation_empty_bytes_returns_none() {
    assert_eq!(read_orientation(&[]), None);
}

#[test]
fn test_exif_orientation_jpeg_without_exif_returns_none() {
    assert_eq!(read_orientation(&jpeg_without_exif()), None);
}

#[test]
fn test_exif_parser_orientation_little_endian_values() {
    for expected in 1u16..=8 {
        let tiff = build_tiff_le(&[(0x0112, 3, expected)]);
        let jpeg = jpeg_with_exif(&tiff);
        assert_eq!(read_orientation(&jpeg), Some(expected as u32), "LE orientation {expected}");
    }
}

#[test]
fn test_exif_parser_orientation_big_endian() {
    let jpeg = jpeg_with_exif(&build_tiff_be(6));
    assert_eq!(read_orientation(&jpeg), Some(6));
}

#[test]
fn test_exif_parser_orientation_missing_tag_returns_none() {
    let tiff = build_tiff_le(&[(0x010F, 2, 0)]);
    let jpeg = jpeg_with_exif(&tiff);
    assert_eq!(read_orientation(&jpeg), None);
}

#[test]
fn test_exif_parser_orientation_non_jpeg_returns_none() {
    let png = b"\x89PNG\r\n\x1a\n";
    assert_eq!(read_orientation(png), None);
}

#[test]
fn test_exif_parser_orientation_empty_bytes_returns_none() {
    assert_eq!(read_orientation(&[]), None);
}

#[test]
fn test_exif_parser_orientation_jpeg_without_exif_returns_none() {
    assert_eq!(read_orientation(&jpeg_without_exif()), None);
}

#[test]
fn test_parse_exif_bytes() {
    let valid_tiff = build_tiff_le(&[(0x0112, 3, 1)]);
    let result = parse_exif_bytes(&valid_tiff);
    assert!(result.is_some());
    assert!(parse_exif_bytes(b"invalid").is_none());
}

// ---- stripping GPS -------------------------------------------------------------------

#[test]
fn test_exif_png_strip_gps_metadata_preserves_chunk_structure() {
    let tiff = build_tiff_with_gps(0x9ABC);
    let png = png_with_exif_chunk(&tiff);
    let stripped = strip_gps_metadata(&png).unwrap();
    assert!(is_png(&stripped));
    assert!(stripped.windows(4).any(|w| w == b"eXIf"));
    let gps_bytes = 0x9ABCu32.to_le_bytes();
    assert!(!stripped.windows(4).any(|w| w == gps_bytes));
}

#[test]
fn test_exif_metadata_png_strip_gps_metadata_preserves_chunk_structure() {
    let tiff = build_tiff_with_gps(0x9ABC);
    let png = png_with_exif_chunk(&tiff);
    let stripped = strip_gps_metadata(&png).unwrap();
    assert!(is_png(&stripped));
    assert!(stripped.windows(4).any(|w| w == b"eXIf"));
    let gps_bytes = 0x9ABCu32.to_le_bytes();
    assert!(!stripped.windows(4).any(|w| w == gps_bytes));
}

#[test]
fn test_exif_webp_strip_gps_metadata_zeroes_gps_ifd() {
    let tiff = build_tiff_with_gps(0xDEF0);
    let webp = webp_with_exif_chunk(&tiff);
    let stripped = strip_gps_metadata(&webp).unwrap();
    assert!(stripped.starts_with(b"RIFF"));
    assert!(stripped.windows(4).any(|w| w == b"EXIF"));
    let gps_bytes = 0xDEF0u32.to_le_bytes();
    assert!(!stripped.windows(4).any(|w| w == gps_bytes));
}

#[test]
fn test_exif_metadata_webp_strip_gps_metadata_zeroes_gps_ifd() {
    let tiff = build_tiff_with_gps(0xDEF0);
    let webp = webp_with_exif_chunk(&tiff);
    let stripped = strip_gps_metadata(&webp).unwrap();
    assert!(stripped.starts_with(b"RIFF"));
    assert!(stripped.windows(4).any(|w| w == b"EXIF"));
    let gps_bytes = 0xDEF0u32.to_le_bytes();
    assert!(!stripped.windows(4).any(|w| w == gps_bytes));
}

#[test]
fn test_exif_tiff_strip_gps_metadata_zeroes_ifd_tag() {
    let tiff = build_tiff_with_gps(0x4321);
    let stripped = strip_gps_metadata(&tiff).unwrap();
    assert!(is_tiff(&stripped));
    assert_eq!(stripped.len(), tiff.len());
    let gps_bytes = 0x4321u32.to_le_bytes();
    assert!(!stripped.windows(4).any(|w| w == gps_bytes));
}

#[test]
fn test_exif_metadata_tiff_strip_gps_metadata_zeroes_ifd_tag() {
    let tiff = build_tiff_with_gps(0x4321);
    let stripped = strip_gps_metadata(&tiff).unwrap();
    assert!(is_tiff(&stripped));
    assert_eq!(stripped.len(), tiff.len());
    let gps_bytes = 0x4321u32.to_le_bytes();
    assert!(!stripped.windows(4).any(|w| w == gps_bytes));
}

#[test]
fn test_exif_strip_gps_zeroes_gps_ifd_pointer() {
    let tiff = build_tiff_with_gps(0x1234);
    let jpeg = jpeg_with_exif(&tiff);
    let stripped = strip_gps_metadata(&jpeg).unwrap();
    assert!(stripped.starts_with(&[0xFF, 0xD8]));
    let gps_bytes = 0x1234u32.to_le_bytes();
    let found = stripped.windows(4).any(|w| w == gps_bytes);
    assert!(!found, "GPS offset value should be zeroed out");
}

#[test]
fn test_exif_metadata_strip_gps_zeroes_gps_ifd_pointer() {
    let tiff = build_tiff_with_gps(0x1234);
    let jpeg = jpeg_with_exif(&tiff);
    let stripped = strip_gps_metadata(&jpeg).unwrap();
    assert!(stripped.starts_with(&[0xFF, 0xD8]));
    let gps_bytes = 0x1234u32.to_le_bytes();
    assert!(!stripped.windows(4).any(|w| w == gps_bytes));
}

#[test]
fn test_exif_strip_gps_no_gps_is_noop() {
    let tiff = build_tiff_le(&[(0x0112, 3, 1)]);
    let jpeg = jpeg_with_exif(&tiff);
    let stripped = strip_gps_metadata(&jpeg).unwrap();
    assert!(stripped.starts_with(&[0xFF, 0xD8]));
    assert!(stripped.len() <= jpeg.len());
}

#[test]
fn test_exif_metadata_strip_gps_no_gps_is_noop() {
    let tiff = build_tiff_le(&[(0x0112, 3, 1)]);
    let jpeg = jpeg_with_exif(&tiff);
    let stripped = strip_gps_metadata(&jpeg).unwrap();
    assert!(stripped.starts_with(&[0xFF, 0xD8]));
    assert!(stripped.len() <= jpeg.len());
}

#[test]
fn test_exif_strip_gps_non_jpeg_passthrough() {
    let data = b"\x89PNG\r\n\x1a\nsome_data";
    let result = strip_gps_metadata(data).unwrap();
    assert_eq!(result, data.as_ref());
}

#[test]
fn test_exif_metadata_strip_gps_non_jpeg_passthrough() {
    let data = b"\x89PNG\r\n\x1a\nsome_data";
    let result = strip_gps_metadata(data).unwrap();
    assert_eq!(result, data.as_ref());
}

#[test]
fn test_exif_strip_gps_result_is_valid_jpeg_header() {
    let tiff = build_tiff_with_gps(0xFF00);
    let jpeg = jpeg_with_exif(&tiff);
    let stripped = strip_gps_metadata(&jpeg).unwrap();
    assert!(stripped.starts_with(&[0xFF, 0xD8]));
}

#[test]
fn test_exif_metadata_strip_gps_result_is_valid_jpeg_header() {
    let tiff = build_tiff_with_gps(0xFF00);
    let jpeg = jpeg_with_exif(&tiff);
    let stripped = strip_gps_metadata(&jpeg).unwrap();
    assert!(stripped.starts_with(&[0xFF, 0xD8]));
}

#[test]
fn test_strip_gps_from_tiff_removes_the_pointer_only() {
    let tiff = build_tiff_with_gps(0x1234);
    let stripped = strip_gps_from_tiff(&tiff).unwrap();
    assert!(!stripped.windows(4).any(|w| w == 0x1234u32.to_le_bytes()));
    assert_eq!(stripped.len(), tiff.len());
    // One entry left: the orientation.
    assert_eq!(u16::from_le_bytes([stripped[8], stripped[9]]), 1);
    assert_eq!(read_orientation(&jpeg_with_exif(&stripped)), Some(1));
}

#[test]
fn tiff_exif_strip_gps_preserves_non_gps_tags() {
    let tiff = build_tiff_with_gps(0x1234);
    let stripped = strip_gps_from_tiff(&tiff).unwrap();
    let stripped_tiff = extract_exif_tiff(&stripped).expect("stripped TIFF should still contain EXIF");
    assert!(!stripped_tiff.is_empty());
}

// ---- stripping everything ----------------------------------------------------------------

#[test]
fn test_exif_tiff_strip_all_metadata_removes_pointers() {
    let tiff = build_tiff_with_gps(0x7777);
    let stripped = strip_all_metadata(&tiff).unwrap();
    assert!(is_tiff(&stripped));
    let gps_bytes = 0x7777u32.to_le_bytes();
    assert!(!stripped.windows(4).any(|w| w == gps_bytes));
}

#[test]
fn test_exif_metadata_tiff_strip_all_metadata_removes_pointers() {
    let tiff = build_tiff_with_gps(0x7777);
    let stripped = strip_all_metadata(&tiff).unwrap();
    assert!(is_tiff(&stripped));
    let gps_bytes = 0x7777u32.to_le_bytes();
    assert!(!stripped.windows(4).any(|w| w == gps_bytes));
}

#[test]
fn test_exif_strip_all_removes_app1_keeps_soi() {
    let tiff = build_tiff_le(&[(0x0112, 3, 1)]);
    let jpeg = jpeg_with_exif(&tiff);
    let stripped = strip_all_metadata(&jpeg).unwrap();
    assert!(stripped.starts_with(&[0xFF, 0xD8]));
    assert!(!stripped.windows(2).any(|w| w == [0xFF, 0xE1]));
}

#[test]
fn test_exif_metadata_strip_all_removes_app1_keeps_soi() {
    let tiff = build_tiff_le(&[(0x0112, 3, 1)]);
    let jpeg = jpeg_with_exif(&tiff);
    let stripped = strip_all_metadata(&jpeg).unwrap();
    assert!(stripped.starts_with(&[0xFF, 0xD8]));
    assert!(!stripped.windows(2).any(|w| w == [0xFF, 0xE1]));
}

#[test]
fn test_exif_strip_all_non_jpeg_passthrough() {
    let data = b"\x89PNG\r\n\x1a\nsome_data";
    let result = strip_all_metadata(data).unwrap();
    assert_eq!(result, data.as_ref());
}

#[test]
fn test_exif_metadata_strip_all_non_jpeg_passthrough() {
    let data = b"\x89PNG\r\n\x1a\nsome_data";
    let result = strip_all_metadata(data).unwrap();
    assert_eq!(result, data.as_ref());
}

#[test]
fn test_exif_strip_all_idempotent() {
    let tiff = build_tiff_le(&[(0x0112, 3, 6)]);
    let jpeg = jpeg_with_exif(&tiff);
    let once = strip_all_metadata(&jpeg).unwrap();
    let twice = strip_all_metadata(&once).unwrap();
    assert_eq!(once, twice);
}

#[test]
fn test_exif_metadata_strip_all_idempotent() {
    let tiff = build_tiff_le(&[(0x0112, 3, 6)]);
    let jpeg = jpeg_with_exif(&tiff);
    let once = strip_all_metadata(&jpeg).unwrap();
    let twice = strip_all_metadata(&once).unwrap();
    assert_eq!(once, twice);
}

#[test]
fn test_exif_strip_all_preserves_length_or_shrinks() {
    let tiff = build_tiff_le(&[(0x0112, 3, 1)]);
    let jpeg = jpeg_with_exif(&tiff);
    let stripped = strip_all_metadata(&jpeg).unwrap();
    assert!(stripped.len() <= jpeg.len());
}

#[test]
fn test_exif_metadata_strip_all_preserves_length_or_shrinks() {
    let tiff = build_tiff_le(&[(0x0112, 3, 1)]);
    let jpeg = jpeg_with_exif(&tiff);
    let stripped = strip_all_metadata(&jpeg).unwrap();
    assert!(stripped.len() <= jpeg.len());
}

#[test]
fn strip_tiff_metadata_removes_exif_and_preserves_tiff() {
    let source = build_tiff_with_gps(0x1234);
    let stripped = strip_tiff_metadata(&source).unwrap();
    assert!(is_tiff(&stripped));
    assert_eq!(stripped.len(), source.len());
    let info = parse_exif_bytes(&stripped).unwrap();
    assert_eq!(info.make, None);
    assert!(!info.gps_present);
}

#[test]
fn strip_all_metadata_uses_tiff_metadata_stripper() {
    let source = build_tiff_with_gps(0x5678);
    let stripped = strip_all_metadata(&source).unwrap();
    assert!(is_tiff(&stripped));
    let info = parse_exif_bytes(&stripped).unwrap();
    assert_eq!(info.make, None);
    assert!(!info.gps_present);
}

#[test]
fn strip_tiff_metadata_is_idempotent() {
    let source = build_tiff_with_gps(0x1234);
    let once = strip_tiff_metadata(&source).unwrap();
    let twice = strip_tiff_metadata(&once).unwrap();
    assert_eq!(once, twice);
}

#[test]
fn strip_tiff_metadata_passes_non_tiff_data_through() {
    let data = b"not a TIFF";
    assert_eq!(strip_tiff_metadata(data).unwrap(), data);
}

#[test]
fn strip_tiff_metadata_only_zeroes_bytes() {
    let source = build_tiff_with_gps(0x1234);
    let stripped = strip_tiff_metadata(&source).unwrap();
    assert_eq!(stripped.len(), source.len());
    assert!(source.iter().zip(stripped.iter()).all(|(a, b)| a == b || *b == 0));
    // Both entries (orientation and the GPS pointer) are descriptive: cleared.
    assert!(stripped[10..34].iter().all(|&b| b == 0));
    assert_eq!(&stripped[..10], &source[..10]);
}

// ---- HEIC container level -------------------------------------------------------------

#[test]
fn test_exif_heic_strip_all_metadata_zeroes_exif_payload() {
    let tiff = build_tiff_le(&[(0x0112, 3, 1)]);
    let heic_bytes = mock_heic_with_exif(&tiff);
    let stripped = strip_all_metadata(&heic_bytes).unwrap();
    assert_eq!(stripped.len(), heic_bytes.len());
    assert!(stripped.windows(4).any(|w| w == b"meta"));
    assert!(!stripped.windows(4).any(|w| w == b"II\x2A\x00"));
    assert!(!stripped.windows(4).any(|w| w == b"MM\x00\x2A"));
}

#[test]
fn test_exif_heic_heic_strip_all_metadata_zeroes_exif_payload() {
    let tiff = build_tiff_le(&[(0x0112, 3, 1)]);
    let heic_bytes = mock_heic_with_exif(&tiff);
    let stripped = strip_all_metadata(&heic_bytes).unwrap();
    assert_eq!(stripped.len(), heic_bytes.len());
    assert!(stripped.windows(4).any(|w| w == b"meta"));
    assert!(!stripped.windows(4).any(|w| w == b"II\x2A\x00"));
    assert!(!stripped.windows(4).any(|w| w == b"MM\x00\x2A"));
}

#[test]
fn test_exif_heic_extract_and_replace_raw_exif() {
    let tiff = build_tiff_with_gps(0x5678);
    let heic_bytes = mock_heic_with_exif(&tiff);
    let extracted = extract_heic_exif_raw(&heic_bytes);
    assert!(extracted.is_some());
    let raw = extracted.unwrap();
    assert!(raw.starts_with(b"II\x2A\x00") || raw.starts_with(b"MM\x00\x2A"));
    let mut modified_tiff = raw.clone();
    modified_tiff[0..4].copy_from_slice(b"TEST");
    let replaced = replace_heic_exif_payload(&heic_bytes, &modified_tiff).unwrap();
    assert_eq!(replaced.len(), heic_bytes.len());
    assert!(replaced.windows(4).any(|w| w == b"TEST"));
}

#[test]
fn test_exif_heic_heic_extract_and_replace_raw_exif() {
    let tiff = build_tiff_with_gps(0x5678);
    let heic_bytes = mock_heic_with_exif(&tiff);
    let extracted = extract_heic_exif_raw(&heic_bytes);
    assert!(extracted.is_some());
    let raw = extracted.unwrap();
    assert!(raw.starts_with(b"II\x2A\x00") || raw.starts_with(b"MM\x00\x2A"));
    let mut modified_tiff = raw.clone();
    modified_tiff[0..4].copy_from_slice(b"TEST");
    let replaced = replace_heic_exif_payload(&heic_bytes, &modified_tiff).unwrap();
    assert_eq!(replaced.len(), heic_bytes.len());
    assert!(replaced.windows(4).any(|w| w == b"TEST"));
}

#[test]
fn test_exif_heic_strip_gps_metadata_zeroes_pointer() {
    let tiff = build_tiff_with_gps(0x1234);
    let heic_bytes = mock_heic_with_exif(&tiff);
    let stripped = strip_gps_metadata(&heic_bytes).unwrap();
    assert_eq!(stripped.len(), heic_bytes.len());
    assert!(stripped.windows(4).any(|w| w == b"meta"));
    let gps_bytes = 0x1234u32.to_le_bytes();
    assert!(!stripped.windows(4).any(|w| w == gps_bytes));
}

#[test]
fn test_exif_heic_heic_strip_gps_metadata_zeroes_pointer() {
    let tiff = build_tiff_with_gps(0x1234);
    let heic_bytes = mock_heic_with_exif(&tiff);
    let stripped = strip_gps_metadata(&heic_bytes).unwrap();
    assert_eq!(stripped.len(), heic_bytes.len());
    assert!(stripped.windows(4).any(|w| w == b"meta"));
    let gps_bytes = 0x1234u32.to_le_bytes();
    assert!(!stripped.windows(4).any(|w| w == gps_bytes));
}

#[test]
fn test_tiff_from_heic_metadata() {
    let tiff = build_tiff_le(&[(0x0112, 3, 1)]);
    let mut data = b"Exif\0\0".to_vec();
    data.extend_from_slice(&tiff);
    let result = tiff_from_heic_metadata(&data).unwrap();
    assert_eq!(result, tiff.as_slice());
    let offset = 0u32.to_be_bytes();
    let mut data2 = offset.to_vec();
    data2.extend_from_slice(&tiff);
    let result2 = tiff_from_heic_metadata(&data2).unwrap();
    assert_eq!(result2, tiff.as_slice());
    assert!(tiff_from_heic_metadata(b"invalid").is_none());
}

#[test]
fn parses_apple_style_heif_exif_with_optional_ifd_error() {
    let tiff = [
        b'M', b'M', 0, 42, 0, 0, 0, 8, // TIFF header and IFD0 offset
        0, 2, // two IFD0 entries
        0x01, 0x0f, 0, 2, 0, 0, 0, 6, 0, 0, 0, 38, // Make = "Apple"
        0x87, 0x69, 0, 4, 0, 0, 0, 1, 0, 0, 0, 44, // Exif IFD pointer
        0, 0, 0, 0, // no thumbnail IFD
        b'A', b'p', b'p', b'l', b'e', 0, 0, 0, // empty child IFD
        0, 0, 0, 4, // unsupported child IFD next-pointer
    ];
    let mut metadata = 6u32.to_be_bytes().to_vec();
    metadata.extend_from_slice(b"Exif\0\0");
    metadata.extend_from_slice(&tiff);

    let extracted = tiff_from_heic_metadata(&metadata).expect("HEIF EXIF offset must locate the TIFF header");
    assert_eq!(extracted, tiff);

    let info = parse_exif_bytes(extracted).expect("a malformed optional IFD must not discard valid IFD0 tags");
    assert_eq!(info.make.as_deref(), Some("Apple"));
}

// ---- grafting ------------------------------------------------------------------------

#[test]
fn test_exif_graft_exif_preserves_app1_after_reencode() {
    let tiff = build_tiff_with_gps(0x1234);
    let jpeg = jpeg_with_exif(&tiff);
    let stripped = strip_gps_metadata(&jpeg).unwrap();
    assert!(extract_exif_tiff(&stripped).is_some());
    let encoded = strip_all_metadata(&jpeg).unwrap();
    assert!(!encoded.windows(2).any(|w| w == [0xFF, 0xE1]));
    let grafted = rewrite_exif_metadata(&encoded, &stripped, false).unwrap();
    assert!(grafted.windows(2).any(|w| w == [0xFF, 0xE1]));
    assert!(!grafted.windows(4).any(|w| w == 0x1234u32.to_le_bytes()));
}

#[test]
fn test_exif_metadata_graft_exif_preserves_app1_after_reencode() {
    let tiff = build_tiff_with_gps(0x1234);
    let jpeg = jpeg_with_exif(&tiff);
    let stripped = strip_gps_metadata(&jpeg).unwrap();
    assert!(extract_exif_tiff(&stripped).is_some());
    let encoded = strip_all_metadata(&jpeg).unwrap();
    assert!(!encoded.windows(2).any(|w| w == [0xFF, 0xE1]));
    let grafted = rewrite_exif_metadata(&encoded, &stripped, false).unwrap();
    assert!(grafted.windows(2).any(|w| w == [0xFF, 0xE1]));
    assert!(!grafted.windows(4).any(|w| w == 0x1234u32.to_le_bytes()));
}

fn encoded_jpeg() -> Vec<u8> {
    let mut img = RgbImage::new(8, 8);
    for pixel in img.pixels_mut() {
        *pixel = image::Rgb([1, 2, 3]);
    }
    let mut encoded = Vec::new();
    let mut enc = image::codecs::jpeg::JpegEncoder::new_with_quality(&mut encoded, 90);
    enc.encode(img.as_raw(), img.width(), img.height(), image::ExtendedColorType::Rgb8).unwrap();
    encoded
}

#[test]
fn test_exif_graft_exif_preserves_app1_on_real_jpeg_encode() {
    let encoded = encoded_jpeg();
    let tiff = build_tiff_with_gps(0x1234);
    let jpeg = jpeg_with_exif(&tiff);
    let stripped = strip_gps_metadata(&jpeg).unwrap();
    let grafted = rewrite_exif_metadata(&encoded, &stripped, false).unwrap();
    assert!(grafted.windows(2).any(|w| w == [0xFF, 0xE1]));
}

#[test]
fn test_exif_metadata_graft_exif_preserves_app1_on_real_jpeg_encode() {
    let encoded = encoded_jpeg();
    let tiff = build_tiff_with_gps(0x1234);
    let jpeg = jpeg_with_exif(&tiff);
    let stripped = strip_gps_metadata(&jpeg).unwrap();
    let grafted = rewrite_exif_metadata(&encoded, &stripped, false).unwrap();
    assert!(grafted.windows(2).any(|w| w == [0xFF, 0xE1]));
}

#[test]
fn test_rewrite_exif_metadata() {
    let tiff = build_tiff_with_gps(0x1234);
    let jpeg = jpeg_with_exif(&tiff);
    let stripped_all = strip_all_metadata(&jpeg).unwrap();
    let source_stripped = strip_gps_metadata(&jpeg).unwrap();
    let grafted = rewrite_exif_metadata(&stripped_all, &source_stripped, false).unwrap();
    assert!(grafted.windows(2).any(|w| w == [0xFF, 0xE1]));
    assert!(!grafted.windows(4).any(|w| w == 0x1234u32.to_le_bytes()));
}

#[test]
fn test_inject_exif_too_small() {
    let small = b"II*";
    let valid = b"II\x2A\x00\x08\x00\x00\x00\x00\x00\x00\x00";
    let result = inject_exif_into_tiff(small, valid).unwrap();
    assert_eq!(result, small);
}

#[test]
fn test_inject_exif_merges_unique_tags() {
    let dest = vec![
        0x49, 0x49, 0x2A, 0x00, // "II", 42
        0x08, 0x00, 0x00, 0x00, // IFD0 at offset 8
        0x01, 0x00, // Count: 1 entry
        0x00, 0x01, 0x04, 0x00, 0x01, 0x00, 0x00, 0x00, 0x08, 0x00, 0x00, 0x00, // Tag 0x0100
        0x00, 0x00, 0x00, 0x00, // Next IFD = 0
    ];
    let source = vec![
        0x49, 0x49, 0x2A, 0x00, 0x08, 0x00, 0x00, 0x00, 0x02, 0x00, // Count: 2 entries
        0x00, 0x01, 0x04, 0x00, 0x01, 0x00, 0x00, 0x00, 0x08, 0x00, 0x00, 0x00, // Tag 0x0100
        0x01, 0x01, 0x04, 0x00, 0x01, 0x00, 0x00, 0x00, 0x08, 0x00, 0x00, 0x00, // Tag 0x0101
        0x00, 0x00, 0x00, 0x00,
    ];
    let grafted = inject_exif_into_tiff(&dest, &source).unwrap();
    assert!(grafted.len() > dest.len());
    let new_ifd_offset = u32::from_le_bytes([grafted[4], grafted[5], grafted[6], grafted[7]]) as usize;
    assert_eq!(new_ifd_offset, dest.len());
    let count = u16::from_le_bytes([grafted[new_ifd_offset], grafted[new_ifd_offset + 1]]);
    assert_eq!(count, 2);
}

#[test]
fn inject_exif_into_odd_length_tiff_starts_ifd0_on_a_word_boundary() {
    let mut dest = vec![
        0x49, 0x49, 0x2A, 0x00, 0x08, 0x00, 0x00, 0x00, 0x01, 0x00, //
        0x00, 0x01, 0x04, 0x00, 0x01, 0x00, 0x00, 0x00, 0x08, 0x00, 0x00, 0x00, //
        0x00, 0x00, 0x00, 0x00,
    ];
    dest.push(0); // odd length
    let source = build_tiff_le(&[(0x0101, 4, 8)]);
    let grafted = inject_exif_into_tiff(&dest, &source).unwrap();
    let new_ifd_offset = u32::from_le_bytes([grafted[4], grafted[5], grafted[6], grafted[7]]) as usize;
    assert_eq!(new_ifd_offset % 2, 0);
    assert_eq!(new_ifd_offset, dest.len() + 1);
}

fn hex_bytes(s: &str) -> Vec<u8> {
    (0..s.len()).step_by(2).map(|i| u8::from_str_radix(&s[i..i + 2], 16).unwrap()).collect()
}

#[test]
fn strip_tiff_metadata_twice_reaches_an_ifd_uncovered_by_the_first_pass() {
    // IFD1 (at 16) holds a Make entry whose twelve bytes cover the entry
    // count of IFD0 (at 40).  The first pass clears it after walking IFD0;
    // the second pass then reads IFD0 as empty, follows a next pointer that
    // lies in its old entry table to offset 48, and clears a Make entry there.
    let mut hex = String::from("49492a0028000000000000000000000003000101030001000000000000000f01");
    hex.push_str("0200000000000000020030000000000001000f01000000010000000000000000");
    hex.push_str("000010000000");
    let source = hex_bytes(&hex);
    assert_eq!(source.len(), 70);
    let once = strip_tiff_metadata(&source).unwrap();
    assert_eq!(&once[30..42], &[0u8; 12]);
    assert_eq!(&once[50..52], &[0x0F, 0x01]);
    let twice = strip_tiff_metadata(&once).unwrap();
    assert_eq!(&twice[50..62], &[0u8; 12]);
    assert_ne!(once, twice);
}

#[test]
fn metadata_only_copy_drops_layout_and_grayscale_colour_tags() {
    // ImageWidth, Make (short, for the test), StripOffsets, WhitePoint (as a
    // short), Orientation.
    let source = build_tiff_le(&[(0x0100, 3, 8), (0x010F, 3, 5), (0x0111, 4, 64), (0x013E, 3, 2), (0x0112, 3, 6)]);
    let tags = |t: &[u8]| -> Vec<u16> {
        let n = u16::from_le_bytes([t[8], t[9]]) as usize;
        (0..n).map(|j| u16::from_le_bytes([t[10 + 12 * j], t[11 + 12 * j]])).collect()
    };
    let colour = extract_tiff_metadata_only(&source, false);
    assert_eq!(&colour[4..8], &[8, 0, 0, 0]);
    assert_eq!(tags(&colour), vec![0x010F, 0x013E, 0x0112]);
    let gray = extract_tiff_metadata_only(&source, true);
    assert_eq!(tags(&gray), vec![0x010F, 0x0112]);
    // Values are kept.
    assert_eq!(&gray[10..22], &source[22..34]);
}
