use bat_img_rs::exif::icc::{get_icc_profile_name, icc_input_safe, parse_icc_profile_name};
use bat_img_rs::exif::image_details::{get_image_details, ColorType};
use image::RgbImage;

/// An ICC profile whose only tag is a `desc` description holding `name`.
fn mock_icc_profile(name: &str) -> Vec<u8> {
    let mut icc = vec![0u8; 128];
    icc.extend_from_slice(&1u32.to_be_bytes()); // one tag
    icc.extend_from_slice(b"desc");
    icc.extend_from_slice(&144u32.to_be_bytes()); // offset
    icc.extend_from_slice(&((12 + name.len()) as u32).to_be_bytes()); // size
    icc.extend_from_slice(b"desc");
    icc.extend_from_slice(&[0, 0, 0, 0]);
    icc.extend_from_slice(&(name.len() as u32).to_be_bytes());
    icc.extend_from_slice(name.as_bytes());
    icc
}

fn build_tiff_le(entries: &[(u16, u16, u16)]) -> Vec<u8> {
    let mut buf: Vec<u8> = vec![b'I', b'I', 0x2A, 0x00, 0x08, 0x00, 0x00, 0x00];
    buf.extend_from_slice(&(entries.len() as u16).to_le_bytes());
    for &(tag, typ, val) in entries {
        buf.extend_from_slice(&tag.to_le_bytes());
        buf.extend_from_slice(&typ.to_le_bytes());
        buf.extend_from_slice(&1u32.to_le_bytes());
        buf.extend_from_slice(&(val as u32).to_le_bytes());
    }
    buf.extend_from_slice(&0u32.to_le_bytes());
    buf
}

fn jpeg_with_exif(tiff: &[u8]) -> Vec<u8> {
    let seg_len = (6 + tiff.len() + 2) as u16;
    let mut jpeg = vec![0xFF, 0xD8, 0xFF, 0xE1];
    jpeg.extend_from_slice(&seg_len.to_be_bytes());
    jpeg.extend_from_slice(b"Exif\x00\x00");
    jpeg.extend_from_slice(tiff);
    jpeg.extend_from_slice(&[0xFF, 0xD9]);
    jpeg
}

fn png_with_iccp() -> Vec<u8> {
    let mut png = b"\x89PNG\r\n\x1a\n".to_vec();
    let chunk_data = b"sRGB\0\0fake_compressed_payload";
    png.extend_from_slice(&(chunk_data.len() as u32).to_be_bytes());
    png.extend_from_slice(b"iCCP");
    png.extend_from_slice(chunk_data);
    png.extend_from_slice(&[0, 0, 0, 0]);
    png
}

#[test]
fn test_extract_icc_profile_name_jpeg() {
    let icc = mock_icc_profile("Display P3");
    let mut jpeg = vec![0xFF, 0xD8];
    let app2_len = (14 + icc.len() + 2) as u16;
    jpeg.extend_from_slice(&[0xFF, 0xE2]);
    jpeg.extend_from_slice(&app2_len.to_be_bytes());
    jpeg.extend_from_slice(b"ICC_PROFILE\0");
    jpeg.extend_from_slice(&[1, 1]);
    jpeg.extend_from_slice(&icc);
    jpeg.extend_from_slice(&[0xFF, 0xD9]);

    let details = get_image_details(ColorType::Rgb8, "JPEG", &jpeg);
    assert_eq!(details.c_profile, "Display P3");
}

#[test]
fn test_extract_icc_profile_name_png() {
    let details = get_image_details(ColorType::Rgb8, "PNG", &png_with_iccp());
    assert_eq!(details.c_profile, "sRGB");
}

#[test]
fn test_extract_icc_profile_name_tiff() {
    let icc = mock_icc_profile("ProPhoto RGB");
    let mut tiff = b"II\x2a\x00\x08\x00\x00\x00".to_vec();
    tiff.extend_from_slice(&1u16.to_le_bytes());
    tiff.extend_from_slice(&34675u16.to_le_bytes());
    tiff.extend_from_slice(&7u16.to_le_bytes());
    tiff.extend_from_slice(&(icc.len() as u32).to_le_bytes());
    let payload_offset = 8 + 2 + 12 + 4;
    tiff.extend_from_slice(&(payload_offset as u32).to_le_bytes());
    tiff.extend_from_slice(&[0, 0, 0, 0]);
    tiff.extend_from_slice(&icc);

    let details = get_image_details(ColorType::Rgb8, "TIFF", &tiff);
    assert_eq!(details.c_profile, "ProPhoto RGB");
}

#[test]
fn test_extract_icc_profile_name_heic() {
    let icc = mock_icc_profile("Adobe RGB (1998)");
    let mut heic = Vec::new();
    let box_size = (12 + icc.len()) as u32;
    heic.extend_from_slice(&box_size.to_be_bytes());
    heic.extend_from_slice(b"colr");
    heic.extend_from_slice(b"prof");
    heic.extend_from_slice(&icc);

    let details = get_image_details(ColorType::Rgb8, "HEIC", &heic);
    assert_eq!(details.c_profile, "Adobe RGB (1998)");
}

#[test]
fn test_get_icc_profile_name() {
    let name = get_icc_profile_name("PNG", &png_with_iccp()).unwrap();
    assert_eq!(name, "sRGB");
    assert!(get_icc_profile_name("BMP", b"").is_none());
}

#[test]
fn icc_inputs_that_cannot_be_sliced_are_recognised() {
    // An APP2 ICC segment whose length runs past the end of the file.
    let mut jpeg = vec![0xFF, 0xD8, 0xFF, 0xE2, 0x01, 0x00];
    jpeg.extend_from_slice(b"ICC_PROFILE\0");
    assert!(!icc_input_safe("JPEG", &jpeg));
    assert!(icc_input_safe("PNG", &jpeg));
    // A PNG iCCP chunk longer than the file.
    let mut png = b"\x89PNG\r\n\x1a\n".to_vec();
    png.extend_from_slice(&1000u32.to_be_bytes());
    png.extend_from_slice(b"iCCP");
    png.extend_from_slice(b"sRGB\0\0");
    png.extend_from_slice(&[0; 8]);
    assert!(!icc_input_safe("PNG", &png));
    assert!(icc_input_safe("PNG", &png_with_iccp()));
    assert!(icc_input_safe("JPEG", &[0xFF, 0xD8]));
}

#[test]
fn image_details_jpeg_exif_color_space_no_icc_srgb() {
    let jpeg = jpeg_with_exif(&build_tiff_le(&[(0xA001, 3, 1)]));
    let details = get_image_details(ColorType::Rgb8, "JPEG", &jpeg);
    assert_eq!(details.c_profile, "sRGB IEC61966-2.1");
}

#[test]
fn image_details_jpeg_exif_color_space_no_icc_adobe_rgb() {
    let jpeg = jpeg_with_exif(&build_tiff_le(&[(0xA001, 3, 2)]));
    let details = get_image_details(ColorType::Rgb8, "JPEG", &jpeg);
    assert_eq!(details.c_profile, "Adobe RGB (1998)");
}

#[test]
fn image_details_jpeg_exif_color_space_unknown_default() {
    let jpeg = jpeg_with_exif(&build_tiff_le(&[(0xA001, 3, 0)]));
    let details = get_image_details(ColorType::Rgb8, "JPEG", &jpeg);
    assert_eq!(details.c_profile, "sRGB");
}

#[test]
fn image_details_png_with_exif_color_space_does_not_override_icc() {
    let mut png = png_with_iccp();
    let tiff = build_tiff_le(&[(0xA001, 3, 1)]);
    png.extend_from_slice(&(tiff.len() as u32).to_be_bytes());
    png.extend_from_slice(b"eXIf");
    png.extend_from_slice(&tiff);
    png.extend_from_slice(&[0, 0, 0, 0]);
    let details = get_image_details(ColorType::Rgb8, "PNG", &png);
    assert_eq!(details.c_profile, "sRGB");
}

#[test]
fn image_details_jpeg_with_real_file() {
    let img = RgbImage::from_pixel(8, 8, image::Rgb([255, 0, 0]));
    let mut jpeg_bytes = Vec::new();
    let mut encoder = image::codecs::jpeg::JpegEncoder::new_with_quality(&mut jpeg_bytes, 80);
    encoder.encode(img.as_raw(), 8, 8, image::ExtendedColorType::Rgb8).unwrap();

    let details = get_image_details(ColorType::Rgb8, "JPEG", &jpeg_bytes);
    assert_eq!(details.bit_depth, "8 bits/channel");
    assert!(!details.has_alpha);
    assert_eq!(details.colorspace, "YCbCr");
    assert_eq!(details.chroma_format, Some("4:4:4".to_string()));
}

#[test]
fn image_details_png() {
    let img = RgbImage::from_pixel(8, 8, image::Rgb([0, 255, 0]));
    let mut png_bytes = Vec::new();
    img.write_to(&mut std::io::Cursor::new(&mut png_bytes), image::ImageFormat::Png).unwrap();
    let details = get_image_details(ColorType::Rgb8, "PNG", &png_bytes);
    assert_eq!(details.chroma_format, Some("4:4:4".to_string()));
}

#[test]
fn image_details_describe_the_pixel_layout() {
    let details = get_image_details(ColorType::Rgba16, "PNG", b"");
    assert_eq!(details.bit_depth, "16 bits/channel");
    assert!(details.has_alpha);
    let gray = get_image_details(ColorType::La8, "TIFF", b"");
    assert_eq!(gray.bit_depth, "8 bits/channel");
    // Only the RGBA layouts count as having alpha.
    assert!(!gray.has_alpha);
}

/// An ICC profile whose only tag is `desc`, held as a `mluc` record whose
/// string is the UTF-16BE units `units`.
fn icc_with_mluc_desc(units: &[u16]) -> Vec<u8> {
    let mut text = Vec::new();
    for u in units {
        text.extend_from_slice(&u.to_be_bytes());
    }
    let mut payload = b"mluc".to_vec();
    payload.extend_from_slice(&[0; 4]);
    payload.extend_from_slice(&1u32.to_be_bytes()); // one record
    payload.extend_from_slice(&12u32.to_be_bytes()); // record size
    payload.extend_from_slice(b"enUS");
    payload.extend_from_slice(&(text.len() as u32).to_be_bytes());
    payload.extend_from_slice(&28u32.to_be_bytes());
    payload.extend_from_slice(&text);
    let mut icc = vec![0u8; 128];
    icc.extend_from_slice(&1u32.to_be_bytes());
    icc.extend_from_slice(b"desc");
    icc.extend_from_slice(&144u32.to_be_bytes());
    icc.extend_from_slice(&(payload.len() as u32).to_be_bytes());
    icc.extend_from_slice(&payload);
    icc
}

#[test]
fn mluc_names_decode_surrogate_pairs_and_replace_lone_surrogates() {
    // "A", U+1F600 as a surrogate pair, "B"
    let icc = icc_with_mluc_desc(&[0x41, 0xD83D, 0xDE00, 0x42]);
    assert_eq!(parse_icc_profile_name(&icc), Some("A\u{1F600}B".to_string()));
    // A high surrogate followed by "C", and a lone low surrogate
    let icc = icc_with_mluc_desc(&[0x41, 0xD83D, 0x43, 0xDC00]);
    assert_eq!(parse_icc_profile_name(&icc), Some("A\u{FFFD}C\u{FFFD}".to_string()));
}
