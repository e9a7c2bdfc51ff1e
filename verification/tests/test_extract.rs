use bat_img_rs::exif::container::{is_jpeg, is_png, is_tiff, is_webp};
use bat_img_rs::exif::extract::extract_exif_tiff;
use bat_img_rs::exif::metadata::rewrite::{rewrite_exif_metadata, strip_all_metadata, strip_gps_metadata};
use bat_img_rs::exif::metadata::tiff_edit::strip_gps_from_tiff;

const PREFIX: &[u8] = b"Exif\0\0";

fn png_with_exif_chunk(exif: &[u8]) -> Vec<u8> {
    let mut out = Vec::new();
    out.extend_from_slice(b"\x89PNG\r\n\x1a\n");
    out.extend_from_slice(&(exif.len() as u32).to_be_bytes());
    out.extend_from_slice(b"eXIf");
    out.extend_from_slice(exif);
    out.extend_from_slice(&0u32.to_be_bytes());
    out.extend_from_slice(&0u32.to_be_bytes());
    out.extend_from_slice(b"IEND");
    out.extend_from_slice(&0u32.to_be_bytes());
    out
}

fn webp_with_exif_chunk(exif: &[u8]) -> Vec<u8> {
    let mut body = Vec::new();
    body.extend_from_slice(b"EXIF");
    body.extend_from_slice(&(exif.len() as u32).to_le_bytes());
    body.extend_from_slice(exif);
    if exif.len() % 2 == 1 {
        body.push(0);
    }
    let file_size = 4 + body.len();
    let mut out = Vec::new();
    out.extend_from_slice(b"RIFF");
    out.extend_from_slice(&(file_size as u32).to_le_bytes());
    out.extend_from_slice(b"WEBP");
    out.extend_from_slice(&body);
    out
}

fn build_tiff_le(entries: &[(u16, u16, u16)]) -> Vec<u8> {
    let mut buf: Vec<u8> = vec![b'I', b'I', 0x2A, 0x00, 0x08, 0x00, 0x00, 0x00];
    buf.extend_from_slice(&(entries.len() as u16).to_le_bytes());
    for &(tag, typ, val) in entries {
        buf.extend_from_slice(&tag.to_le_bytes());
        buf.extend_from_slice(&typ.to_le_bytes());
        buf.extend_from_slice(&1u32.to_le_bytes());
        buf.extend_from_slice(&(val as u32).to_le_bytes());
    }
    buf.extend_from_slice(&0u32.to_le_bytes());
    buf
}

fn jpeg_with_exif(tiff: &[u8]) -> Vec<u8> {
    let payload_len = PREFIX.len() + tiff.len();
    let seg_len = (payload_len + 2) as u16;
    let mut jpeg = vec![0xFF, 0xD8, 0xFF, 0xE1];
    jpeg.extend_from_slice(&seg_len.to_be_bytes());
    jpeg.extend_from_slice(PREFIX);
    jpeg.extend_from_slice(tiff);
    jpeg.extend_from_slice(&[0xFF, 0xD9]);
    jpeg
}

fn build_tiff_with_gps(gps_offset: u32) -> Vec<u8> {
    let mut buf: Vec<u8> = vec![b'I', b'I', 0x2A, 0x00, 0x08, 0x00, 0x00, 0x00];
    buf.extend_from_slice(&2u16.to_le_bytes());
    buf.extend_from_slice(&0x0112u16.to_le_bytes());
    buf.extend_from_slice(&3u16.to_le_bytes());
    buf.extend_from_slice(&1u32.to_le_bytes());
    buf.extend_from_slice(&1u32.to_le_bytes());
    buf.extend_from_slice(&0x8825u16.to_le_bytes());
    buf.extend_from_slice(&4u16.to_le_bytes());
    buf.extend_from_slice(&1u32.to_le_bytes());
    buf.extend_from_slice(&gps_offset.to_le_bytes());
    buf.extend_from_slice(&0u32.to_le_bytes());
    buf
}

fn mock_heic_with_exif(tiff_payload: &[u8]) -> Vec<u8> {
    let mut bytes = Vec::new();
    bytes.extend_from_slice(&12u32.to_be_bytes());
    bytes.extend_from_slice(b"ftypheic");
    let meta_box_len = (8 + 4 + tiff_payload.len()) as u32;
    bytes.extend_from_slice(&meta_box_len.to_be_bytes());
    bytes.extend_from_slice(b"meta");
    bytes.extend_from_slice(&[0, 0, 0, 0]);
    bytes.extend_from_slice(tiff_payload);
    bytes
}

fn sample_tiff() -> Vec<u8> {
    build_tiff_with_gps(0x1234).to_vec()
}

/// The same EXIF block wrapped in each container.
fn all_formats(tiff: &[u8]) -> Vec<(&'static str, Vec<u8>)> {
    vec![
        ("jpeg", jpeg_with_exif(tiff)),
        ("png", png_with_exif_chunk(tiff)),
        ("webp", webp_with_exif_chunk(tiff)),
        ("tiff", tiff.to_vec()),
        ("heic", mock_heic_with_exif(tiff)),
    ]
}

#[test]
fn test_is_jpeg() {
    let jpeg = vec![0xFF, 0xD8, 0xFF, 0xE0];
    assert!(is_jpeg(&jpeg));
    assert!(!is_jpeg(b"PNG"));
}

#[test]
fn test_is_png() {
    let png = b"\x89PNG\r\n\x1a\n";
    assert!(is_png(png));
    assert!(!is_png(b"JPEG"));
}

#[test]
fn test_is_tiff() {
    let tiff_le = b"II\x2A\x00";
    let tiff_be = b"MM\x00\x2A";
    assert!(is_tiff(tiff_le));
    assert!(is_tiff(tiff_be));
    assert!(!is_tiff(b"TIFF"));
}

#[test]
fn test_is_webp() {
    let webp = b"RIFF....WEBP";
    assert!(is_webp(webp));
    assert!(!is_webp(b"WEBP"));
}

#[test]
fn test_extract_exif_tiff_jpeg() {
    let tiff = build_tiff_le(&[(0x0112, 3, 1)]);
    let jpeg = jpeg_with_exif(&tiff);
    let extracted = extract_exif_tiff(&jpeg).unwrap();
    assert_eq!(extracted, tiff);
    let no_exif = vec![0xFF, 0xD8, 0xFF, 0xD9];
    assert!(extract_exif_tiff(&no_exif).is_none());
}

#[test]
fn test_extract_exif_tiff_png() {
    let tiff = build_tiff_le(&[(0x0112, 3, 1)]);
    let png = png_with_exif_chunk(&tiff);
    assert_eq!(extract_exif_tiff(&png).unwrap(), tiff);
}

#[test]
fn test_extract_exif_tiff_webp() {
    let tiff = build_tiff_le(&[(0x0112, 3, 1)]);
    let webp = webp_with_exif_chunk(&tiff);
    assert_eq!(extract_exif_tiff(&webp).unwrap(), tiff);
}

#[test]
fn test_extract_exif_tiff_tiff() {
    let tiff = build_tiff_le(&[(0x0112, 3, 1)]);
    assert_eq!(extract_exif_tiff(&tiff).unwrap(), tiff);
}

#[test]
fn images_without_exif_yield_none() {
    let no_exif: Vec<(&str, Vec<u8>)> = vec![
        ("jpeg", vec![0xFF, 0xD8, 0xFF, 0xD9]),
        ("png", [&b"\x89PNG\r\n\x1a\n"[..], &b"\x00\x00\x00\x00IEND\xAE\x42\x60\x82"[..]].concat()),
        ("webp", b"RIFF\x04\x00\x00\x00WEBP".to_vec()),
        ("heic", b"\x00\x00\x00\x10ftypheic\x00\x00\x00\x00".to_vec()),
        ("garbage", b"this is not an image".to_vec()),
        ("empty", Vec::new()),
    ];
    for (name, bytes) in no_exif {
        assert!(extract_exif_tiff(&bytes).is_none(), "{name}");
    }
}

#[test]
fn every_prefix_of_every_format_is_handled_without_panicking() {
    let tiff = sample_tiff();
    for (name, bytes) in all_formats(&tiff) {
        for n in 0..=bytes.len() {
            let _ = extract_exif_tiff(&bytes[..n]);
        }
        let whole = extract_exif_tiff(&bytes).unwrap_or_default();
        assert!(!whole.is_empty(), "{name}");
    }
    let heic = mock_heic_with_exif(&tiff);
    for n in 0..=heic.len() {
        let _ = strip_all_metadata(&heic[..n]);
    }
}

#[test]
fn exif_prefix_inside_png_and_webp_chunks_is_dropped() {
    let tiff = sample_tiff();
    let mut prefixed = PREFIX.to_vec();
    prefixed.extend_from_slice(&tiff);
    assert_eq!(extract_exif_tiff(&png_with_exif_chunk(&prefixed)).unwrap(), tiff);
    assert_eq!(extract_exif_tiff(&webp_with_exif_chunk(&prefixed)).unwrap(), tiff);
}

fn app1(payload: &[u8]) -> Vec<u8> {
    let mut segment = vec![0xFF, 0xE1];
    segment.extend_from_slice(&((payload.len() + 2) as u16).to_be_bytes());
    segment.extend_from_slice(payload);
    segment
}

#[test]
fn jpeg_extraction_skips_xmp_and_fill_bytes() {
    let tiff = sample_tiff();
    let mut exif_payload = PREFIX.to_vec();
    exif_payload.extend_from_slice(&tiff);

    let mut jpeg = vec![0xFF, 0xD8];
    jpeg.extend(app1(b"http://ns.adobe.com/xap/1.0/\0<x:xmpmeta/>"));
    jpeg.push(0xFF); // fill byte before the next marker
    jpeg.extend(app1(&exif_payload));
    jpeg.extend([0xFF, 0xD9]);

    assert_eq!(extract_exif_tiff(&jpeg).unwrap(), tiff);
}

#[test]
fn strip_all_metadata_removes_exif_from_every_container_format() {
    let tiff = sample_tiff();
    for (name, bytes) in all_formats(&tiff) {
        if name == "tiff" {
            continue; // a TIFF *is* its metadata; only GPS is removed
        }
        let stripped = strip_all_metadata(&bytes).unwrap();
        assert!(extract_exif_tiff(&stripped).is_none(), "{name}: EXIF survived strip_all_metadata");
    }
}

#[test]
fn strip_all_leaves_no_exif_behind_app0_and_app2() {
    let tiff = sample_tiff();
    let mut jpeg = vec![0xFF, 0xD8];
    jpeg.extend([0xFF, 0xE0, 0x00, 0x07, b'J', b'F', b'I', b'F', 0x00]);
    let mut exif_payload = PREFIX.to_vec();
    exif_payload.extend_from_slice(&tiff);
    jpeg.extend([0xFF, 0xE1]);
    jpeg.extend(((exif_payload.len() + 2) as u16).to_be_bytes());
    jpeg.extend(&exif_payload);
    jpeg.extend([0xFF, 0xE2, 0x00, 0x04, 0x01, 0x02]);
    jpeg.extend([0xFF, 0xDA, 0x00, 0x02, 0x11, 0x22, 0xFF, 0xD9]);
    assert!(extract_exif_tiff(&jpeg).is_some());
    let stripped = strip_all_metadata(&jpeg).unwrap();
    assert!(extract_exif_tiff(&stripped).is_none());
    // APP0 and the scan survive.
    assert_eq!(&stripped[2..11], &[0xFF, 0xE0, 0x00, 0x07, b'J', b'F', b'I', b'F', 0x00]);
    assert_eq!(&stripped[11..], &[0xFF, 0xDA, 0x00, 0x02, 0x11, 0x22, 0xFF, 0xD9]);
}

#[test]
fn strip_all_keeps_exif_behind_a_fill_byte() {
    // The strip walks segment by segment and does not skip fill bytes, while
    // extraction does: an APP1 announced after a fill byte survives.
    let tiff = sample_tiff();
    let mut exif_payload = PREFIX.to_vec();
    exif_payload.extend_from_slice(&tiff);
    let mut jpeg = vec![0xFF, 0xD8, 0xFF, 0xFF, 0xE1];
    jpeg.extend(((exif_payload.len() + 2) as u16).to_be_bytes());
    jpeg.extend(&exif_payload);
    jpeg.extend([0xFF, 0xD9]);
    let stripped = strip_all_metadata(&jpeg).unwrap();
    assert_eq!(extract_exif_tiff(&stripped).unwrap(), tiff);
}

#[test]
fn strip_all_of_damaged_png_keeps_it() {
    let tiff = sample_tiff();
    let mut png = png_with_exif_chunk(&tiff);
    png.push(0);
    let stripped = strip_all_metadata(&png).unwrap();
    assert_eq!(stripped, png);
    assert_eq!(extract_exif_tiff(&stripped).unwrap(), tiff);
}

#[test]
fn strip_all_twice_changes_nothing_for_png_and_webp() {
    let tiff = sample_tiff();
    let mut png = b"\x89PNG\r\n\x1a\n".to_vec();
    for (kind, data) in [(&b"IHDR"[..], &[1u8, 2, 3][..]), (b"tEXt", b"k\0v"), (b"eXIf", &tiff[..]), (b"IDAT", &[9u8; 5][..])] {
        png.extend_from_slice(&(data.len() as u32).to_be_bytes());
        png.extend_from_slice(kind);
        png.extend_from_slice(data);
        png.extend_from_slice(&[0, 0, 0, 0]);
    }
    let once = strip_all_metadata(&png).unwrap();
    assert_eq!(once.len(), 8 + (12 + 3) + (12 + 5));
    assert!(once.len() <= png.len());
    assert_eq!(strip_all_metadata(&once).unwrap(), once);

    let mut webp = webp_with_exif_chunk(&tiff);
    webp.extend_from_slice(b"VP8 ");
    webp.extend_from_slice(&3u32.to_le_bytes());
    webp.extend_from_slice(&[1, 2, 3, 0]);
    let size = (webp.len() - 8) as u32;
    webp[4..8].copy_from_slice(&size.to_le_bytes());
    let once = strip_all_metadata(&webp).unwrap();
    assert_eq!(once, b"RIFF\x10\x00\x00\x00WEBPVP8 \x03\x00\x00\x00\x01\x02\x03\x00".to_vec());
    assert!(once.len() <= webp.len());
    assert_eq!(strip_all_metadata(&once).unwrap(), once);
    assert!(extract_exif_tiff(&once).is_none());
}

#[test]
fn strip_all_twice_keeps_a_marker_left_at_the_end() {
    // An RST marker followed by only two bytes: the bytes after the last
    // whole segment are kept, so both passes give the file back.
    let jpeg = vec![0xFF, 0xD8, 0xFF, 0xD0, 0x00, 0x00];
    let once = strip_all_metadata(&jpeg).unwrap();
    assert_eq!(once, jpeg);
    assert_eq!(strip_all_metadata(&once).unwrap(), once);
}

#[test]
fn strip_all_keeps_the_trailing_eoi() {
    let jpeg = jpeg_with_exif(&build_tiff_le(&[(0x0112, 3, 1)]));
    let stripped = strip_all_metadata(&jpeg).unwrap();
    assert_eq!(stripped, vec![0xFF, 0xD8, 0xFF, 0xD9]);
    assert_eq!(strip_all_metadata(&stripped).unwrap(), stripped);
}

#[test]
fn strip_all_keeps_webp_image_chunks_byte_for_byte() {
    let tiff = sample_tiff();
    let mut webp = b"RIFF\0\0\0\0WEBP".to_vec();
    webp.extend_from_slice(b"VP8L");
    webp.extend_from_slice(&1u32.to_le_bytes());
    webp.extend_from_slice(&[0x2F, 0x00]);
    webp.extend_from_slice(b"EXIF");
    webp.extend_from_slice(&(tiff.len() as u32).to_le_bytes());
    webp.extend_from_slice(&tiff);
    webp.extend_from_slice(b"XMP ");
    webp.extend_from_slice(&2u32.to_le_bytes());
    webp.extend_from_slice(b"<x");
    let size = (webp.len() - 8) as u32;
    webp[4..8].copy_from_slice(&size.to_le_bytes());
    let once = strip_all_metadata(&webp).unwrap();
    assert_eq!(once, b"RIFF\x0e\x00\x00\x00WEBPVP8L\x01\x00\x00\x00\x2f\x00".to_vec());
    assert_eq!(u32::from_le_bytes(once[4..8].try_into().unwrap()) as usize, once.len() - 8);
    assert!(extract_exif_tiff(&once).is_none());
    assert_eq!(strip_all_metadata(&once).unwrap(), once);
}

#[test]
fn strip_all_pads_an_odd_webp_chunk_that_ends_the_file() {
    // The last chunk has an odd size and no padding byte: the rebuilt file
    // adds it, so it is one byte longer than the input.
    let mut webp = b"RIFF\0\0\0\0WEBP".to_vec();
    webp.extend_from_slice(b"VP8L");
    webp.extend_from_slice(&1u32.to_le_bytes());
    webp.push(0x2F);
    let size = (webp.len() - 8) as u32;
    webp[4..8].copy_from_slice(&size.to_le_bytes());
    let once = strip_all_metadata(&webp).unwrap();
    assert_eq!(once.len(), webp.len() + 1);
    assert_eq!(&once[12..21], &webp[12..21]);
    assert_eq!(once[21], 0);
}

#[test]
fn strip_all_twice_changes_nothing_for_a_stable_jpeg() {
    let tiff = sample_tiff();
    let mut jpeg = vec![0xFF, 0xD8];
    jpeg.extend([0xFF, 0xE0, 0x00, 0x04, 0x4A, 0x46]);
    jpeg.extend([0xFF, 0xE1]);
    let mut payload = PREFIX.to_vec();
    payload.extend_from_slice(&tiff);
    jpeg.extend(((payload.len() + 2) as u16).to_be_bytes());
    jpeg.extend(&payload);
    jpeg.extend([0xFF, 0xDB, 0x00, 0x03, 0x07]);
    jpeg.extend([0xFF, 0xDA, 0x00, 0x02, 0x33, 0x44, 0x55, 0xFF, 0xD9]);
    let once = strip_all_metadata(&jpeg).unwrap();
    assert_eq!(
        once,
        vec![0xFF, 0xD8, 0xFF, 0xE0, 0x00, 0x04, 0x4A, 0x46, 0xFF, 0xDB, 0x00, 0x03, 0x07, 0xFF, 0xDA, 0x00, 0x02, 0x33, 0x44, 0x55, 0xFF, 0xD9]
    );
    assert_eq!(strip_all_metadata(&once).unwrap(), once);
}

#[test]
fn strip_gps_then_extract_gives_the_stripped_block() {
    let tiff = sample_tiff();
    let stripped_tiff = strip_gps_from_tiff(&tiff).unwrap();
    assert_ne!(stripped_tiff, tiff);
    // The GPS entry is gone: one entry left, the orientation, unchanged.
    assert_eq!(&stripped_tiff[8..10], &[1, 0]);
    assert_eq!(&stripped_tiff[10..22], &tiff[10..22]);
    assert_eq!(stripped_tiff.len(), tiff.len());
    for (name, bytes) in [
        ("png", png_with_exif_chunk(&tiff)),
        ("webp", webp_with_exif_chunk(&tiff)),
        ("tiff", tiff.clone()),
    ] {
        let out = strip_gps_metadata(&bytes).unwrap();
        assert_eq!(extract_exif_tiff(&out).unwrap(), stripped_tiff, "{name}");
    }
}

#[test]
fn strip_gps_leaves_a_prefixed_png_exif_chunk_alone() {
    // The GPS strip reads the chunk data as a bare TIFF block; with the
    // `Exif\0\0` prefix in front it finds none and changes nothing.
    let tiff = sample_tiff();
    let mut prefixed = PREFIX.to_vec();
    prefixed.extend_from_slice(&tiff);
    let png = png_with_exif_chunk(&prefixed);
    let out = strip_gps_metadata(&png).unwrap();
    assert_eq!(extract_exif_tiff(&out).unwrap(), tiff);
}

#[test]
fn grafted_exif_reads_back_from_jpeg_png_and_webp() {
    let source = jpeg_with_exif(&build_tiff_le(&[(0x0112, 3, 6), (0x0110, 3, 7)]));
    let expected = build_tiff_le(&[(0x0112, 3, 1), (0x0110, 3, 7)]);

    let jpeg = vec![0xFF, 0xD8, 0xFF, 0xDA, 0x00, 0x02, 0x11, 0xFF, 0xD9];
    let mut png = b"\x89PNG\r\n\x1a\n".to_vec();
    for (kind, data) in [(&b"IHDR"[..], &[0u8; 13][..]), (b"IEND", &[][..])] {
        png.extend_from_slice(&(data.len() as u32).to_be_bytes());
        png.extend_from_slice(kind);
        png.extend_from_slice(data);
        png.extend_from_slice(&[0, 0, 0, 0]);
    }
    let mut webp = b"RIFF\x10\x00\x00\x00WEBPVP8 \x02\x00\x00\x00\x07\x08".to_vec();
    assert_eq!(webp.len(), 22);
    webp[4] = 14;

    for (name, out) in [("jpeg", jpeg), ("png", png), ("webp", webp)] {
        let grafted = rewrite_exif_metadata(&out, &source, false).unwrap();
        assert_eq!(extract_exif_tiff(&grafted).unwrap(), expected, "{name}");
    }
}

#[test]
fn strip_gps_of_a_heic_branded_jpeg_takes_the_jpeg_path() {
    // A JPEG whose first APP1 length field and payload happen to read
    // "ftypheic": it is HEIC-branded too, but stripped as a JPEG, where every
    // EXIF APP1 becomes the first one without GPS, so the length changes.
    let mut jpeg = vec![0xFF, 0xD8, 0xFF, 0xE1];
    jpeg.extend_from_slice(b"ftypheic");
    let first_end = 4 + 0x6674;
    jpeg.resize(first_end, 0);
    jpeg.extend(app1(&[PREFIX, &sample_tiff()[..]].concat()));
    jpeg.extend(app1(&[PREFIX, &build_tiff_le(&[(0x0112, 3, 1)])[..]].concat()));
    jpeg.extend([0xFF, 0xD9]);
    assert!(is_jpeg(&jpeg));
    assert!(bat_img_rs::heic::is_heic_bytes(&jpeg));
    let stripped = strip_gps_metadata(&jpeg).unwrap();
    assert_ne!(stripped.len(), jpeg.len());
}
