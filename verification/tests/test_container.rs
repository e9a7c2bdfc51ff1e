use bat_img_rs::exif::container::is_webp;
use bat_img_rs::exif::extract::extract_exif_tiff;
use bat_img_rs::exif::jpeg::jpeg_segments;
use bat_img_rs::exif::png::{foreach_png_chunk_mut, png_chunks, png_crc32, rewrite_png_chunks};
use bat_img_rs::exif::tiff::{read_short_tag_from_tiff, tiff_extent};
use bat_img_rs::exif::webp::{rebuild_webp_chunks, webp_chunks};

const PNG_SIG: [u8; 8] = [0x89, 0x50, 0x4E, 0x47, 0x0D, 0x0A, 0x1A, 0x0A];

/// Little-endian TIFF whose IFD0 holds one out-of-line UNDEFINED value of
/// `blob_len` bytes (like a MakerNote).  Total length is `26 + blob_len`.
fn tiff_with_blob(blob_len: usize) -> Vec<u8> {
    let mut t = b"II\x2A\x00\x08\x00\x00\x00".to_vec();
    t.extend_from_slice(&1u16.to_le_bytes());
    t.extend_from_slice(&0x927Cu16.to_le_bytes());
    t.extend_from_slice(&7u16.to_le_bytes());
    t.extend_from_slice(&(blob_len as u32).to_le_bytes());
    t.extend_from_slice(&26u32.to_le_bytes());
    t.extend_from_slice(&0u32.to_le_bytes());
    t.extend(std::iter::repeat_n(0xEEu8, blob_len));
    t
}

/// IFD0 -> ExifOffset -> Exif IFD holding a 100-byte value.  144 bytes long.
fn tiff_with_exif_subifd() -> Vec<u8> {
    let mut t = b"II\x2A\x00\x08\x00\x00\x00".to_vec();
    t.extend_from_slice(&1u16.to_le_bytes());
    t.extend_from_slice(&[0x69, 0x87, 4, 0, 1, 0, 0, 0, 26, 0, 0, 0]);
    t.extend_from_slice(&[0; 4]);
    t.extend_from_slice(&1u16.to_le_bytes());
    t.extend_from_slice(&[0x7C, 0x92, 7, 0, 100, 0, 0, 0, 44, 0, 0, 0]);
    t.extend_from_slice(&[0; 4]);
    t.extend(std::iter::repeat_n(0xEEu8, 100));
    t
}

fn png_chunk(kind: &[u8; 4], data: &[u8]) -> Vec<u8> {
    let mut c = (data.len() as u32).to_be_bytes().to_vec();
    c.extend_from_slice(kind);
    c.extend_from_slice(data);
    let crc = png_crc32(&c[4..]);
    c.extend_from_slice(&crc.to_be_bytes());
    c
}

fn webp_with(chunks: &[([u8; 4], Vec<u8>)]) -> Vec<u8> {
    let mut body = b"WEBP".to_vec();
    for (fourcc, payload) in chunks {
        body.extend_from_slice(fourcc);
        body.extend_from_slice(&(payload.len() as u32).to_le_bytes());
        body.extend_from_slice(payload);
        if payload.len() % 2 == 1 {
            body.push(0);
        }
    }
    let mut out = b"RIFF".to_vec();
    out.extend_from_slice(&(body.len() as u32).to_le_bytes());
    out.extend(body);
    out
}

fn png_kinds(png: &[u8]) -> Vec<[u8; 4]> {
    png_chunks(png)
        .iter()
        .map(|&(start, _)| [png[start + 4], png[start + 5], png[start + 6], png[start + 7]])
        .collect()
}

fn webp_found(webp: &[u8]) -> Vec<([u8; 4], Vec<u8>)> {
    webp_chunks(webp)
        .iter()
        .map(|&(start, len)| {
            (
                [webp[start], webp[start + 1], webp[start + 2], webp[start + 3]],
                webp[start + 8..start + 8 + len].to_vec(),
            )
        })
        .collect()
}

#[test]
fn tiff_extent_covers_out_of_line_values() {
    let t = tiff_with_blob(3000);
    assert_eq!(tiff_extent(&t), Some(26 + 3000));
    // Whatever follows the block in the surrounding file is not included.
    let mut padded = t.clone();
    padded.extend(std::iter::repeat_n(0x66u8, 64));
    assert_eq!(tiff_extent(&padded), Some(t.len()));
}

#[test]
fn tiff_extent_follows_sub_ifds() {
    let t = tiff_with_exif_subifd();
    assert_eq!(t.len(), 144);
    assert_eq!(tiff_extent(&t), Some(144));
}

#[test]
fn tiff_extent_survives_cycles_bad_pointers_and_non_tiff() {
    // IFD0 whose next-IFD pointer refers back to itself.
    let mut cyclic = b"II\x2A\x00\x08\x00\x00\x00".to_vec();
    cyclic.extend_from_slice(&0u16.to_le_bytes());
    cyclic.extend_from_slice(&8u32.to_le_bytes());
    assert_eq!(tiff_extent(&cyclic), Some(14));

    // A value that claims to live far beyond the end is clamped to the input.
    let mut t = tiff_with_blob(10);
    t[18..22].copy_from_slice(&0xFFFF_FF00u32.to_le_bytes());
    assert_eq!(tiff_extent(&t), Some(t.len()));

    assert_eq!(tiff_extent(b"not a tiff at all"), None);
    assert_eq!(tiff_extent(b"II\x2A\x00"), None);
}

#[test]
fn read_short_tag_reads_both_byte_orders() {
    let le = [
        b'I', b'I', 42, 0, 8, 0, 0, 0, 1, 0, 0x12, 0x01, 3, 0, 1, 0, 0, 0, 6, 0, 0, 0, 0, 0, 0, 0,
    ];
    assert_eq!(read_short_tag_from_tiff(&le, 0x0112), Some(6));
    assert_eq!(read_short_tag_from_tiff(&le, 0x0110), None);
    let be = [
        b'M', b'M', 0, 42, 0, 0, 0, 8, 0, 1, 0x01, 0x12, 0, 3, 0, 0, 0, 1, 0, 8, 0, 0, 0, 0, 0, 0,
    ];
    assert_eq!(read_short_tag_from_tiff(&be, 0x0112), Some(8));
    assert_eq!(read_short_tag_from_tiff(b"II", 0x0112), None);
}

#[test]
fn jpeg_segments_handle_fill_bytes_standalone_markers_and_sos() {
    let jpeg = [
        0xFF, 0xD8, // SOI
        0xFF, 0xFF, 0xFF, 0xE0, 0x00, 0x04, b'J', b'F', // fill bytes, then APP0
        0xFF, 0x01, // TEM: standalone marker, no length
        0xFF, 0xE1, 0x00, 0x03, b'X', // APP1
        0xFF, 0xDA, 0x00, 0x02, // SOS: headers end here
        0xFF, 0xE1, 0x00, 0x03, b'Y', // must never be seen
    ];
    let segments: Vec<(u8, Vec<u8>)> = jpeg_segments(&jpeg)
        .iter()
        .map(|&(marker, start, end)| (marker, jpeg[start..end].to_vec()))
        .collect();
    assert_eq!(
        segments,
        vec![(0xE0, b"JF".to_vec()), (0x01, vec![]), (0xE1, b"X".to_vec())]
    );
}

#[test]
fn jpeg_truncated_or_corrupt_segments_do_not_panic() {
    // Segment length runs far past the end of the file.
    assert!(extract_exif_tiff(&[0xFF, 0xD8, 0xFF, 0xE1, 0xFF, 0xFF, b'E']).is_none());
    // Segment length below the minimum of 2.
    assert!(extract_exif_tiff(&[0xFF, 0xD8, 0xFF, 0xE1, 0x00, 0x01, 0, 0]).is_none());
    // Not a marker at all.
    assert!(extract_exif_tiff(&[0xFF, 0xD8, 0x12, 0x34, 0x56, 0x78]).is_none());
    assert!(extract_exif_tiff(&[0xFF, 0xD8]).is_none());
}

#[test]
fn png_chunks_stop_at_a_truncated_chunk() {
    let mut png = PNG_SIG.to_vec();
    png.extend(png_chunk(b"tEXt", b"hi"));
    png.extend(png_chunk(b"IDAT", &[1, 2, 3, 4]));
    png.pop(); // chop the last byte of the final CRC

    assert_eq!(png_kinds(&png), vec![*b"tEXt"]);
    // A damaged file is never rewritten.
    assert_eq!(rewrite_png_chunks(&png, |_, _| false), png);
}

#[test]
fn png_rewrite_drops_unwanted_chunks_only() {
    let mut png = PNG_SIG.to_vec();
    png.extend(png_chunk(b"IHDR", &[0; 13]));
    png.extend(png_chunk(b"eXIf", b"II*\0"));
    png.extend(png_chunk(b"IEND", &[]));

    let out = rewrite_png_chunks(&png, |kind, _| kind != b"eXIf");
    assert_eq!(png_kinds(&out), vec![*b"IHDR", *b"IEND"]);
}

#[test]
fn png_foreach_mut_recomputes_crc() {
    let mut png = PNG_SIG.to_vec();
    png.extend(png_chunk(b"eXIf", b"abcd"));
    foreach_png_chunk_mut(&mut png, |kind, data| {
        if kind == b"eXIf" {
            vec![0u8; data.len()]
        } else {
            data.to_vec()
        }
    })
    .unwrap();

    let (start, len) = png_chunks(&png)[0];
    let end = start + 12 + len;
    assert_eq!(&png[start + 8..start + 8 + len], &[0u8; 4]);
    let stored = u32::from_be_bytes(png[end - 4..end].try_into().unwrap());
    assert_eq!(stored, png_crc32(&png[start + 4..end - 4]));
}

#[test]
fn webp_chunks_respect_padding_and_rebuild_keeps_riff_size_correct() {
    let webp = webp_with(&[
        (*b"ABCD", b"xyz".to_vec()), // odd size => one pad byte
        (*b"EXIF", b"II*\0".to_vec()),
    ]);
    assert_eq!(
        webp_found(&webp),
        vec![(*b"ABCD", b"xyz".to_vec()), (*b"EXIF", b"II*\0".to_vec())]
    );

    let rebuilt = rebuild_webp_chunks(&webp, |fourcc, payload| {
        if fourcc != b"ABCD" {
            Some(payload.to_vec())
        } else {
            None
        }
    })
    .unwrap();
    assert!(is_webp(&rebuilt));
    let riff_size = u32::from_le_bytes(rebuilt[4..8].try_into().unwrap()) as usize;
    assert_eq!(riff_size, rebuilt.len() - 8);
    let kinds: Vec<[u8; 4]> = webp_found(&rebuilt).into_iter().map(|(f, _)| f).collect();
    assert_eq!(kinds, vec![*b"EXIF"]);
}

#[test]
fn webp_chunk_larger_than_file_ends_iteration() {
    let mut webp = webp_with(&[(*b"EXIF", b"II*\0".to_vec())]);
    webp[16..20].copy_from_slice(&0x00FF_FFFFu32.to_le_bytes()); // absurd chunk size
    assert_eq!(webp_chunks(&webp).len(), 0);
    assert!(extract_exif_tiff(&webp).is_none());
}

#[test]
fn png_crc32_matches_the_standard_check_value() {
    // The CRC-32 of "123456789" is 0xCBF43926.
    assert_eq!(png_crc32(b"123456789"), 0xCBF4_3926);
    // The IEND chunk's CRC as every PNG writer stores it.
    assert_eq!(png_crc32(b"IEND"), 0xAE42_6082);
}
