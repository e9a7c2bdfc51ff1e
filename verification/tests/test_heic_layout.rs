use bat_img_rs::exif::heic::{
    boxes, exif_box_payload, extract_heic_exif_raw, extract_heic_exif_tiff, find_tiff_header,
    replace_heic_exif_payload, strip_all_heic_metadata, tiff_from_heic_metadata,
};

use bat_img_rs::exif::extract::extract_exif_tiff;
use bat_img_rs::exif::metadata::rewrite::{strip_all_metadata, strip_gps_metadata};
use bat_img_rs::exif::metadata::tiff_edit::strip_gps_from_tiff;

const EXIF_HEADER: &[u8] = b"Exif\0\0";

/// Little-endian TIFF whose IFD0 holds one out-of-line UNDEFINED value of
/// `blob_len` bytes (like a MakerNote).  Total length is `26 + blob_len`.
fn tiff_with_blob(blob_len: usize) -> Vec<u8> {
    let mut t = b"II\x2A\x00\x08\x00\x00\x00".to_vec();
    t.extend_from_slice(&1u16.to_le_bytes());
    t.extend_from_slice(&0x927Cu16.to_le_bytes());
    t.extend_from_slice(&7u16.to_le_bytes());
    t.extend_from_slice(&(blob_len as u32).to_le_bytes());
    t.extend_from_slice(&26u32.to_le_bytes());
    t.extend_from_slice(&0u32.to_le_bytes());
    t.extend(std::iter::repeat_n(0xEEu8, blob_len));
    t
}

fn bmff_box(kind: &[u8; 4], payload: &[u8]) -> Vec<u8> {
    let mut b = ((payload.len() + 8) as u32).to_be_bytes().to_vec();
    b.extend_from_slice(kind);
    b.extend_from_slice(payload);
    b
}

/// ftyp + meta{ Exif box } + mdat.
fn heic_with_exif_box(tiff: &[u8]) -> Vec<u8> {
    let mut exif_payload = vec![0u8; 4]; // version/flags
    exif_payload.extend_from_slice(tiff);
    let mut meta_payload = vec![0u8; 4]; // version/flags
    meta_payload.extend(bmff_box(b"Exif", &exif_payload));
    let mut file = bmff_box(b"ftyp", b"heic\0\0\0\0mif1heic");
    file.extend(bmff_box(b"meta", &meta_payload));
    file.extend(bmff_box(b"mdat", &[0x55; 16]));
    file
}

/// ftyp + mdat holding `Exif\0\0` + `tiff` between two runs of filler (no
/// `Exif` box).  Returns (file, tiff offset).
fn heic_with_exif_item(tiff: &[u8]) -> (Vec<u8>, usize) {
    let mut payload = vec![0x55u8; 64];
    payload.extend_from_slice(EXIF_HEADER);
    let tiff_offset_in_payload = payload.len();
    payload.extend_from_slice(tiff);
    payload.extend(std::iter::repeat_n(0x66u8, 64));
    let mut file = bmff_box(b"ftyp", b"heic\0\0\0\0mif1heic");
    let tiff_offset = file.len() + 8 + tiff_offset_in_payload;
    file.extend(bmff_box(b"mdat", &payload));
    (file, tiff_offset)
}

#[test]
fn boxes_support_64bit_and_to_end_of_file_sizes() {
    let mut f = bmff_box(b"ftyp", b"heic");
    let mut big = 1u32.to_be_bytes().to_vec(); // "largesize" form
    big.extend_from_slice(b"free");
    big.extend_from_slice(&20u64.to_be_bytes());
    big.extend_from_slice(&[0; 4]);
    f.extend(big);
    let mut last = 0u32.to_be_bytes().to_vec(); // runs to the end of the file
    last.extend_from_slice(b"mdat");
    last.extend_from_slice(&[7; 5]);
    f.extend(last);

    let kinds: Vec<[u8; 4]> = boxes(&f, 0, f.len()).iter().map(|b| b.0).collect();
    assert_eq!(kinds, vec![*b"ftyp", *b"free", *b"mdat"]);
    let (_, payload, end) = *boxes(&f, 0, f.len()).last().unwrap();
    assert_eq!((payload, end), (f.len() - 5, f.len()));
}

#[test]
fn boxes_reject_lying_or_tiny_sizes() {
    // Claims 256 bytes, has 8.
    assert_eq!(boxes(&[0, 0, 1, 0, b'm', b'e', b't', b'a'], 0, 8).len(), 0);
    // Size smaller than its own header.
    assert_eq!(boxes(&[0, 0, 0, 4, b'm', b'e', b't', b'a'], 0, 8).len(), 0);
    // A meta box too small to hold its version/flags never yields an Exif box.
    let meta_only = bmff_box(b"meta", &[]);
    assert_eq!(exif_box_payload(&meta_only), None);
}

#[test]
fn exif_box_smaller_than_a_fullbox_header_does_not_underflow() {
    // Exif box with an 8-byte size (no room for version/flags).
    let mut meta_payload = vec![0u8; 4];
    meta_payload.extend(bmff_box(b"Exif", &[]));
    let file = bmff_box(b"meta", &meta_payload);
    assert_eq!(exif_box_payload(&file), None);
    assert!(extract_heic_exif_raw(&file).is_none());
}

#[test]
fn find_tiff_header_prefers_the_exif_prefixed_block() {
    let mut data = vec![0u8; 16];
    data.extend_from_slice(b"II\x2A\x00\x01\x02\x03\x04"); // stray magic at 16
    assert_eq!(find_tiff_header(&data), Some(16));

    data.extend_from_slice(EXIF_HEADER);
    let real = data.len();
    data.extend_from_slice(b"MM\x00\x2A\x00\x00\x00\x08\x00\x00\x00\x00");
    assert_eq!(find_tiff_header(&data), Some(real));

    assert_eq!(find_tiff_header(b"nothing to see here"), None);
    assert_eq!(find_tiff_header(b"II"), None);
}

#[test]
fn extract_covers_box_and_item_layouts() {
    let tiff = tiff_with_blob(200);

    let boxed = heic_with_exif_box(&tiff);
    assert_eq!(extract_heic_exif_raw(&boxed).unwrap(), tiff);
    assert_eq!(extract_heic_exif_tiff(&boxed).unwrap(), tiff);

    let (item, offset) = heic_with_exif_item(&tiff);
    // Raw: from the header to the end of the file, image data and all.
    assert_eq!(extract_heic_exif_raw(&item).unwrap(), item[offset..]);
    // Exact: just the TIFF block.
    assert_eq!(extract_heic_exif_tiff(&item).unwrap(), tiff);
}

#[test]
fn replace_rejects_a_block_that_does_not_fit() {
    let tiff = tiff_with_blob(16);
    let heic = heic_with_exif_box(&tiff);
    let mut longer = tiff.clone();
    longer.push(0);
    assert!(replace_heic_exif_payload(&heic, &longer).is_err());
    assert!(replace_heic_exif_payload(b"no exif here", &tiff).is_err());
}

#[test]
fn replace_shorter_block_zero_pads_inside_the_box_and_keeps_layout() {
    let tiff = tiff_with_blob(16);
    let heic = heic_with_exif_box(&tiff);
    let range = exif_box_payload(&heic).unwrap();
    let shorter = &tiff[..tiff.len() - 4];

    let out = replace_heic_exif_payload(&heic, shorter).unwrap();

    assert_eq!(out.len(), heic.len());
    assert_eq!(exif_box_payload(&out), Some(range)); // box sizes untouched
    assert_eq!(&out[range.0..range.1 - 4], shorter);
    assert_eq!(&out[range.1 - 4..range.1], &[0u8; 4]);
    assert_eq!(&out[range.1..], &heic[range.1..]); // nothing outside the box moved
}

#[test]
fn replace_in_item_layout_never_touches_bytes_after_the_new_block() {
    let tiff = tiff_with_blob(200);
    let (heic, offset) = heic_with_exif_item(&tiff);
    let shorter = &tiff[..10];

    let out = replace_heic_exif_payload(&heic, shorter).unwrap();

    assert_eq!(out.len(), heic.len());
    assert_eq!(&out[offset..offset + 10], shorter);
    assert_eq!(&out[offset + 10..], &heic[offset + 10..]); // no zero fill to EOF
}

#[test]
fn strip_all_blanks_an_item_larger_than_the_minimum_window_and_nothing_more() {
    let tiff = tiff_with_blob(3000);
    let (heic, offset) = heic_with_exif_item(&tiff);

    let out = strip_all_heic_metadata(&heic).unwrap();

    assert_eq!(out.len(), heic.len());
    assert!(!out.contains(&0xEE), "part of the EXIF block survived");
    assert!(out[offset..offset + tiff.len()].iter().all(|&b| b == 0));
    assert_eq!(&out[..offset], &heic[..offset]); // leading image bytes intact
    assert_eq!(&out[offset + tiff.len()..], &heic[offset + tiff.len()..]); // trailing too
    assert_eq!(find_tiff_header(&out), None);
}

#[test]
fn strip_all_zeroes_the_exif_box_and_renames_it() {
    let tiff = tiff_with_blob(16);
    let heic = heic_with_exif_box(&tiff);

    let out = strip_all_heic_metadata(&heic).unwrap();

    assert_eq!(out.len(), heic.len());
    assert!(!out.windows(4).any(|w| w == b"Exif"));
    assert!(out.windows(4).any(|w| w == b"free"));
    assert!(out.windows(4).any(|w| w == b"meta"));
    assert_eq!(exif_box_payload(&out), None);
    assert_eq!(find_tiff_header(&out), None);
}

#[test]
fn tiff_from_heic_metadata_handles_all_three_layouts() {
    let tiff = tiff_with_blob(4);
    let mut prefixed = EXIF_HEADER.to_vec();
    prefixed.extend_from_slice(&tiff);
    assert_eq!(tiff_from_heic_metadata(&prefixed), Some(tiff.as_slice()));
    assert_eq!(tiff_from_heic_metadata(&tiff), Some(tiff.as_slice()));

    let mut with_offset = 2u32.to_be_bytes().to_vec(); // skip two junk bytes
    with_offset.extend_from_slice(b"xx");
    with_offset.extend_from_slice(&tiff);
    assert_eq!(tiff_from_heic_metadata(&with_offset), Some(tiff.as_slice()));

    assert_eq!(tiff_from_heic_metadata(b"invalid"), None);
    assert_eq!(tiff_from_heic_metadata(&[]), None);
}

#[test]
fn heic_exif_box_reads_back_without_gps_after_strip() {
    let mut tiff: Vec<u8> = vec![b'I', b'I', 0x2A, 0x00, 0x08, 0x00, 0x00, 0x00];
    tiff.extend_from_slice(&2u16.to_le_bytes());
    for (tag, typ, val) in [(0x0112u16, 3u16, 1u32), (0x8825, 4, 0x1234)] {
        tiff.extend_from_slice(&tag.to_le_bytes());
        tiff.extend_from_slice(&typ.to_le_bytes());
        tiff.extend_from_slice(&1u32.to_le_bytes());
        tiff.extend_from_slice(&val.to_le_bytes());
    }
    tiff.extend_from_slice(&0u32.to_le_bytes());
    let heic = heic_with_exif_box(&tiff);
    assert_eq!(extract_exif_tiff(&heic).unwrap(), tiff);
    let out = strip_gps_metadata(&heic).unwrap();
    assert_eq!(out.len(), heic.len());
    let expected = strip_gps_from_tiff(&tiff).unwrap();
    assert_ne!(expected, tiff);
    assert_eq!(extract_exif_tiff(&out).unwrap(), expected);
}

#[test]
fn heic_strip_all_twice_changes_nothing() {
    let heic = heic_with_exif_box(&tiff_with_blob(8));
    let once = strip_all_heic_metadata(&heic).unwrap();
    assert_eq!(once.len(), heic.len());
    assert_eq!(&once[..12], &heic[..12]);
    assert_eq!(strip_all_heic_metadata(&once).unwrap(), once);
}

#[test]
fn heic_strip_all_twice_renames_an_exif_completed_by_the_first_pass() {
    // Renaming `Exif` to `free` left to right turns `ExiExif` into
    // `Exifree`: a new `Exif` right before the renamed one, which the second
    // pass then renames.
    let mut exif_payload = vec![0u8; 4];
    exif_payload.extend_from_slice(&tiff_with_blob(8));
    let mut meta_payload = vec![0u8; 4];
    meta_payload.extend(bmff_box(b"Exif", &exif_payload));
    meta_payload.extend(bmff_box(b"skip", b"ExiExif"));
    let mut heic = bmff_box(b"ftyp", b"heic\0\0\0\0mif1heic");
    heic.extend(bmff_box(b"meta", &meta_payload));
    let once = strip_all_heic_metadata(&heic).unwrap();
    assert!(once.windows(7).any(|w| w == b"Exifree"));
    let twice = strip_all_heic_metadata(&once).unwrap();
    assert!(twice.windows(7).any(|w| w == b"freeree"));
    assert_ne!(once, twice);
}

#[test]
fn heic_strip_all_leaves_nothing_to_extract() {
    let heic = heic_with_exif_box(&tiff_with_blob(8));
    assert!(extract_exif_tiff(&heic).is_some());
    let out = strip_all_metadata(&heic).unwrap();
    assert!(extract_exif_tiff(&out).is_none());
}
