use bat_img_rs::heic::{heic_codec_for, heic_exif_item_body, is_heic, pack_rows, place_rows, HeicCodec};
use bat_img_rs::pipeline::{is_image, strips_gps};

#[test]
fn heif_files_are_written_with_av1_and_others_with_hevc() {
    assert_eq!(heic_codec_for("out.heif"), HeicCodec::Av1);
    assert_eq!(heic_codec_for("dir/OUT.HEIF"), HeicCodec::Av1);
    assert_eq!(heic_codec_for("out.heic"), HeicCodec::Hevc);
    assert_eq!(heic_codec_for("heif"), HeicCodec::Hevc);
    assert_eq!(heic_codec_for(".heif"), HeicCodec::Hevc);
}

#[test]
fn extensions_are_read_after_the_last_dot_of_the_name() {
    assert!(is_heic("a.b.HeIf"));
    assert!(!is_heic("heic"));
    assert!(!is_heic(".heic"));
    assert!(!is_heic("photo.heic.jpg"));
    assert!(is_image("photo.JPG"));
    assert!(is_image("scan.Tif"));
    assert!(!is_image("notes.txt"));
    assert!(!is_image("jpg"));
}

#[test]
fn plane_rows_are_packed_without_their_padding() {
    // Two rows of three bytes, four bytes apart.
    let data = [1u8, 2, 3, 0, 4, 5, 6];
    assert_eq!(pack_rows(&data, 4, 3, 2), vec![1, 2, 3, 4, 5, 6]);
    assert_eq!(pack_rows(&data, 4, 3, 0), Vec::<u8>::new());
}

#[test]
fn plane_rows_are_placed_stride_apart() {
    let dst = [9u8; 8];
    let raw = [1u8, 2, 3, 4, 5, 6];
    assert_eq!(place_rows(&dst, 4, &raw, 3, 2), vec![1, 2, 3, 9, 4, 5, 6, 9]);
    assert_eq!(place_rows(&dst, 4, &raw, 3, 0), dst.to_vec());
}

#[test]
fn gps_goes_whenever_all_metadata_goes() {
    assert!(strips_gps(true, false));
    assert!(strips_gps(false, true));
    assert!(!strips_gps(false, false));
}

#[test]
fn extensions_come_from_the_last_component_of_a_path() {
    assert!(is_heic("in/dir/sample.HEIC"));
    assert!(is_heic("/abs/photo.heif"));
    assert!(is_heic("dir.jpg/photo.heic//"));
    assert!(is_heic("photo.heic/."));
    assert!(!is_heic("photo.heic/.."));
    assert!(!is_heic("dir.heic/photo"));
    assert!(!is_heic("dir/.heic"));
    assert!(is_image("shots/2024/a.PNG"));
    assert!(!is_image("shots.png/notes"));
    assert_eq!(heic_codec_for("out/dir/x.HEIF"), HeicCodec::Av1);
    assert_eq!(heic_codec_for("out.heif/x.heic"), HeicCodec::Hevc);
}

#[test]
fn heif_exif_items_lose_their_offset_field() {
    assert_eq!(heic_exif_item_body(vec![0, 0, 0, 0, b'I', b'I']), vec![b'I', b'I']);
    assert_eq!(heic_exif_item_body(vec![1, 2, 3, 4]), vec![1, 2, 3, 4]);
    assert_eq!(heic_exif_item_body(vec![]), Vec::<u8>::new());
}
