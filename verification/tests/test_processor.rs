use bat_img_rs::cli::OutputFormat;
use bat_img_rs::info::{aperture_text, easy_file_sz, exposure_text, focal_length_text};
use bat_img_rs::pipeline::ResizeSpec;
use bat_img_rs::processor::{
    encoder_for, exif_orientation, exif_to_keep, fast_path_bytes, is_metadata_only, keeps_format,
    orientation_fix, output_file_name, resize_plan, takes_fast_path, temp_file_name, Encoder,
    JobSteps, OrientationFix, ResizePlan,
};

// ---- easy_file_sz ----------------------------------------------------------------------

#[test]
fn test_bytes() {
    assert_eq!(easy_file_sz(0), "0 B");
    assert_eq!(easy_file_sz(512), "512 B");
    assert_eq!(easy_file_sz(1023), "1023 B");
}

#[test]
fn test_kilobytes() {
    assert_eq!(easy_file_sz(1024), "1 KB");
    assert_eq!(easy_file_sz(1500), "1 KB");
    assert_eq!(easy_file_sz(2000), "2 KB");
}

#[test]
fn test_megabytes() {
    assert_eq!(easy_file_sz(1_048_576), "1.0 MB");
    assert_eq!(easy_file_sz(1_572_864), "1.5 MB");
}

#[test]
fn test_gigabytes() {
    assert_eq!(easy_file_sz(1_073_741_824), "1.0 GB");
    assert_eq!(easy_file_sz(2_684_354_560), "2.5 GB");
}

#[test]
fn test_terabyte_overflow() {
    assert_eq!(easy_file_sz(1_099_511_627_776), "1024.0 GB");
}

#[test]
fn file_sizes_round_at_the_unit_boundaries() {
    // 1535.5 bytes would be the midpoint: 1536 B rounds up to 2 KB.
    assert_eq!(easy_file_sz(1535), "1 KB");
    assert_eq!(easy_file_sz(1536), "2 KB");
    // Just under 1 MiB still shows KB, rounded up to 1024.
    assert_eq!(easy_file_sz(1_048_575), "1024 KB");
    // 1.25 MiB is a tie at one decimal: to the even digit.
    assert_eq!(easy_file_sz(1_310_720), "1.2 MB");
    assert_eq!(easy_file_sz(1_415_578), "1.4 MB");
    assert_eq!(easy_file_sz(u64::MAX), "17179869184.0 GB");
}

// ---- job decisions -----------------------------------------------------------------------

fn steps() -> JobSteps {
    JobSteps {
        strip_gps: false,
        strip_all: false,
        resize: false,
        rotate: false,
        flip_h: false,
        flip_v: false,
        border: false,
        brightness: false,
        contrast: false,
        sharpen: false,
        grayscale: false,
        convert: false,
    }
}

fn jpeg_with_orientation(o: u16) -> Vec<u8> {
    let mut tiff: Vec<u8> = vec![b'I', b'I', 0x2A, 0x00, 0x08, 0x00, 0x00, 0x00, 1, 0];
    tiff.extend_from_slice(&0x0112u16.to_le_bytes());
    tiff.extend_from_slice(&3u16.to_le_bytes());
    tiff.extend_from_slice(&1u32.to_le_bytes());
    tiff.extend_from_slice(&(o as u32).to_le_bytes());
    tiff.extend_from_slice(&0u32.to_le_bytes());
    let mut jpeg = vec![0xFF, 0xD8, 0xFF, 0xE1];
    jpeg.extend_from_slice(&((tiff.len() + 8) as u16).to_be_bytes());
    jpeg.extend_from_slice(b"Exif\0\0");
    jpeg.extend_from_slice(&tiff);
    jpeg.extend_from_slice(&[0xFF, 0xD9]);
    jpeg
}

#[test]
fn metadata_only_jobs() {
    assert!(!is_metadata_only(&steps()));
    let gps = JobSteps { strip_gps: true, ..steps() };
    assert!(is_metadata_only(&gps));
    let all = JobSteps { strip_all: true, ..steps() };
    assert!(is_metadata_only(&all));
    assert!(!is_metadata_only(&JobSteps { resize: true, ..gps }));
    assert!(!is_metadata_only(&JobSteps { convert: true, ..all }));
    assert!(!is_metadata_only(&JobSteps { contrast: true, ..all }));
}

#[test]
fn rotated_photos_leave_the_fast_path() {
    let gps = JobSteps { strip_gps: true, ..steps() };
    assert!(takes_fast_path(&gps, &jpeg_with_orientation(1)));
    assert!(!takes_fast_path(&gps, &jpeg_with_orientation(6)));
    assert!(takes_fast_path(&gps, b"not an image"));
    assert!(!takes_fast_path(&steps(), &jpeg_with_orientation(1)));
}

#[test]
fn fast_path_bytes_strip_or_pass_through() {
    let jpeg = jpeg_with_orientation(3);
    assert_eq!(fast_path_bytes(false, false, jpeg.clone()).unwrap(), jpeg);
    let all = fast_path_bytes(true, true, jpeg.clone()).unwrap();
    // The EXIF segment goes, SOI and EOI stay.
    assert_eq!(all, vec![0xFF, 0xD8, 0xFF, 0xD9]);
    let gps = fast_path_bytes(false, true, jpeg.clone()).unwrap();
    assert_eq!(gps.len(), jpeg.len());
}

#[test]
fn exif_orientation_is_read_only_when_metadata_is_stripped() {
    let jpeg = jpeg_with_orientation(8);
    assert_eq!(exif_orientation(false, true, &jpeg), 8);
    assert_eq!(exif_orientation(true, true, &jpeg), 1);
    assert_eq!(exif_orientation(false, false, &jpeg), 1);
    assert_eq!(exif_orientation(false, true, b"none"), 1);
}

#[test]
fn exif_kept_for_the_output() {
    let jpeg = jpeg_with_orientation(1);
    assert_eq!(exif_to_keep(true, true, &jpeg).unwrap(), None);
    assert_eq!(exif_to_keep(false, false, &jpeg).unwrap(), Some(jpeg.clone()));
    assert_eq!(exif_to_keep(false, false, &[]).unwrap(), None);
    assert_eq!(exif_to_keep(false, true, b"plain").unwrap(), Some(b"plain".to_vec()));
}

#[test]
fn orientation_fixes() {
    let none = OrientationFix { rotate: 0, flip_h: false, flip_v: false };
    assert_eq!(orientation_fix(1), none);
    assert_eq!(orientation_fix(9), none);
    assert_eq!(orientation_fix(2), OrientationFix { rotate: 0, flip_h: true, flip_v: false });
    assert_eq!(orientation_fix(4), OrientationFix { rotate: 0, flip_h: false, flip_v: true });
    assert_eq!(orientation_fix(5), OrientationFix { rotate: 90, flip_h: true, flip_v: false });
    assert_eq!(orientation_fix(6), OrientationFix { rotate: 90, flip_h: false, flip_v: false });
    assert_eq!(orientation_fix(7), OrientationFix { rotate: 270, flip_h: true, flip_v: false });
    assert_eq!(orientation_fix(8), OrientationFix { rotate: 270, flip_h: false, flip_v: false });
}

#[test]
fn resize_plans() {
    let spec = ResizeSpec { width: 800, height: 0 };
    assert_eq!(
        resize_plan(1600, 1200, &spec, false),
        Some(ResizePlan { width: 800, height: 600, exact: false })
    );
    // Both sides larger than the source image: skipped under no-upscale.
    let big = ResizeSpec { width: 400, height: 400 };
    assert_eq!(resize_plan(200, 100, &big, true), None);
    assert_eq!(
        resize_plan(200, 100, &big, false),
        Some(ResizePlan { width: 400, height: 400, exact: true })
    );
    // Only one side larger: still done.
    let wide = ResizeSpec { width: 400, height: 50 };
    assert_eq!(
        resize_plan(200, 100, &wide, true),
        Some(ResizePlan { width: 400, height: 50, exact: true })
    );
}

// ---- output naming ---------------------------------------------------------------------

#[test]
fn prefix_applied_to_output_filename() {
    // The output name of `photo.jpg` with prefix `web_`.
    let name = output_file_name("web_", Some("photo"), "", None, Some("jpg"));
    assert!(name.starts_with("web_"));
    assert_eq!(name, "web_photo.jpg");
    // The extension is lower-cased.
    assert_eq!(output_file_name("web_", Some("photo"), "", None, Some("JPG")), "web_photo.jpg");
}

#[test]
fn suffix_applied_to_output_filename() {
    // The output name of `photo.jpg` with suffix `_sm`.
    let name = output_file_name("", Some("photo"), "_sm", None, Some("jpg"));
    let stem = name.rsplit_once('.').unwrap().0.to_string();
    assert!(stem.ends_with("_sm"), "stem was: {stem}");
    assert_eq!(name, "photo_sm.jpg");
    assert_eq!(output_file_name("", Some("photo"), "_sm", Some(OutputFormat::Png), Some("jpg")), "photo_sm.png");
}

#[test]
fn output_name_defaults() {
    assert_eq!(output_file_name("", None, "", None, None), "image.jpg");
    assert_eq!(output_file_name("a", Some("b"), "c", Some(OutputFormat::Webp), None), "abc.webp");
}

#[test]
fn in_place_format_changes() {
    assert!(keeps_format("JPEG", OutputFormat::Jpeg));
    assert!(keeps_format("jpg", OutputFormat::Jpeg));
    assert!(keeps_format("tif", OutputFormat::Tiff));
    assert!(keeps_format("png", OutputFormat::Png));
    assert!(!keeps_format("jpg", OutputFormat::Webp));
    assert!(!keeps_format("heic", OutputFormat::Heif));
}

#[test]
fn temp_names_and_encoders() {
    assert_eq!(temp_file_name("IMG_1", "heic"), "IMG_1.heic.bat_img_tmp");
    assert_eq!(encoder_for("heif"), Encoder::Heif);
    assert_eq!(encoder_for("jpeg"), Encoder::Jpeg);
    assert_eq!(encoder_for("tif"), Encoder::Tiff);
    assert_eq!(encoder_for("webp"), Encoder::Webp);
    assert_eq!(encoder_for("png"), Encoder::Png);
    assert_eq!(encoder_for("bmp"), Encoder::ByPath);
}

// ---- report texts ------------------------------------------------------------------------

#[test]
fn exif_value_texts_are_cleaned() {
    assert_eq!(exposure_text("1/348 s"), "1/348");
    assert_eq!(exposure_text("  1/60 ss "), "1/60");
    assert_eq!(aperture_text("f/f/1.7799999713880652"), "1.7799999713880652");
    assert_eq!(aperture_text(" f/2.8000"), "2.8000");
    assert_eq!(aperture_text("ff 4"), "4");
    assert_eq!(focal_length_text("6.764999866370901 mm"), "6.764999866370901");
    assert_eq!(focal_length_text("24mmmm"), "24");
    assert_eq!(focal_length_text("35 m"), "35 m");
}
