//! EXIF, ICC and container handling on raw image bytes.
pub mod container;
pub mod extract;
pub mod heic;
pub mod icc;
pub mod image_details;
pub mod jpeg;
pub mod metadata;
pub mod parser;
pub mod png;
pub mod tiff;
pub mod webp;

pub use container::{is_jpeg, is_png, is_tiff, is_webp};
pub use extract::extract_exif_tiff;
pub use heic::{extract_heic_exif_raw, replace_heic_exif_payload, tiff_from_heic_metadata};
pub use metadata::{
    inject_exif_into_tiff, rewrite_exif_metadata, strip_all_metadata, strip_gps_from_tiff,
    strip_gps_metadata, strip_tiff_metadata,
};
pub use parser::{parse_exif_bytes, read_orientation, ExifInfo};
