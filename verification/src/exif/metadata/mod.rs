//! Metadata stripping and rewriting on raw image bytes.
pub mod guard;
pub mod jpeg_edit;
pub mod png_edit;
pub mod rewrite;
pub mod tiff_copy;
pub mod tiff_edit;
pub mod tiff_graft;
pub mod webp_edit;

pub use rewrite::{rewrite_exif_metadata, strip_all_metadata, strip_gps_metadata};
pub use tiff_edit::{strip_gps_from_tiff, strip_tiff_metadata};
pub use tiff_graft::inject_exif_into_tiff;
