//! Batch image processing: byte-level EXIF/ICC handling for JPEG, PNG, WebP,
//! TIFF and HEIC containers, plus the pure decisions of the processing
//! pipeline (resize arithmetic, colour parsing, output naming).
use vstd::prelude::*;

pub mod bytes;
pub mod error;
pub mod exif;
pub mod heic;
pub mod info;
pub mod text;
pub mod cli;
pub mod pipeline;
pub mod processor;
pub mod report;
