# bat_img_rs

A multithreaded batch image processor (strip GPS or all metadata, resize,
rotate, flip, border, format conversion) whose byte-level metadata handling
and processing decisions are a verified library.

## Layout

- `src/` — the library, verified with Verus:
  - `bytes.rs`, `text.rs`: bounds-checked integer access, string building
    and trimming;
  - `exif/`: container walking (JPEG segments, PNG chunks, WebP RIFF chunks,
    TIFF IFDs, HEIF boxes), EXIF extraction, GPS and metadata stripping,
    EXIF grafting, ICC profile names and image details;
  - `pipeline.rs`, `processor.rs`, `info.rs`, `cli.rs`, `heic.rs`: option
    validation, the per-file decisions, report texts, output naming.
- `tests/` — tests of the library.
- `app/` — the program: argument parsing, file and directory walking, the
  thread pool, pixel operations and codecs of the `image` crate, HEIF
  through `libheif-rs`, and the terminal report.
