use bat_img_rs::exif::container::is_tiff;
use bat_img_rs::exif::extract::extract_exif_tiff;
use bat_img_rs::exif::metadata::rewrite::{rewrite_exif_metadata, strip_gps_metadata};
use bat_img_rs::exif::metadata::tiff_graft::inject_exif_into_tiff;
use bat_img_rs::exif::metadata::tiff_edit::strip_gps_from_tiff;
use bat_img_rs::exif::parser::parse_exif_bytes;
use bat_img_rs::heic::is_heic;

// ---- byte builders ----------------------------------------------------------------

const PREFIX: &[u8] = b"Exif\0\0";

fn crc32(data: &[u8]) -> u32 {
    let mut crc = !0u32;
    for &b in data {
        crc ^= u32::from(b);
        for _ in 0..8 {
            crc = if crc & 1 == 1 { (crc >> 1) ^ 0xEDB8_8320 } else { crc >> 1 };
        }
    }
    !crc
}

/// True when every chunk of the PNG is complete and carries a correct CRC.
fn png_crcs_valid(png: &[u8]) -> bool {
    let mut pos = 8;
    while pos + 12 <= png.len() {
        let len = u32::from_be_bytes(png[pos..pos + 4].try_into().unwrap()) as usize;
        let end = pos + 12 + len;
        if end > png.len() {
            return false;
        }
        let stored = u32::from_be_bytes(png[end - 4..end].try_into().unwrap());
        if stored != crc32(&png[pos + 4..end - 4]) {
            return false;
        }
        pos = end;
    }
    pos == png.len()
}

fn png_with_exif_chunk(exif: &[u8]) -> Vec<u8> {
    let mut out = Vec::new();
    out.extend_from_slice(b"\x89PNG\r\n\x1a\n");
    out.extend_from_slice(&(exif.len() as u32).to_be_bytes());
    out.extend_from_slice(b"eXIf");
    out.extend_from_slice(exif);
    out.extend_from_slice(&0u32.to_be_bytes());
    out.extend_from_slice(&0u32.to_be_bytes());
    out.extend_from_slice(b"IEND");
    out.extend_from_slice(&0u32.to_be_bytes());
    out
}

fn webp_with_exif_chunk(exif: &[u8]) -> Vec<u8> {
    let mut body = Vec::new();
    body.extend_from_slice(b"EXIF");
    body.extend_from_slice(&(exif.len() as u32).to_le_bytes());
    body.extend_from_slice(exif);
    if exif.len() % 2 == 1 {
        body.push(0);
    }
    let file_size = 4 + body.len();
    let mut out = Vec::new();
    out.extend_from_slice(b"RIFF");
    out.extend_from_slice(&(file_size as u32).to_le_bytes());
    out.extend_from_slice(b"WEBP");
    out.extend_from_slice(&body);
    out
}

fn jpeg_with_exif(tiff: &[u8]) -> Vec<u8> {
    let payload_len = PREFIX.len() + tiff.len();
    let seg_len = (payload_len + 2) as u16;
    let mut jpeg = vec![0xFF, 0xD8, 0xFF, 0xE1];
    jpeg.extend_from_slice(&seg_len.to_be_bytes());
    jpeg.extend_from_slice(PREFIX);
    jpeg.extend_from_slice(tiff);
    jpeg.extend_from_slice(&[0xFF, 0xD9]);
    jpeg
}

fn mock_heic_with_exif(tiff_payload: &[u8]) -> Vec<u8> {
    let mut bytes = Vec::new();
    bytes.extend_from_slice(&12u32.to_be_bytes());
    bytes.extend_from_slice(b"ftypheic");
    let meta_box_len = (8 + 4 + tiff_payload.len()) as u32;
    bytes.extend_from_slice(&meta_box_len.to_be_bytes());
    bytes.extend_from_slice(b"meta");
    bytes.extend_from_slice(&[0, 0, 0, 0]);
    bytes.extend_from_slice(tiff_payload);
    bytes
}

/// A little-endian TIFF whose IFD0 holds Make "Apple", Orientation 1 and a
/// GPS pointer to `gps_offset`, where a GPS IFD holding GPSVersionID sits
/// (the tags the assertions below look at).
fn build_tiff_with_gps(gps_offset: u32) -> Vec<u8> {
    let mut buf: Vec<u8> = vec![b'I', b'I', 0x2A, 0x00, 0x08, 0x00, 0x00, 0x00];
    buf.extend_from_slice(&3u16.to_le_bytes());
    // Make = "Apple\0", stored after the IFD at offset 8 + 2 + 3 * 12 + 4 = 50
    buf.extend_from_slice(&0x010Fu16.to_le_bytes());
    buf.extend_from_slice(&2u16.to_le_bytes());
    buf.extend_from_slice(&6u32.to_le_bytes());
    buf.extend_from_slice(&50u32.to_le_bytes());
    // Orientation = 1
    buf.extend_from_slice(&0x0112u16.to_le_bytes());
    buf.extend_from_slice(&3u16.to_le_bytes());
    buf.extend_from_slice(&1u32.to_le_bytes());
    buf.extend_from_slice(&1u32.to_le_bytes());
    // GPSInfoIFDPointer = gps_offset
    buf.extend_from_slice(&0x8825u16.to_le_bytes());
    buf.extend_from_slice(&4u16.to_le_bytes());
    buf.extend_from_slice(&1u32.to_le_bytes());
    buf.extend_from_slice(&gps_offset.to_le_bytes());
    buf.extend_from_slice(&0u32.to_le_bytes());
    buf.extend_from_slice(b"Apple\0");
    // GPS IFD: GPSVersionID 2.2.0.0, no next IFD.
    buf.resize(gps_offset as usize, 0);
    buf.extend_from_slice(&1u16.to_le_bytes());
    buf.extend_from_slice(&0x0000u16.to_le_bytes());
    buf.extend_from_slice(&1u16.to_le_bytes());
    buf.extend_from_slice(&4u32.to_le_bytes());
    buf.extend_from_slice(&[2, 2, 0, 0]);
    buf.extend_from_slice(&0u32.to_le_bytes());
    buf
}

fn sample_tiff() -> Vec<u8> {
    build_tiff_with_gps(0x1234)
}

/// The same EXIF block wrapped in each container.
fn all_formats(tiff: &[u8]) -> Vec<(&'static str, Vec<u8>)> {
    vec![
        ("jpeg", jpeg_with_exif(tiff)),
        ("png", png_with_exif_chunk(tiff)),
        ("webp", webp_with_exif_chunk(tiff)),
        ("tiff", tiff.to_vec()),
        ("heic", mock_heic_with_exif(tiff)),
    ]
}

/// A little-endian TIFF with one IFD0 entry (ImageWidth 1) and no EXIF.
fn build_minimal_tiff() -> Vec<u8> {
    let mut t = Vec::new();
    t.extend_from_slice(b"II\x2A\x00");
    t.extend_from_slice(&8u32.to_le_bytes());
    t.extend_from_slice(&1u16.to_le_bytes());
    t.extend_from_slice(&0x0100u16.to_le_bytes());
    t.extend_from_slice(&3u16.to_le_bytes());
    t.extend_from_slice(&1u32.to_le_bytes());
    t.extend_from_slice(&1u32.to_le_bytes());
    t.extend_from_slice(&0u32.to_le_bytes());
    t
}

/// A little-endian TIFF whose IFD0 points to an Exif sub-IFD holding
/// ColorSpace (0xA001) of type `typ` with value `value`.
fn build_tiff_with_exif_color_space(typ: u16, value: u32) -> Vec<u8> {
    let mut t = Vec::new();
    t.extend_from_slice(b"II\x2A\x00");
    t.extend_from_slice(&8u32.to_le_bytes());
    // IFD0 at 8: one entry, ExifIFDPointer -> 26
    t.extend_from_slice(&1u16.to_le_bytes());
    t.extend_from_slice(&0x8769u16.to_le_bytes());
    t.extend_from_slice(&4u16.to_le_bytes());
    t.extend_from_slice(&1u32.to_le_bytes());
    t.extend_from_slice(&26u32.to_le_bytes());
    t.extend_from_slice(&0u32.to_le_bytes());
    // Exif IFD at 26: ColorSpace
    t.extend_from_slice(&1u16.to_le_bytes());
    t.extend_from_slice(&0xA001u16.to_le_bytes());
    t.extend_from_slice(&typ.to_le_bytes());
    t.extend_from_slice(&1u32.to_le_bytes());
    t.extend_from_slice(&value.to_le_bytes());
    t.extend_from_slice(&0u32.to_le_bytes());
    t
}

/// The ColorSpace value of the first Exif sub-IFD reached from IFD0, read
/// as its entry's type says.
fn find_color_space_value(tiff: &[u8]) -> Option<u32> {
    if tiff.len() < 8 {
        return None;
    }
    let le = &tiff[0..2] == b"II";
    let r16 = |o: usize| -> Option<u16> {
        let b = tiff.get(o..o + 2)?;
        Some(if le { u16::from_le_bytes([b[0], b[1]]) } else { u16::from_be_bytes([b[0], b[1]]) })
    };
    let r32 = |o: usize| -> Option<u32> {
        let b = tiff.get(o..o + 4)?;
        Some(if le { u32::from_le_bytes([b[0], b[1], b[2], b[3]]) } else { u32::from_be_bytes([b[0], b[1], b[2], b[3]]) })
    };
    let find = |ifd: usize, tag: u16| -> Option<usize> {
        let n = r16(ifd)? as usize;
        (0..n).map(|i| ifd + 2 + 12 * i).find(|&e| r16(e) == Some(tag))
    };
    let ifd0 = r32(4)? as usize;
    let exif_entry = find(ifd0, 0x8769)?;
    let exif_ifd = r32(exif_entry + 8)? as usize;
    let cs = find(exif_ifd, 0xA001)?;
    match r16(cs + 2)? {
        3 => r16(cs + 8).map(u32::from),
        _ => r32(cs + 8),
    }
}

// ---- tests ----------------------------------------------------------------------

#[test]
fn strip_gps_keeps_the_rest_of_the_exif_in_every_format() {
    let tiff = sample_tiff();
    for (name, bytes) in all_formats(&tiff) {
        let stripped = strip_gps_metadata(&bytes).unwrap();

        let extracted =
            extract_exif_tiff(&stripped).unwrap_or_else(|| panic!("{name}: EXIF lost while stripping GPS"));
        let info = parse_exif_bytes(&extracted).unwrap();
        assert_eq!(info.make.as_deref(), Some("Apple"), "{name}");
        assert!(!info.gps_present, "{name}: GPS survived");

        if name == "png" && png_crcs_valid(&bytes) {
            assert!(png_crcs_valid(&stripped), "png: CRC broken by rewrite");
        }
    }
}

#[test]
fn test_grayscale_tiff_color_space_long_not_garbled() {
    let output = build_minimal_tiff();
    // ColorSpace as LONG (type 4) with value 1 (sRGB)
    let source = build_tiff_with_exif_color_space(4, 1);

    let result = rewrite_exif_metadata(&output, &source, true).unwrap();

    assert_eq!(
        find_color_space_value(&result),
        Some(0xFFFF),
        "LONG ColorSpace must become 0xFFFF, not a huge bogus value"
    );
}

#[test]
fn test_grayscale_tiff_orientation_long_not_garbled() {
    // Build a TIFF whose IFD0 contains Orientation as LONG (type 4)
    let mut t = Vec::new();
    t.extend_from_slice(b"II\x2A\x00");
    t.extend_from_slice(&8u32.to_le_bytes());
    t.extend_from_slice(&1u16.to_le_bytes()); // 1 entry
    t.extend_from_slice(&0x0112u16.to_le_bytes()); // Orientation
    t.extend_from_slice(&4u16.to_le_bytes()); // LONG
    t.extend_from_slice(&1u32.to_le_bytes());
    t.extend_from_slice(&6u32.to_le_bytes()); // value 6
    t.extend_from_slice(&0u32.to_le_bytes());

    let result = rewrite_exif_metadata(&t, &t, true).unwrap();

    // Orientation should be reset to 1 (0x00000001), not a huge number
    let le = &result[0..2] == b"II";
    let ru32 = |o: usize| {
        if le {
            u32::from_le_bytes([result[o], result[o + 1], result[o + 2], result[o + 3]])
        } else {
            u32::from_be_bytes([result[o], result[o + 1], result[o + 2], result[o + 3]])
        }
    };
    let ifd0 = ru32(4) as usize;
    let cnt = u16::from_le_bytes([result[ifd0], result[ifd0 + 1]]) as usize;
    let mut found = None;
    for i in 0..cnt {
        let e = ifd0 + 2 + i * 12;
        if u16::from_le_bytes([result[e], result[e + 1]]) == 0x0112 {
            found = Some(ru32(e + 8));
        }
    }
    assert_eq!(found, Some(1));
}

#[test]
fn test_strip_gps_from_tiff() {
    let tiff = build_tiff_with_gps(0x1234);
    let stripped = strip_gps_from_tiff(&tiff).unwrap();

    assert!(!stripped.windows(4).any(|w| w == 0x1234u32.to_le_bytes()));
    let info = parse_exif_bytes(&stripped).unwrap();
    assert_eq!(info.make, Some("Apple".to_string()));
    assert!(!info.gps_present);
    assert!(is_tiff(&stripped));
}

#[test]
fn info_format_detects_heic_correctly() {
    assert!(is_heic("sample.HEIC"), "HEIC extension should be recognized");
    assert!(is_heic("tests/fixtures/src.heic"), "Fixture HEIC file path must be recognized as HEIC");
}

// ---- little-endian TIFF builder and word-alignment view -----------------------

/// Value of an entry in the little-endian builder below.
enum Val {
    /// Stored in the 4-byte value field.
    Inline([u8; 4]),
    /// Stored out of line, right after the IFD that owns the entry.
    Data(Vec<u8>),
    /// Offset of another IFD (index into the slice given to `build_le_tiff`).
    Ifd(usize),
}

struct Ent {
    tag: u16,
    typ: u16,
    count: u32,
    val: Val,
}

fn ent(tag: u16, typ: u16, count: u32, val: Val) -> Ent {
    Ent { tag, typ, count, val }
}

fn short(v: u16) -> Val {
    let b = v.to_le_bytes();
    Val::Inline([b[0], b[1], 0, 0])
}

fn long(v: u32) -> Val {
    Val::Inline(v.to_le_bytes())
}

fn shorts(vals: &[u16]) -> Val {
    Val::Data(vals.iter().flat_map(|v| v.to_le_bytes()).collect())
}

fn rationals(vals: &[(u32, u32)]) -> Val {
    Val::Data(vals.iter().flat_map(|(n, d)| n.to_le_bytes().into_iter().chain(d.to_le_bytes())).collect())
}

/// Little-endian TIFF: header, then every IFD immediately followed by its
/// out-of-line values.  Entries must be given in ascending tag order.
fn build_le_tiff(ifds: &[Vec<Ent>]) -> Vec<u8> {
    let mut offsets = Vec::new();
    let mut pos = 8usize;
    for ifd in ifds {
        offsets.push(pos);
        pos += 2 + ifd.len() * 12 + 4;
        for e in ifd {
            if let Val::Data(d) = &e.val {
                pos += d.len() + d.len() % 2;
            }
        }
    }
    let mut out = Vec::with_capacity(pos);
    out.extend_from_slice(b"II\x2A\x00");
    out.extend_from_slice(&8u32.to_le_bytes());
    for ifd in ifds {
        out.extend_from_slice(&(ifd.len() as u16).to_le_bytes());
        let data_start = out.len() + ifd.len() * 12 + 4;
        let mut data: Vec<u8> = Vec::new();
        for e in ifd {
            out.extend_from_slice(&e.tag.to_le_bytes());
            out.extend_from_slice(&e.typ.to_le_bytes());
            out.extend_from_slice(&e.count.to_le_bytes());
            match &e.val {
                Val::Inline(v) => out.extend_from_slice(v),
                Val::Ifd(i) => out.extend_from_slice(&(offsets[*i] as u32).to_le_bytes()),
                Val::Data(d) => {
                    out.extend_from_slice(&((data_start + data.len()) as u32).to_le_bytes());
                    data.extend_from_slice(d);
                    if d.len() % 2 != 0 {
                        data.push(0);
                    }
                }
            }
        }
        out.extend_from_slice(&0u32.to_le_bytes());
        out.extend_from_slice(&data);
    }
    out
}

/// A colour TIFF as an editor would write it: pixel-layout tags for a
/// 3-channel image, an RGB ICC profile, a white point, and an Exif sub-IFD
/// that points at an Interoperability IFD; the pixel bytes follow.
fn build_colour_tiff_source(icc: &[u8]) -> Vec<u8> {
    let mut tiff = build_le_tiff(&[
        vec![
            ent(0x0100, 4, 1, long(64)),
            ent(0x0101, 4, 1, long(48)),
            ent(0x0102, 3, 3, shorts(&[8, 8, 8])),
            ent(0x0103, 3, 1, short(1)),
            ent(0x0106, 3, 1, short(2)),
            ent(0x010F, 2, 6, Val::Data(b"Apple\0".to_vec())),
            ent(0x0111, 4, 1, long(1000)),
            ent(0x0112, 3, 1, short(6)),
            ent(0x0115, 3, 1, short(3)),
            ent(0x0116, 4, 1, long(48)),
            ent(0x0117, 4, 1, long(9216)),
            ent(0x011C, 3, 1, short(1)),
            ent(0x013E, 5, 2, rationals(&[(3127, 10000), (3290, 10000)])),
            ent(0x0142, 3, 1, short(16)),
            ent(0x0143, 3, 1, short(16)),
            ent(0x0153, 3, 3, shorts(&[1, 1, 1])),
            ent(0x8769, 4, 1, Val::Ifd(1)),
            ent(0x8773, 7, icc.len() as u32, Val::Data(icc.to_vec())),
        ],
        vec![
            ent(0x9000, 7, 4, Val::Inline(*b"0232")),
            ent(0xA001, 3, 1, short(1)),
            ent(0xA005, 4, 1, Val::Ifd(2)),
        ],
        vec![ent(0x0001, 2, 4, Val::Inline(*b"R98\0")), ent(0x0002, 7, 4, Val::Inline(*b"0100"))],
    ]);
    tiff.extend(std::iter::repeat_n(0xABu8, 9216));
    tiff
}

fn fake_icc_profile() -> Vec<u8> {
    b"FAKE-RGB-ICC-PROFILE".repeat(32)
}

fn rd16(b: &[u8], o: usize, le: bool) -> u16 {
    let s = [b[o], b[o + 1]];
    if le { u16::from_le_bytes(s) } else { u16::from_be_bytes(s) }
}

fn rd32(b: &[u8], o: usize, le: bool) -> u32 {
    let s = [b[o], b[o + 1], b[o + 2], b[o + 3]];
    if le { u32::from_le_bytes(s) } else { u32::from_be_bytes(s) }
}

/// Byte-order aware read-only view over a TIFF file.
struct TiffView<'a> {
    bytes: &'a [u8],
    le: bool,
}

impl<'a> TiffView<'a> {
    fn new(bytes: &'a [u8]) -> Self {
        assert!(is_tiff(bytes), "not a TIFF");
        Self { bytes, le: &bytes[0..2] == b"II" }
    }

    fn ifd0(&self) -> usize {
        rd32(self.bytes, 4, self.le) as usize
    }

    fn entries(&self, ifd: usize) -> Vec<[u8; 12]> {
        let n = rd16(self.bytes, ifd, self.le) as usize;
        (0..n)
            .map(|i| {
                let o = ifd + 2 + i * 12;
                let mut e = [0u8; 12];
                e.copy_from_slice(&self.bytes[o..o + 12]);
                e
            })
            .collect()
    }

    /// Every IFD reachable from IFD0 through Exif/GPS/Interop pointers and
    /// next-IFD links.  Panics if any pointer leads outside the file.
    fn reachable_ifds(&self) -> Vec<usize> {
        let mut seen: Vec<usize> = Vec::new();
        let mut stack = vec![self.ifd0()];
        while let Some(off) = stack.pop() {
            if seen.contains(&off) {
                continue;
            }
            assert!(off + 2 <= self.bytes.len(), "IFD offset {off} is outside the file");
            let n = rd16(self.bytes, off, self.le) as usize;
            assert!(off + 2 + n * 12 + 4 <= self.bytes.len(), "IFD at {off} runs past the end of the file");
            seen.push(off);
            for e in self.entries(off) {
                if [0x8769u16, 0x8825, 0xA005].contains(&rd16(&e, 0, self.le)) {
                    stack.push(rd32(&e, 8, self.le) as usize);
                }
            }
            let next = rd32(self.bytes, off + 2 + n * 12, self.le) as usize;
            if next != 0 {
                stack.push(next);
            }
        }
        seen
    }

    /// Every reachable IFD, and every out-of-line value written at or after
    /// `grafted_from`, starts on a word boundary and lies inside the file.
    fn assert_word_aligned(&self, grafted_from: usize) {
        for ifd in self.reachable_ifds() {
            assert_eq!(ifd % 2, 0, "IFD at odd offset {ifd}");
            for e in self.entries(ifd) {
                let unit = match rd16(&e, 2, self.le) {
                    1 | 2 | 6 | 7 => 1,
                    3 | 8 => 2,
                    4 | 9 | 11 => 4,
                    5 | 10 | 12 => 8,
                    _ => 0,
                };
                let total = rd32(&e, 4, self.le) as usize * unit;
                let off = rd32(&e, 8, self.le) as usize;
                if total > 4 && off >= grafted_from {
                    assert_eq!(off % 2, 0, "value at odd offset {off}");
                    assert!(off + total <= self.bytes.len(), "value runs past the end of the file");
                }
            }
        }
    }
}

#[test]
fn test_inject_exif_endianness_mismatch() {
    // Little-Endian output TIFF
    let le_tiff = b"II\x2A\x00\x08\x00\x00\x00\x00\x00\x00\x00";
    let be_tiff = build_tiff_with_gps(0x1234);

    let result = inject_exif_into_tiff(le_tiff, &be_tiff).unwrap();

    assert!(result.len() > le_tiff.len());
    let info = parse_exif_bytes(&result).unwrap();
    assert_eq!(info.make.as_deref(), Some("Apple"));
}

#[test]
fn test_inject_exif_into_odd_length_tiff_is_word_aligned() {
    let mut output = build_minimal_tiff();
    output.push(0); // odd length
    assert_eq!(output.len() % 2, 1);

    let source = build_colour_tiff_source(&fake_icc_profile());
    let result = rewrite_exif_metadata(&output, &source, true).unwrap();

    assert!(result.len() > output.len());
    assert_eq!(TiffView::new(&result).ifd0() % 2, 0);
    TiffView::new(&result).assert_word_aligned(output.len());
}

#[test]
fn test_rewrite_exif_metadata_for_tiff() {
    let tiff = build_tiff_with_gps(0x1234);
    let stripped_all = vec![
        0x4D, 0x4D, 0x00, 0x2A, // "MM\0*"
        0x00, 0x00, 0x00, 0x08, // IFD0 offset = 8
        0x00, 0x02, // Count = 2 entries
        0x01, 0x00, 0x00, 0x04, 0x00, 0x00, 0x00, 0x01, 0x00, 0x00, 0x00, 0x08, // ImageWidth 8
        0x01, 0x01, 0x00, 0x04, 0x00, 0x00, 0x00, 0x01, 0x00, 0x00, 0x00, 0x08, // ImageLength 8
        0x00, 0x00, 0x00, 0x00, // Next IFD = 0
    ];

    let source_stripped = strip_gps_metadata(&tiff).unwrap();

    let grafted = rewrite_exif_metadata(&stripped_all, &source_stripped, false).unwrap();

    assert!(is_tiff(&grafted));
    let info = parse_exif_bytes(&grafted).unwrap();
    assert_eq!(info.make.as_deref(), Some("Apple"));
    assert!(!info.gps_present);
    assert!(grafted.len() > stripped_all.len());
}

#[test]
fn test_grayscale_tiff_color_space_short() {
    let output = build_minimal_tiff();
    // Standard SHORT (type 3) ColorSpace
    let source = build_tiff_with_exif_color_space(3, 1);

    let result = rewrite_exif_metadata(&output, &source, true).unwrap();

    assert_eq!(find_color_space_value(&result), Some(0xFFFF));
}

#[test]
fn test_grayscale_tiff_color_space_absent_is_safe() {
    // Source without any Exif sub-IFD
    let output = build_minimal_tiff();
    let source = build_minimal_tiff();

    let result = rewrite_exif_metadata(&output, &source, true).unwrap();

    assert!(is_tiff(&result));
    assert_eq!(find_color_space_value(&result), None);
}

#[test]
fn extract_then_parse_gives_the_same_answer_for_every_format() {
    let tiff = sample_tiff();
    for (name, bytes) in all_formats(&tiff) {
        let extracted = extract_exif_tiff(&bytes).unwrap_or_else(|| panic!("{name}: no EXIF block extracted"));
        assert!(extracted.starts_with(&tiff), "{name}: extracted block differs from the embedded one");
        let info = parse_exif_bytes(&extracted).expect("parse_exif_bytes failed");
        assert_eq!(info.make.as_deref(), Some("Apple"), "{name}");
        assert!(info.gps_present, "{name}");
    }
}
