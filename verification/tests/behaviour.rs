//! Each promise of the codec on small, hand-made values: round trips, the
//! container each writer produces, and every error the readers report.

use kombussy::glyf_transform::{reconstruct, split};
use kombussy::sfnt::{checksum, Table};
use kombussy::{convert, decode, detect, encode, fits, try_convert, woff1, woff2, Font, FontError, Format};

const FLAVOR_TRUETYPE: u32 = 0x0001_0000;

fn head_data() -> Vec<u8> {
    let mut d: Vec<u8> = (0..54u8).collect();
    d[8..12].copy_from_slice(&[0, 0, 0, 0]);
    d[16] = 0x00;
    d[17] = 0x0B;
    d
}

/// Out of tag order, with a tag that is not on the WOFF2 known-tag list and
/// data long enough to compress.
fn tiny_font() -> Font {
    Font {
        flavor: FLAVOR_TRUETYPE,
        tables: vec![
            Table { tag: *b"name", data: b"Kombussy Kombussy Kombussy Kombussy Kombussy".to_vec() },
            Table { tag: *b"head", data: head_data() },
            Table { tag: *b"Zzzz", data: vec![7u8; 33] },
            Table { tag: *b"maxp", data: vec![0, 0, 0x50, 0, 0, 1] },
        ],
    }
}

fn sorted_tables(font: &Font) -> Vec<Table> {
    let mut t = font.tables.clone();
    t.sort_by_key(|t| t.tag);
    t
}

fn put16(out: &mut Vec<u8>, v: u16) {
    out.extend_from_slice(&v.to_be_bytes());
}

fn put32(out: &mut Vec<u8>, v: u32) {
    out.extend_from_slice(&v.to_be_bytes());
}

/// A WOFF header for `n` tables of the given flavor, directory to follow.
fn woff1_header(flavor: u32, n: u16, length: u32) -> Vec<u8> {
    let mut out = b"wOFF".to_vec();
    put32(&mut out, flavor);
    put32(&mut out, length);
    put16(&mut out, n);
    out.extend_from_slice(&[0u8; 30]);
    out
}

/// A WOFF2 header for `n` tables, directory to follow.
fn woff2_header(n: u16, compressed_len: u32) -> Vec<u8> {
    let mut out = b"wOF2".to_vec();
    put32(&mut out, FLAVOR_TRUETYPE);
    put32(&mut out, 0);
    put16(&mut out, n);
    put16(&mut out, 0);
    put32(&mut out, 0);
    put32(&mut out, compressed_len);
    out.extend_from_slice(&[0u8; 24]);
    out
}

// ---------------------------------------------------------------------------
// Round trips

#[test]
fn sfnt_round_trip_sorts_and_keeps_every_byte_but_the_adjustment() {
    let font = tiny_font();
    let bytes = encode(&font, Format::Sfnt).unwrap();
    let back = decode(&bytes).unwrap();
    assert_eq!(back.flavor, font.flavor);
    let expected = sorted_tables(&font);
    assert_eq!(back.tables.len(), expected.len());
    for (b, e) in back.tables.iter().zip(&expected) {
        assert_eq!(b.tag, e.tag);
        if &b.tag == b"head" {
            assert_eq!(b.data[..8], e.data[..8]);
            assert_eq!(b.data[12..], e.data[12..]);
        } else {
            assert_eq!(b.data, e.data);
        }
    }
    // The adjustment makes the whole file sum to the magic constant.
    let sum = kombussy::sfnt::checksum(&bytes);
    assert_eq!(sum, 0xB1B0_AFBA);
}

#[test]
fn sfnt_form_is_a_fixed_point() {
    let once = encode(&tiny_font(), Format::Sfnt).unwrap();
    let twice = encode(&decode(&once).unwrap(), Format::Sfnt).unwrap();
    assert_eq!(once, twice);
}

#[test]
fn woff1_round_trip_gives_the_tables_back_exactly() {
    let font = tiny_font();
    let back = decode(&woff1::encode(&font)).unwrap();
    assert_eq!(back.flavor, font.flavor);
    assert_eq!(back.tables, sorted_tables(&font));
}

#[test]
fn woff1_stores_compressible_tables_compressed() {
    let font = tiny_font();
    let bytes = woff1::encode(&font);
    // Directory entries follow the 44-byte header, in tag order: 'Zzzz' first.
    let entry = &bytes[44..64];
    assert_eq!(&entry[0..4], b"Zzzz");
    let comp = u32::from_be_bytes([entry[8], entry[9], entry[10], entry[11]]);
    let orig = u32::from_be_bytes([entry[12], entry[13], entry[14], entry[15]]);
    assert_eq!(orig, 33);
    assert!(comp < orig, "33 equal bytes should deflate to fewer");
    // 'maxp' is too short to gain, and is stored as it is.
    let entry = &bytes[84..104];
    assert_eq!(&entry[0..4], b"maxp");
    assert_eq!(entry[8..12], entry[12..16]);
}

#[test]
fn woff2_round_trip_marks_head_and_keeps_the_rest() {
    let font = tiny_font();
    let bytes = woff2::encode(&font).unwrap();
    let back = decode(&bytes).unwrap();
    let mut expected = sorted_tables(&font);
    for t in expected.iter_mut() {
        if &t.tag == b"head" {
            t.data[16] |= 0x08;
        }
    }
    assert_eq!(back.flavor, font.flavor);
    assert_eq!(back.tables, expected);
}

#[test]
fn woff2_directory_spells_out_unknown_tags() {
    let bytes = woff2::encode(&tiny_font()).unwrap();
    // First entry in tag order is 'Zzzz': flags 63, then the tag, then 33.
    assert_eq!(&bytes[48..54], &[63, b'Z', b'z', b'z', b'z', 33]);
    // Then 'head' by its index 1, 54 bytes.
    assert_eq!(&bytes[54..56], &[1, 54]);
}

#[test]
fn encoded_output_is_detected_as_its_target() {
    let font = tiny_font();
    for target in [Format::Sfnt, Format::Woff1, Format::Woff2] {
        let bytes = encode(&font, target).unwrap();
        assert_eq!(detect(&bytes).unwrap(), target);
    }
}

#[test]
fn convert_is_encode_of_decode() {
    let sfnt = encode(&tiny_font(), Format::Sfnt).unwrap();
    for target in [Format::Sfnt, Format::Woff1, Format::Woff2] {
        let direct = convert(&sfnt, target).unwrap();
        let stepwise = encode(&decode(&sfnt).unwrap(), target).unwrap();
        assert_eq!(direct, stepwise);
        assert_eq!(try_convert(&sfnt, target).unwrap().unwrap(), direct);
        assert!(fits(&tiny_font(), target));
    }
    assert!(matches!(try_convert(b"no", Format::Woff2), Some(Err(FontError::Truncated { .. }))));
    assert!(matches!(try_convert(b"nope", Format::Woff2), Some(Err(FontError::UnknownContainer { .. }))));
}

#[test]
fn format_names_and_media_types() {
    assert_eq!(Format::Sfnt.extension(FLAVOR_TRUETYPE), "ttf");
    assert_eq!(Format::Sfnt.extension(0x4F54_544F), "otf");
    assert_eq!(Format::Woff1.extension(0x4F54_544F), "woff");
    assert_eq!(Format::Woff2.extension(FLAVOR_TRUETYPE), "woff2");
    assert_eq!(Format::Sfnt.mime_type(), "font/otf");
    assert_eq!(Format::Woff1.mime_type(), "font/woff");
    assert_eq!(Format::Woff2.mime_type(), "font/woff2");
    assert_eq!(Format::from_name("otf"), Some(Format::Sfnt));
    assert_eq!(Format::from_name("ttf"), Some(Format::Sfnt));
    assert_eq!(Format::from_name("sfnt"), Some(Format::Sfnt));
    assert_eq!(Format::from_name("woff"), Some(Format::Woff1));
    assert_eq!(Format::from_name("woff1"), Some(Format::Woff1));
    assert_eq!(Format::from_name("woff2"), Some(Format::Woff2));
    assert_eq!(Format::from_name("woff3"), None);
    assert_eq!(Format::from_name(""), None);
}

#[test]
fn font_helpers() {
    let font = tiny_font();
    assert_eq!(font.table(b"maxp").unwrap().data.len(), 6);
    assert!(font.table(b"glyf").is_none());
    // 12 + 16 * 4 + 44 + 56 + 36 + 8
    assert_eq!(font.sfnt_size(), 12 + 64 + 44 + 56 + 36 + 8);
    assert!(Font::check_flavor(0x7472_7565).is_ok());
    assert!(matches!(Font::check_flavor(0x7474_6366), Err(FontError::FontCollection)));
    assert!(matches!(Font::check_flavor(5), Err(FontError::UnknownFlavor { flavor: 5 })));
    assert!(Font::reject_duplicate_tags(&font.tables).is_ok());
}

// ---------------------------------------------------------------------------
// Errors

#[test]
fn short_input_is_truncated() {
    match detect(&[0x00, 0x01]) {
        Err(FontError::Truncated { needed: 4, available: 2, while_reading }) => {
            assert_eq!(while_reading, "container magic")
        }
        other => panic!("unexpected {other:?}"),
    }
}

#[test]
fn unknown_magic_is_reported_with_its_bytes() {
    assert!(matches!(detect(b"ABCDEFGH"), Err(FontError::UnknownContainer { magic }) if &magic == b"ABCD"));
}

#[test]
fn collections_are_refused_by_the_sfnt_reader() {
    let mut ttc = b"ttcf".to_vec();
    ttc.extend_from_slice(&[0, 1, 0, 0, 0, 0, 0, 2]);
    assert!(matches!(Font::parse_sfnt(&ttc), Err(FontError::FontCollection)));
}

#[test]
fn unknown_flavor_is_refused() {
    let woff = woff1_header(0x1234_5678, 1, 64);
    assert!(matches!(decode(&woff), Err(FontError::UnknownFlavor { flavor: 0x1234_5678 })));
}

#[test]
fn duplicate_tags_are_refused() {
    let mut font = tiny_font();
    font.tables.push(Table { tag: *b"name", data: vec![1, 2, 3] });
    let bytes = encode(&font, Format::Sfnt).unwrap();
    assert!(matches!(decode(&bytes), Err(FontError::DuplicateTable { tag }) if &tag == b"name"));
    assert!(Font::reject_duplicate_tags(&font.tables).is_err());
}

#[test]
fn invalid_zlib_stream_is_a_decompress_error() {
    let mut woff = woff1_header(FLAVOR_TRUETYPE, 1, 72);
    woff.extend_from_slice(b"name");
    put32(&mut woff, 64);
    put32(&mut woff, 4); // stored length
    put32(&mut woff, 10); // original length
    put32(&mut woff, 0);
    woff.extend_from_slice(&[1, 2, 3, 4, 0, 0, 0, 0]);
    assert!(matches!(decode(&woff), Err(FontError::Decompress { tag: Some(t), .. }) if &t == b"name"));
}

#[test]
fn inflated_length_must_match_the_directory() {
    let data = vec![9u8; 40];
    let z = miniz_oxide::deflate::compress_to_vec_zlib(&data, 9);
    let mut woff = woff1_header(FLAVOR_TRUETYPE, 1, 0);
    woff.extend_from_slice(b"name");
    put32(&mut woff, 64);
    put32(&mut woff, z.len() as u32);
    put32(&mut woff, 41);
    put32(&mut woff, 0);
    woff.extend_from_slice(&z);
    assert!(matches!(
        decode(&woff),
        Err(FontError::LengthMismatch { declared: 41, actual: 40, .. })
    ));
}

#[test]
fn oversized_table_is_refused_before_inflating() {
    let mut woff = woff1_header(FLAVOR_TRUETYPE, 1, 0);
    woff.extend_from_slice(b"name");
    put32(&mut woff, 64);
    put32(&mut woff, 4);
    put32(&mut woff, 0x1000_0001);
    put32(&mut woff, 0);
    woff.extend_from_slice(&[0u8; 4]);
    assert!(matches!(decode(&woff), Err(FontError::LengthMismatch { declared: 0x1000_0001, .. })));
}

#[test]
fn invalid_brotli_stream_is_a_decompress_error() {
    let mut w = woff2_header(1, 4);
    w.extend_from_slice(&[5, 4]); // 'name', 4 bytes
    w.extend_from_slice(&[0xFF, 0xFF, 0xFF, 0xFF]);
    assert!(matches!(decode(&w), Err(FontError::Decompress { tag: None, .. })));
}

#[test]
fn non_minimal_base128_in_a_directory_is_refused() {
    let mut w = woff2_header(1, 0);
    w.extend_from_slice(&[5, 0x80, 0x04]);
    assert!(matches!(decode(&w), Err(FontError::BadBase128 { .. })));
}

#[test]
fn transforms_other_than_glyf_are_unsupported() {
    let mut w = woff2_header(1, 0);
    // 'cmap' with transform version 1, then its two lengths.
    w.extend_from_slice(&[0x40, 4, 4]);
    assert!(matches!(decode(&w), Err(FontError::UnsupportedTransform { tag, version: 1 }) if &tag == b"cmap"));
}

#[test]
fn glyf_transform_versions_other_than_zero_are_unsupported() {
    let mut stream = Vec::new();
    put32(&mut stream, 1);
    stream.extend_from_slice(&[0u8; 32]);
    assert!(matches!(reconstruct(&stream), Err(FontError::UnsupportedTransform { version: 1, .. })));
}

#[test]
fn an_empty_glyf_transform_rebuilds_empty_tables() {
    let mut stream = Vec::new();
    put32(&mut stream, 0);
    put16(&mut stream, 0); // numGlyphs
    put16(&mut stream, 1); // long loca
    stream.extend_from_slice(&[0u8; 28]);
    let rebuilt = reconstruct(&stream).unwrap();
    assert!(rebuilt.glyf.is_empty());
    assert_eq!(rebuilt.loca, vec![0, 0, 0, 0]);
}

#[test]
fn a_brotli_stream_longer_than_the_directory_is_refused() {
    let mut z = Vec::new();
    {
        let mut w = brotli::CompressorWriter::new(&mut z, 4096, 9, 22);
        std::io::Write::write_all(&mut w, &[1, 2]).unwrap();
    }
    let mut w = woff2_header(1, z.len() as u32);
    w.extend_from_slice(&[5, 1]); // 'name', 1 byte
    w.extend_from_slice(&z);
    assert_eq!(
        decode(&w).unwrap_err(),
        FontError::Decompress { tag: None, detail: "decompressed stream is longer than the directory declares" }
    );
}

#[test]
fn a_glyf_transform_shorter_than_its_header_is_truncated() {
    assert!(matches!(split(&[0u8; 10], 0, [0; 7]), Err(FontError::Truncated { .. })));
    assert!(matches!(split(&[0u8; 35], 0, [0; 7]), Err(FontError::Truncated { .. })));
    assert!(split(&[0u8; 36], 0, [0; 7]).is_ok());
    assert!(matches!(split(&[0u8; 36], 8, [0; 7]), Err(FontError::Decompress { tag: Some(t), .. }) if &t == b"glyf"));
    assert!(matches!(split(&[0u8; 37], 8, [0, 0, 0, 0, 0, 1, 0]), Ok(s) if s.bbox_bitmap.len() == 1));
}

// ---------------------------------------------------------------------------
// Messages, sizes and checksums

#[test]
fn error_messages_read_as_the_codec_words() {
    let cases: Vec<(FontError, &str)> = vec![
        (
            FontError::Truncated { needed: 4, available: 2, while_reading: "container magic" },
            "truncated input while reading container magic: needed 4 bytes, 2 available",
        ),
        (FontError::UnknownContainer { magic: *b"%PDF" }, "unrecognised container magic [37, 80, 68, 70] (%PDF)"),
        (FontError::UnknownContainer { magic: [0, 1, 255, b'A'] }, "unrecognised container magic [0, 1, 255, 65] (...A)"),
        (FontError::FontCollection, "TrueType Collection (ttcf) is not supported; extract a single font first"),
        (FontError::UnknownFlavor { flavor: 0x1234_5678 }, "unrecognised outline flavor 0x12345678"),
        (FontError::UnknownFlavor { flavor: 5 }, "unrecognised outline flavor 0x00000005"),
        (FontError::UnknownFlavor { flavor: 0xDEAD_BEEF }, "unrecognised outline flavor 0xdeadbeef"),
        (FontError::BadTableCount { count: 0 }, "invalid table count 0"),
        (
            FontError::TableOutOfBounds { tag: *b"glyf", offset: 100, length: 20, file_len: 110 },
            "table 'glyf' at offset 100 length 20 exceeds file length 110",
        ),
        (
            FontError::Decompress { tag: Some(*b"name"), detail: "zlib stream is invalid" },
            "decompression failed for table 'name': zlib stream is invalid",
        ),
        (FontError::Decompress { tag: None, detail: "brotli stream is invalid" }, "decompression failed: brotli stream is invalid"),
        (
            FontError::LengthMismatch { tag: *b"name", declared: 41, actual: 40 },
            "table 'name' declared 41 bytes but produced 40",
        ),
        (FontError::BadBase128 { detail: "leading zero byte" }, "malformed UIntBase128: leading zero byte"),
        (
            FontError::UnsupportedTransform { tag: *b"cmap", version: 1 },
            "table 'cmap' uses transform version 1, which is not implemented",
        ),
        (FontError::DuplicateTable { tag: *b"OS/2" }, "duplicate table tag 'OS/2'"),
    ];
    for (e, expected) in cases {
        assert_eq!(e.message(), expected);
    }
    assert_eq!(detect(b"%PDF-1.7").unwrap_err().message(), "unrecognised container magic [37, 80, 68, 70] (%PDF)");
}

#[test]
fn font_errors_compare_by_value() {
    assert_eq!(detect(b"ABCDEFGH").unwrap_err(), FontError::UnknownContainer { magic: *b"ABCD" });
    assert_ne!(detect(b"ABCDEFGH").unwrap_err(), FontError::UnknownContainer { magic: *b"ABCE" });
    assert_eq!(detect(b"AB").unwrap_err().clone(), FontError::Truncated { needed: 4, available: 2, while_reading: "container magic" });
}

#[test]
fn sfnt_size_is_the_written_length() {
    let font = tiny_font();
    let expected: usize = 12 + 16 * font.tables.len() + font.tables.iter().map(|t| (t.data.len() + 3) / 4 * 4).sum::<usize>();
    assert_eq!(font.sfnt_size(), expected);
    assert_eq!(font.to_sfnt().len(), expected);
}

#[test]
fn checksum_adds_over_aligned_concatenation() {
    let a: Vec<u8> = vec![0xFF, 0xFF, 0xFF, 0xFF, 1, 2, 3, 4];
    let b: Vec<u8> = vec![0x80, 0, 0, 1, 9, 10, 11];
    let ab: Vec<u8> = [a.clone(), b.clone()].concat();
    assert_eq!(checksum(&ab), checksum(&a).wrapping_add(checksum(&b)));
    assert_eq!(checksum(&b), 0x8000_0001u32.wrapping_add(0x090A_0B00));
    for k in 0..9 {
        let padded: Vec<u8> = [b.clone(), vec![0u8; k]].concat();
        assert_eq!(checksum(&padded), checksum(&b));
    }
}

#[test]
fn marking_the_lossless_flag_twice_changes_nothing() {
    let once = decode(&encode(&tiny_font(), Format::Woff2).unwrap()).unwrap();
    let twice = decode(&encode(&once, Format::Woff2).unwrap()).unwrap();
    let head_once = &once.table(b"head").unwrap().data;
    let head_twice = &twice.table(b"head").unwrap().data;
    assert_eq!(u16::from_be_bytes([head_once[16], head_once[17]]), 0x080B);
    assert_eq!(head_once[16..18], head_twice[16..18]);
    assert_eq!(sorted_tables(&once), sorted_tables(&twice));
}
