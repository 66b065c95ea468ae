//! Whole-container tests. The fonts are built here, table by table, and the
//! WOFF and WOFF2 files are written by a small independent writer in this
//! file, so the decoder is checked against bytes it did not produce.

use kombussy::sfnt::Table;
use kombussy::{convert, decode, detect, encode, Font, FontError, Format};
use std::io::Write;

// ---------------------------------------------------------------------------
// Synthetic fonts

const FLAVOR_TRUETYPE: u32 = 0x0001_0000;
const FLAVOR_CFF: u32 = 0x4F54_544F;

fn put16(out: &mut Vec<u8>, v: u16) {
    out.extend_from_slice(&v.to_be_bytes());
}

fn put32(out: &mut Vec<u8>, v: u32) {
    out.extend_from_slice(&v.to_be_bytes());
}

fn head_table() -> Vec<u8> {
    let mut t = Vec::new();
    put32(&mut t, 0x0001_0000); // version
    put32(&mut t, 0x0001_8000); // fontRevision
    put32(&mut t, 0); // checkSumAdjustment
    put32(&mut t, 0x5F0F_3CF5); // magicNumber
    put16(&mut t, 0x000B); // flags
    put16(&mut t, 1000); // unitsPerEm
    t.extend_from_slice(&[0, 0, 0, 0, 0xDC, 0x5A, 0x1B, 0x00]); // created
    t.extend_from_slice(&[0, 0, 0, 0, 0xDC, 0x5A, 0x1B, 0x00]); // modified
    for v in [100u16, 0, 500, 700] {
        put16(&mut t, v); // bbox
    }
    put16(&mut t, 0); // macStyle
    put16(&mut t, 8); // lowestRecPPEM
    put16(&mut t, 2); // fontDirectionHint
    put16(&mut t, 0); // indexToLocFormat: short
    put16(&mut t, 0); // glyphDataFormat
    assert_eq!(t.len(), 54);
    t
}

fn hhea_table() -> Vec<u8> {
    let mut t = Vec::new();
    put32(&mut t, 0x0001_0000);
    for v in [800u16, 0xFF38, 90, 600, 100, 100, 500, 1, 0, 0, 0, 0, 0, 0, 0] {
        put16(&mut t, v);
    }
    put16(&mut t, 3); // numberOfHMetrics
    assert_eq!(t.len(), 36);
    t
}

fn hmtx_table() -> Vec<u8> {
    let mut t = Vec::new();
    for (advance, lsb) in [(500u16, 0u16), (600, 100), (600, 100)] {
        put16(&mut t, advance);
        put16(&mut t, lsb);
    }
    t
}

fn maxp_table(cff: bool) -> Vec<u8> {
    let mut t = Vec::new();
    if cff {
        put32(&mut t, 0x0000_5000);
        put16(&mut t, 3);
    } else {
        put32(&mut t, 0x0001_0000);
        put16(&mut t, 3); // numGlyphs
        for v in [4u16, 1, 4, 1, 2, 0, 0, 0, 0, 0, 0, 1, 1] {
            put16(&mut t, v);
        }
    }
    t
}

fn name_table() -> Vec<u8> {
    let strings = ["Kombussy Synthetic", "Regular", "Kombussy Synthetic Regular", "Version 1.500"];
    let mut storage = Vec::new();
    let mut records = Vec::new();
    for (id, s) in strings.iter().enumerate() {
        let bytes: Vec<u8> = s.encode_utf16().flat_map(|u| u.to_be_bytes()).collect();
        records.push((id as u16 + 1, storage.len() as u16, bytes.len() as u16));
        storage.extend_from_slice(&bytes);
    }
    let mut t = Vec::new();
    put16(&mut t, 0);
    put16(&mut t, records.len() as u16);
    put16(&mut t, 6 + 12 * records.len() as u16);
    for (id, offset, len) in records {
        for v in [3u16, 1, 0x409, id, len, offset] {
            put16(&mut t, v);
        }
    }
    t.extend_from_slice(&storage);
    t
}

fn os2_table() -> Vec<u8> {
    let mut t = Vec::new();
    put16(&mut t, 4);
    for v in [550u16, 400, 5, 0, 650, 600, 0, 75, 650, 600, 0, 350, 50, 300, 0] {
        put16(&mut t, v);
    }
    t.extend_from_slice(&[0u8; 10]); // panose
    t.extend_from_slice(&[0u8; 16]); // unicode ranges
    t.extend_from_slice(b"KMBS");
    for v in [0x40u16, 0x20, 0x41, 800, 0xFF38, 90, 800, 200] {
        put16(&mut t, v);
    }
    t.extend_from_slice(&[0u8; 8]); // code page ranges
    for v in [500u16, 700, 0, 0x20, 1] {
        put16(&mut t, v);
    }
    t
}

fn post_table() -> Vec<u8> {
    let mut t = Vec::new();
    put32(&mut t, 0x0003_0000);
    put32(&mut t, 0);
    put16(&mut t, 0xFF9C);
    put16(&mut t, 50);
    t.extend_from_slice(&[0u8; 20]);
    t
}

fn cmap_table() -> Vec<u8> {
    // One format 6 subtable mapping 'A' and 'B' to glyphs 1 and 2.
    let mut t = Vec::new();
    for v in [0u16, 1, 3, 1] {
        put16(&mut t, v);
    }
    put32(&mut t, 12);
    for v in [6u16, 14, 0, 0x41, 2, 1, 2] {
        put16(&mut t, v);
    }
    t
}

/// Glyph 0 is empty, glyph 1 a square, glyph 2 a composite of glyph 1.
fn glyf_and_loca() -> (Vec<u8>, Vec<u8>) {
    let mut glyf = Vec::new();
    // Glyph 1: one contour, four on-curve points, no instructions.
    put16(&mut glyf, 1);
    for v in [100u16, 0, 500, 700] {
        put16(&mut glyf, v);
    }
    put16(&mut glyf, 3); // endPtsOfContours
    put16(&mut glyf, 0); // instructionLength
    // Flags: x short positive and y same; x long and y same; x same and y
    // long; x long and y same. Then the x bytes, then the y bytes.
    glyf.extend_from_slice(&[0x33, 0x21, 0x11, 0x21]);
    glyf.push(100);
    put16(&mut glyf, 400);
    glyf.extend_from_slice(&(-400i16).to_be_bytes());
    put16(&mut glyf, 700);
    while glyf.len() % 4 != 0 {
        glyf.push(0);
    }
    let glyph2_start = glyf.len();
    // Glyph 2: one component, glyph 1 at (0, 0), word arguments.
    put16(&mut glyf, 0xFFFF);
    for v in [100u16, 0, 500, 700] {
        put16(&mut glyf, v);
    }
    put16(&mut glyf, 0x0003);
    put16(&mut glyf, 1);
    put16(&mut glyf, 0);
    put16(&mut glyf, 0);
    while glyf.len() % 4 != 0 {
        glyf.push(0);
    }
    let mut loca = Vec::new();
    for offset in [0usize, 0, glyph2_start, glyf.len()] {
        put16(&mut loca, (offset / 2) as u16);
    }
    (glyf, loca)
}

fn ttf_tables() -> Vec<([u8; 4], Vec<u8>)> {
    let (glyf, loca) = glyf_and_loca();
    vec![
        (*b"OS/2", os2_table()),
        (*b"cmap", cmap_table()),
        (*b"glyf", glyf),
        (*b"head", head_table()),
        (*b"hhea", hhea_table()),
        (*b"hmtx", hmtx_table()),
        (*b"loca", loca),
        (*b"maxp", maxp_table(false)),
        (*b"name", name_table()),
        (*b"post", post_table()),
    ]
}

fn otf_tables() -> Vec<([u8; 4], Vec<u8>)> {
    let cff: Vec<u8> = (0..300u32).map(|i| (i * 7 % 251) as u8).collect();
    vec![
        (*b"CFF ", cff),
        (*b"OS/2", os2_table()),
        (*b"cmap", cmap_table()),
        (*b"head", head_table()),
        (*b"hhea", hhea_table()),
        (*b"hmtx", hmtx_table()),
        (*b"maxp", maxp_table(true)),
        (*b"name", name_table()),
        (*b"post", post_table()),
    ]
}

fn checksum(data: &[u8]) -> u32 {
    let mut sum = 0u32;
    for chunk in data.chunks(4) {
        let mut word = [0u8; 4];
        word[..chunk.len()].copy_from_slice(chunk);
        sum = sum.wrapping_add(u32::from_be_bytes(word));
    }
    sum
}

/// A bare sfnt, tables in tag order, checksums and checkSumAdjustment set.
fn sfnt_file(flavor: u32, tables: &[([u8; 4], Vec<u8>)]) -> Vec<u8> {
    let mut sorted: Vec<_> = tables.to_vec();
    sorted.sort_by_key(|t| t.0);
    let n = sorted.len() as u16;
    let mut out = Vec::new();
    put32(&mut out, flavor);
    put16(&mut out, n);
    let entry_selector = 15 - n.leading_zeros() as u16;
    let search_range = (1u16 << entry_selector) * 16;
    put16(&mut out, search_range);
    put16(&mut out, entry_selector);
    put16(&mut out, n * 16 - search_range);
    let mut offset = 12 + 16 * sorted.len();
    let mut head_at = None;
    for (tag, data) in &sorted {
        out.extend_from_slice(tag);
        put32(&mut out, checksum(data));
        put32(&mut out, offset as u32);
        put32(&mut out, data.len() as u32);
        if tag == b"head" {
            head_at = Some(offset);
        }
        offset += (data.len() + 3) & !3;
    }
    for (_, data) in &sorted {
        out.extend_from_slice(data);
        while out.len() % 4 != 0 {
            out.push(0);
        }
    }
    if let Some(at) = head_at {
        let adjustment = 0xB1B0_AFBAu32.wrapping_sub(checksum(&out));
        out[at + 8..at + 12].copy_from_slice(&adjustment.to_be_bytes());
    }
    out
}

/// A WOFF 1.0 file, each table zlib-compressed where that saves space.
fn woff1_file(flavor: u32, tables: &[([u8; 4], Vec<u8>)]) -> Vec<u8> {
    let mut sorted: Vec<_> = tables.to_vec();
    sorted.sort_by_key(|t| t.0);
    let stored: Vec<Vec<u8>> = sorted
        .iter()
        .map(|(_, data)| {
            let z = miniz_oxide::deflate::compress_to_vec_zlib(data, 6);
            if z.len() < data.len() { z } else { data.clone() }
        })
        .collect();
    let sfnt_size = 12 + 16 * sorted.len() + sorted.iter().map(|t| (t.1.len() + 3) & !3).sum::<usize>();
    let mut offset = 44 + 20 * sorted.len();
    let mut dir = Vec::new();
    for ((tag, data), s) in sorted.iter().zip(&stored) {
        dir.extend_from_slice(tag);
        put32(&mut dir, offset as u32);
        put32(&mut dir, s.len() as u32);
        put32(&mut dir, data.len() as u32);
        put32(&mut dir, checksum(data));
        offset += (s.len() + 3) & !3;
    }
    let mut out = Vec::new();
    out.extend_from_slice(b"wOFF");
    put32(&mut out, flavor);
    put32(&mut out, offset as u32);
    put16(&mut out, sorted.len() as u16);
    put16(&mut out, 0);
    put32(&mut out, sfnt_size as u32);
    put16(&mut out, 1);
    put16(&mut out, 0);
    out.extend_from_slice(&[0u8; 20]);
    out.extend_from_slice(&dir);
    for s in &stored {
        out.extend_from_slice(s);
        while out.len() % 4 != 0 {
            out.push(0);
        }
    }
    out
}

fn known_index(tag: &[u8; 4]) -> Option<u8> {
    const TAGS: [&[u8; 4]; 14] = [
        b"cmap", b"head", b"hhea", b"hmtx", b"maxp", b"name", b"OS/2", b"post", b"cvt ", b"fpgm", b"glyf", b"loca",
        b"prep", b"CFF ",
    ];
    TAGS.iter().position(|t| *t == tag).map(|i| i as u8)
}

fn base128(out: &mut Vec<u8>, v: u32) {
    let mut groups = vec![(v & 0x7F) as u8];
    let mut rest = v >> 7;
    while rest != 0 {
        groups.push((rest & 0x7F) as u8 | 0x80);
        rest >>= 7;
    }
    groups.reverse();
    out.extend_from_slice(&groups);
}

fn brotli(data: &[u8]) -> Vec<u8> {
    let mut out = Vec::new();
    {
        let mut w = brotli::CompressorWriter::new(&mut out, 4096, 9, 22);
        w.write_all(data).unwrap();
    }
    out
}

/// One WOFF2 directory entry and the bytes it contributes to the stream.
struct Woff2Entry {
    tag: [u8; 4],
    version: u8,
    orig_length: u32,
    transform_length: Option<u32>,
    stream: Vec<u8>,
}

fn woff2_from_entries(flavor: u32, entries: &[Woff2Entry], sfnt_size: u32) -> Vec<u8> {
    let mut dir = Vec::new();
    let mut block = Vec::new();
    for e in entries {
        match known_index(&e.tag) {
            Some(i) => dir.push((e.version << 6) | i),
            None => {
                dir.push((e.version << 6) | 63);
                dir.extend_from_slice(&e.tag);
            }
        }
        base128(&mut dir, e.orig_length);
        if let Some(t) = e.transform_length {
            base128(&mut dir, t);
        }
        block.extend_from_slice(&e.stream);
    }
    let compressed = brotli(&block);
    let total = 48 + dir.len() + compressed.len();
    let mut out = Vec::new();
    out.extend_from_slice(b"wOF2");
    put32(&mut out, flavor);
    put32(&mut out, total as u32);
    put16(&mut out, entries.len() as u16);
    put16(&mut out, 0);
    put32(&mut out, sfnt_size);
    put32(&mut out, compressed.len() as u32);
    put16(&mut out, 1);
    put16(&mut out, 0);
    out.extend_from_slice(&[0u8; 20]);
    out.extend_from_slice(&dir);
    out.extend_from_slice(&compressed);
    out
}

/// A WOFF2 file with every table stored untransformed.
fn woff2_null_file(flavor: u32, tables: &[([u8; 4], Vec<u8>)]) -> Vec<u8> {
    let mut sorted: Vec<_> = tables.to_vec();
    sorted.sort_by_key(|t| t.0);
    let entries: Vec<Woff2Entry> = sorted
        .iter()
        .map(|(tag, data)| Woff2Entry {
            tag: *tag,
            version: if tag == b"glyf" || tag == b"loca" { 3 } else { 0 },
            orig_length: data.len() as u32,
            transform_length: None,
            stream: data.clone(),
        })
        .collect();
    let sfnt_size = 12 + 16 * sorted.len() + sorted.iter().map(|t| (t.1.len() + 3) & !3).sum::<usize>();
    woff2_from_entries(flavor, &entries, sfnt_size as u32)
}

/// The transformed `glyf` stream for the three synthetic glyphs.
fn transformed_glyf() -> Vec<u8> {
    let n_contour: Vec<u8> = [0u16, 1, 0xFFFF].iter().flat_map(|v| v.to_be_bytes()).collect();
    let n_points = vec![4u8];
    // Square (100,0) (500,0) (500,700) (100,700), all on curve.
    let flags = vec![11u8, 13, 5, 12];
    let mut glyph = vec![100u8, 144, 188, 144];
    glyph.push(0); // instructionLength of glyph 1
    let mut composite = Vec::new();
    for v in [0x0003u16, 1, 0, 0] {
        put16(&mut composite, v);
    }
    let mut bbox = vec![0x20u8];
    for v in [100u16, 0, 500, 700] {
        put16(&mut bbox, v);
    }
    let instruction: Vec<u8> = Vec::new();
    let streams = [n_contour, n_points, flags, glyph, composite, bbox, instruction];
    let mut out = Vec::new();
    put32(&mut out, 0); // version
    put16(&mut out, 3); // numGlyphs
    put16(&mut out, 0); // indexFormat
    for s in &streams {
        put32(&mut out, s.len() as u32);
    }
    for s in &streams {
        out.extend_from_slice(s);
    }
    out
}

/// A WOFF2 file with `glyf`/`loca` transformed, the way real files come.
fn woff2_transformed_file() -> Vec<u8> {
    let mut sorted = ttf_tables();
    sorted.sort_by_key(|t| t.0);
    let entries: Vec<Woff2Entry> = sorted
        .iter()
        .map(|(tag, data)| {
            if tag == b"glyf" {
                let stream = transformed_glyf();
                Woff2Entry {
                    tag: *tag,
                    version: 0,
                    orig_length: data.len() as u32,
                    transform_length: Some(stream.len() as u32),
                    stream,
                }
            } else if tag == b"loca" {
                Woff2Entry { tag: *tag, version: 0, orig_length: data.len() as u32, transform_length: Some(0), stream: Vec::new() }
            } else {
                Woff2Entry { tag: *tag, version: 0, orig_length: data.len() as u32, transform_length: None, stream: data.clone() }
            }
        })
        .collect();
    woff2_from_entries(FLAVOR_TRUETYPE, &entries, 0)
}

fn ttf() -> Vec<u8> {
    sfnt_file(FLAVOR_TRUETYPE, &ttf_tables())
}

fn otf() -> Vec<u8> {
    sfnt_file(FLAVOR_CFF, &otf_tables())
}

fn woff() -> Vec<u8> {
    woff1_file(FLAVOR_TRUETYPE, &ttf_tables())
}

fn woff_cff() -> Vec<u8> {
    woff1_file(FLAVOR_CFF, &otf_tables())
}

fn woff2_null() -> Vec<u8> {
    woff2_null_file(FLAVOR_TRUETYPE, &ttf_tables())
}

fn woff2_cff() -> Vec<u8> {
    woff2_null_file(FLAVOR_CFF, &otf_tables())
}

// ---------------------------------------------------------------------------
// Comparison, masking what writers legitimately own

const HEAD_FLAG_LOSSLESS: u16 = 1 << 11;

fn normalise_head(data: &[u8]) -> Vec<u8> {
    let mut out = data.to_vec();
    if let Some(field) = out.get_mut(8..12) {
        field.fill(0);
    }
    if let Some(field) = out.get_mut(16..18) {
        let masked = u16::from_be_bytes([field[0], field[1]]) & !HEAD_FLAG_LOSSLESS;
        field.copy_from_slice(&masked.to_be_bytes());
    }
    out
}

fn contents(font: &Font) -> Vec<(String, Vec<u8>)> {
    let mut v: Vec<_> = font
        .tables
        .iter()
        .map(|t| {
            let tag = String::from_utf8_lossy(&t.tag).to_string();
            let data = if t.tag == *b"head" { normalise_head(&t.data) } else { t.data.clone() };
            (tag, data)
        })
        .collect();
    v.sort();
    v
}

fn assert_same_font(left: &Font, right: &Font, context: &str) {
    assert_eq!(left.flavor, right.flavor, "{context}: outline flavor differs");
    let (l, r) = (contents(left), contents(right));
    let l_tags: Vec<_> = l.iter().map(|(t, _)| t.clone()).collect();
    let r_tags: Vec<_> = r.iter().map(|(t, _)| t.clone()).collect();
    assert_eq!(l_tags, r_tags, "{context}: table inventory differs");
    for ((tag, a), (_, b)) in l.iter().zip(r.iter()) {
        assert_eq!(a, b, "{context}: table '{tag}' content differs");
    }
}

// ---------------------------------------------------------------------------
// Reading

#[test]
fn detects_every_fixture_container() {
    assert_eq!(detect(&ttf()).unwrap(), Format::Sfnt);
    assert_eq!(detect(&otf()).unwrap(), Format::Sfnt);
    assert_eq!(detect(&woff()).unwrap(), Format::Woff1);
    assert_eq!(detect(&woff2_null()).unwrap(), Format::Woff2);
}

#[test]
fn reads_fonttools_woff1_identically_to_the_source_ttf() {
    assert_same_font(&decode(&woff()).unwrap(), &decode(&ttf()).unwrap(), "woff1 vs ttf");
}

#[test]
fn reads_fonttools_woff1_cff_identically_to_the_source_otf() {
    assert_same_font(&decode(&woff_cff()).unwrap(), &decode(&otf()).unwrap(), "woff1 cff vs otf");
}

#[test]
fn reads_fonttools_null_transform_woff2_identically_to_the_source_ttf() {
    assert_same_font(&decode(&woff2_null()).unwrap(), &decode(&ttf()).unwrap(), "woff2 vs ttf");
}

#[test]
fn reads_fonttools_null_transform_woff2_cff() {
    assert_same_font(&decode(&woff2_cff()).unwrap(), &decode(&otf()).unwrap(), "woff2 cff vs otf");
}

#[test]
fn reconstructs_a_transformed_glyf_table() {
    let rebuilt = decode(&woff2_transformed_file()).expect("transformed glyf should reconstruct");
    let source = decode(&ttf()).unwrap();

    let mut rebuilt_tags: Vec<_> = rebuilt.tables.iter().map(|t| t.tag).collect();
    let mut source_tags: Vec<_> = source.tables.iter().map(|t| t.tag).collect();
    rebuilt_tags.sort();
    source_tags.sort();
    assert_eq!(rebuilt_tags, source_tags, "table inventory changed during reconstruction");

    for table in &rebuilt.tables {
        if table.tag == *b"glyf" || table.tag == *b"loca" || table.tag == *b"head" {
            continue;
        }
        let original = source.table(&table.tag).expect("table present in source");
        assert_eq!(table.data, original.data, "table '{}' altered", String::from_utf8_lossy(&table.tag));
    }

    let glyf = rebuilt.table(b"glyf").expect("glyf rebuilt");
    let loca = rebuilt.table(b"loca").expect("loca rebuilt");
    assert!(!glyf.data.is_empty(), "reconstructed glyf is empty");

    let maxp = rebuilt.table(b"maxp").expect("maxp present");
    let num_glyphs = u16::from_be_bytes([maxp.data[4], maxp.data[5]]) as usize;
    let entries = num_glyphs + 1;
    assert!(
        loca.data.len() == entries * 2 || loca.data.len() == entries * 4,
        "loca length {} matches neither short nor long format for {num_glyphs} glyphs",
        loca.data.len()
    );
}

#[test]
fn reconstructed_outlines_match_the_source() {
    // The square rebuilds with the same contour, points and bounding box.
    let rebuilt = decode(&woff2_transformed_file()).unwrap();
    let glyf = &rebuilt.table(b"glyf").unwrap().data;
    let loca = &rebuilt.table(b"loca").unwrap().data;
    let offsets: Vec<usize> = loca.chunks(2).map(|c| u16::from_be_bytes([c[0], c[1]]) as usize * 2).collect();
    assert_eq!(offsets.len(), 4);
    assert_eq!(offsets[0], offsets[1], "glyph 0 is empty");
    let g1 = &glyf[offsets[1]..offsets[2]];
    assert_eq!(&g1[0..2], &1i16.to_be_bytes());
    assert_eq!(&g1[2..10], &[0, 100, 0, 0, 1, 0xF4, 2, 0xBC]);
    assert_eq!(&g1[10..12], &3u16.to_be_bytes());
    assert_eq!(&g1[12..14], &0u16.to_be_bytes());
    assert_eq!(&g1[14..18], &[0x33, 0x21, 0x11, 0x21]);
    assert_eq!(&g1[18..25], &[100, 0x01, 0x90, 0xFE, 0x70, 0x02, 0xBC]);
    let g2 = &glyf[offsets[2]..offsets[3]];
    assert_eq!(&g2[0..2], &(-1i16).to_be_bytes());
    assert_eq!(&g2[2..10], &[0, 100, 0, 0, 1, 0xF4, 2, 0xBC]);
    assert_eq!(&g2[10..18], &[0, 3, 0, 1, 0, 0, 0, 0]);
    // Here the plain encoding is the one the source used, so the bytes agree.
    let source = decode(&ttf()).unwrap();
    assert_eq!(glyf, &source.table(b"glyf").unwrap().data);
    assert_eq!(loca, &source.table(b"loca").unwrap().data);
}

#[test]
fn a_reconstructed_font_can_be_re_encoded() {
    let rebuilt = decode(&woff2_transformed_file()).unwrap();
    for target in [Format::Sfnt, Format::Woff1, Format::Woff2] {
        let bytes = encode(&rebuilt, target).unwrap();
        let round_tripped = decode(&bytes).unwrap();
        assert_eq!(
            round_tripped.table(b"glyf").map(|t| t.data.clone()),
            rebuilt.table(b"glyf").map(|t| t.data.clone()),
            "glyf changed re-encoding to {target:?}"
        );
    }
}

#[test]
fn preserves_table_content_across_every_conversion_target() {
    for (name, source) in [("ttf", ttf()), ("otf", otf())] {
        let original = decode(&source).unwrap();
        for target in [Format::Sfnt, Format::Woff1, Format::Woff2] {
            let bytes = encode(&original, target).unwrap();
            let back = decode(&bytes).unwrap();
            assert_same_font(&original, &back, &format!("{name} -> {target:?} -> decode"));
        }
    }
}

#[test]
fn converts_between_woff_variants_without_touching_the_ttf() {
    let from_woff1 = decode(&woff()).unwrap();
    let as_woff2 = encode(&from_woff1, Format::Woff2).unwrap();
    assert_same_font(&decode(&as_woff2).unwrap(), &decode(&ttf()).unwrap(), "woff1 -> woff2");
}

#[test]
fn sfnt_serialisation_is_byte_stable() {
    let once = encode(&decode(&ttf()).unwrap(), Format::Sfnt).unwrap();
    let twice = encode(&decode(&once).unwrap(), Format::Sfnt).unwrap();
    assert_eq!(once, twice, "sfnt encoding is not idempotent");
}

#[test]
fn woff2_is_smaller_than_woff1_for_the_same_font() {
    let font = decode(&ttf()).unwrap();
    let w1 = encode(&font, Format::Woff1).unwrap().len();
    let w2 = encode(&font, Format::Woff2).unwrap().len();
    assert!(w2 < w1, "expected woff2 ({w2}) to beat woff1 ({w1})");
}

#[test]
fn extension_follows_the_outline_flavor() {
    assert_eq!(Format::Sfnt.extension(decode(&ttf()).unwrap().flavor), "ttf");
    assert_eq!(Format::Sfnt.extension(decode(&otf()).unwrap().flavor), "otf");
    assert_eq!(Format::Woff2.extension(decode(&otf()).unwrap().flavor), "woff2");
}

#[test]
fn woff2_encoder_sets_the_lossless_transform_flag() {
    let font = decode(&ttf()).unwrap();
    let woff2 = encode(&font, Format::Woff2).unwrap();
    let head = decode(&woff2).unwrap().table(b"head").unwrap().data.clone();
    let flags = u16::from_be_bytes([head[16], head[17]]);
    assert_eq!(flags & HEAD_FLAG_LOSSLESS, HEAD_FLAG_LOSSLESS, "head.flags bit 11 not set");
}

#[test]
fn plain_sfnt_output_does_not_claim_a_lossless_transform() {
    let font = decode(&ttf()).unwrap();
    let ttf = encode(&font, Format::Sfnt).unwrap();
    let head = decode(&ttf).unwrap().table(b"head").unwrap().data.clone();
    let flags = u16::from_be_bytes([head[16], head[17]]);
    assert_eq!(flags & HEAD_FLAG_LOSSLESS, 0, "sfnt output must not set the WOFF2 producer flag");
}

// ---------------------------------------------------------------------------
// Hostile and damaged input

#[test]
fn empty_input_is_truncated_not_unknown() {
    assert!(matches!(detect(&[]), Err(FontError::Truncated { .. })));
}

#[test]
fn rejects_unrecognised_magic() {
    assert!(matches!(detect(b"%PDF-1.7").unwrap_err(), FontError::UnknownContainer { .. }));
}

#[test]
fn rejects_font_collections_with_a_specific_error() {
    let mut ttc = b"ttcf".to_vec();
    ttc.extend_from_slice(&[0, 1, 0, 0, 0, 0, 0, 2]);
    assert!(matches!(decode(&ttc), Err(FontError::FontCollection | FontError::UnknownContainer { .. })));
}

#[test]
fn no_prefix_of_a_valid_font_can_panic() {
    for fixture in [ttf(), woff(), woff2_null()] {
        for len in 0..fixture.len() {
            let _ = decode(&fixture[..len]);
        }
    }
}

#[test]
fn single_byte_corruption_never_panics() {
    for fixture in [ttf(), woff(), woff2_null()] {
        for i in (0..fixture.len()).step_by(7) {
            let mut damaged = fixture.to_vec();
            damaged[i] ^= 0xff;
            let _ = decode(&damaged);
        }
    }
}

#[test]
fn zero_table_count_is_rejected() {
    let mut ttf = ttf();
    ttf[4] = 0;
    ttf[5] = 0;
    assert!(matches!(decode(&ttf), Err(FontError::BadTableCount { .. })));
}

#[test]
fn table_offset_past_end_of_file_is_rejected() {
    let mut ttf = ttf();
    ttf[20..24].copy_from_slice(&0xFFFF_0000u32.to_be_bytes());
    assert!(matches!(decode(&ttf), Err(FontError::TableOutOfBounds { .. })));
}
