//! The building blocks: UIntBase128, the known-tag list, the byte reader,
//! checksums and alignment.

use kombussy::base128;
use kombussy::base128::read;
use kombussy::read::Reader;
use kombussy::sfnt::{align4, checksum, table_checksum};
use kombussy::tags::{index_for_tag, tag_for_index, ARBITRARY_TAG};
use kombussy::FontError;

/// The normative WOFF2 known-tag list, written out independently of the library.
const KNOWN_TAGS: [&[u8; 4]; 63] = [
    b"cmap", b"head", b"hhea", b"hmtx", b"maxp", b"name", b"OS/2", b"post", b"cvt ", b"fpgm",
    b"glyf", b"loca", b"prep", b"CFF ", b"VORG", b"EBDT", b"EBLC", b"gasp", b"hdmx", b"kern",
    b"LTSH", b"PCLT", b"VDMX", b"vhea", b"vmtx", b"BASE", b"GDEF", b"GPOS", b"GSUB", b"EBSC",
    b"JSTF", b"MATH", b"CBDT", b"CBLC", b"COLR", b"CPAL", b"SVG ", b"sbix", b"acnt", b"avar",
    b"bdat", b"bloc", b"bsln", b"cvar", b"fdsc", b"feat", b"fmtx", b"fvar", b"gvar", b"hsty",
    b"just", b"lcar", b"mort", b"morx", b"opbd", b"prop", b"trak", b"Zapf", b"Silf", b"Glat",
    b"Gloc", b"Feat", b"Sill",
];

fn roundtrip(v: u32) -> u32 {
    let mut buf = Vec::new();
    base128::write(&mut buf, v);
    read(&mut Reader::new(&buf)).expect("decodes")
}

#[test]
fn roundtrips_boundary_values() {
    for v in [0u32, 1, 127, 128, 16_383, 16_384, 1 << 21, 1 << 28, u32::MAX] {
        assert_eq!(roundtrip(v), v, "value {v}");
    }
}

#[test]
fn minimal_encoding_lengths() {
    let mut buf = Vec::new();
    base128::write(&mut buf, 127);
    assert_eq!(buf.len(), 1);
    buf.clear();
    base128::write(&mut buf, 128);
    assert_eq!(buf.len(), 2);
}

#[test]
fn rejects_leading_zero_group() {
    let err = read(&mut Reader::new(&[0x80, 0x01])).unwrap_err();
    assert!(matches!(err, FontError::BadBase128 { .. }));
}

#[test]
fn rejects_overlong_encoding() {
    let err = read(&mut Reader::new(&[0xff, 0xff, 0xff, 0xff, 0xff, 0x7f])).unwrap_err();
    assert!(matches!(err, FontError::BadBase128 { .. }));
}

#[test]
fn known_tag_list_has_63_entries() {
    // Every index below the escape names a tag; the escape itself names none.
    let named = (0..=u8::MAX).filter(|i| tag_for_index(*i).is_some()).count();
    assert_eq!(named, ARBITRARY_TAG as usize);
    assert_eq!(KNOWN_TAGS.len(), ARBITRARY_TAG as usize);
    assert_eq!(tag_for_index(ARBITRARY_TAG), None);
}

#[test]
fn index_and_tag_are_inverse() {
    for (i, tag) in KNOWN_TAGS.iter().enumerate() {
        assert_eq!(index_for_tag(tag), Some(i as u8));
        assert_eq!(tag_for_index(i as u8).as_ref(), Some(*tag));
    }
}

#[test]
fn spot_check_normative_indices() {
    assert_eq!(index_for_tag(b"cmap"), Some(0));
    assert_eq!(index_for_tag(b"glyf"), Some(10));
    assert_eq!(index_for_tag(b"loca"), Some(11));
    assert_eq!(index_for_tag(b"Sill"), Some(62));
}

#[test]
fn unknown_tag_has_no_index() {
    assert_eq!(index_for_tag(b"ZZZZ"), None);
}

#[test]
fn base128_exact_bytes() {
    let mut buf = Vec::new();
    base128::write(&mut buf, 0x3FFF);
    assert_eq!(buf, vec![0xFF, 0x7F]);
    buf.clear();
    base128::write(&mut buf, 0x4000);
    assert_eq!(buf, vec![0x81, 0x80, 0x00]);
    buf.clear();
    base128::write(&mut buf, u32::MAX);
    assert_eq!(buf, vec![0x8F, 0xFF, 0xFF, 0xFF, 0x7F]);
    let mut r = Reader::new(&[0x81, 0x80, 0x00, 0x55]);
    assert_eq!(read(&mut r).unwrap(), 0x4000);
    assert_eq!(r.position(), 3);
}

#[test]
fn base128_rejects_overflow_and_truncation() {
    // Five groups whose value needs more than 32 bits.
    let err = read(&mut Reader::new(&[0x90, 0x80, 0x80, 0x80, 0x00])).unwrap_err();
    assert!(matches!(err, FontError::BadBase128 { .. }));
    let err = read(&mut Reader::new(&[0x81])).unwrap_err();
    assert!(matches!(err, FontError::Truncated { .. }));
}

#[test]
fn reader_reads_big_endian_and_reports_truncation() {
    let data = [0x12, 0x34, 0x56, 0x78, 0x9A];
    let mut r = Reader::new(&data);
    assert_eq!(r.remaining(), 5);
    assert_eq!(r.u16("a").unwrap(), 0x1234);
    assert_eq!(r.u8("b").unwrap(), 0x56);
    assert_eq!(r.position(), 3);
    match r.u32("c") {
        Err(FontError::Truncated { needed, available, while_reading }) => {
            assert_eq!(needed, 4);
            assert_eq!(available, 2);
            assert_eq!(while_reading, "c");
        }
        other => panic!("unexpected {other:?}"),
    }
    // A failed read does not move the cursor.
    assert_eq!(r.position(), 3);
    assert_eq!(r.take_bytes(2, "d").unwrap(), &[0x78, 0x9A]);
    assert_eq!(r.remaining(), 0);
    let mut r = Reader::new(&data);
    assert_eq!(r.u32("e").unwrap(), 0x1234_5678);
    assert_eq!(r.slice_at(1, 2), Some(&data[1..3]));
    assert_eq!(r.slice_at(4, 2), None);
    assert!(r.skip(2, "f").is_err());
    assert!(r.skip(1, "g").is_ok());
    let mut r = Reader::new(b"head");
    assert_eq!(&r.tag("h").unwrap(), b"head");
}

#[test]
fn checksums_and_alignment() {
    assert_eq!(align4(0), 0);
    assert_eq!(align4(1), 4);
    assert_eq!(align4(4), 4);
    assert_eq!(align4(5), 8);
    assert_eq!(checksum(&[0, 0, 0, 1, 0, 0, 0, 2]), 3);
    // The tail is zero-padded to a whole word.
    assert_eq!(checksum(&[0x01]), 0x0100_0000);
    // Sums wrap modulo 2^32.
    assert_eq!(checksum(&[0xFF, 0xFF, 0xFF, 0xFF, 0, 0, 0, 2]), 1);
    // In `head`, checkSumAdjustment reads as zero.
    let mut head = vec![0u8; 12];
    head[3] = 5;
    head[8..12].copy_from_slice(&[0xAA, 0xBB, 0xCC, 0xDD]);
    assert_eq!(table_checksum(b"head", &head), 5);
    assert_eq!(table_checksum(b"hhea", &head), 5 + 0xAABB_CCDD);
}
