//! WOFF 2.0: one brotli stream covering every table, plus a compact directory.
//!
//! Transform version 3 is the null transform for `glyf`/`loca` and is fully
//! conformant, so the encoder emits untransformed tables and leans on brotli
//! for the size win. The decoder reads null-transformed files and rebuilds a
//! transformed `glyf`/`loca` pair.

use crate::base128::{b128_encode, b128_read};
use crate::bytes::{be16, be32, copy_bytes, lemma_be32_bytes, lemma_be32_roundtrip, push_bytes, push_u16, push_u32, push_zeros, u16_be, u32_be};
use crate::error::{truncated, ErrorModel, FontError, Result};
use crate::glyf_transform::{reconstruct, reconstruct_spec, GLYF_TAG_NUMBER};
use crate::read::{read_u8_at, take_at, Reader};
use crate::sfnt::{
    align4, duplicate_check, flavor_check, font_result, round4, sort_by_tag, sorted_by_tag, sum_padded, tables_view, zeros,
    Font, FontModel, Table, TableModel, HEAD_TAG_NUMBER, sfnt_size_of, data_total, distinct_tags, four_byte_tags,
};
use crate::tags::{index_for_tag, known_index, lemma_known_index_sound, known_tag_number, tag_for_index, tag_number, tag_value, ARBITRARY_TAG};
use std::io::{Read, Write};
use vstd::prelude::*;

verus! {

/// 'wOF2' as a number.
pub const WOFF2_MAGIC: u32 = 0x774F_4632;
/// Size of the WOFF2 header.
pub const HEADER_LEN: usize = 48;
/// The most table data the decoder accepts, 512 MiB.
pub const MAX_DECOMPRESSED_BYTES: usize = 0x2000_0000;
/// Brotli settings of the writer (quality, window) and of both directions (buffer).
pub const BROTLI_QUALITY: u32 = 11;
pub const BROTLI_WINDOW_BITS: u32 = 22;
pub const BROTLI_BUFFER: usize = 4096;
/// Null transform for `glyf`/`loca`; any other value there means transformed data.
pub const TRANSFORM_NULL_GLYF: u8 = 3;
/// Null transform for every other table.
pub const TRANSFORM_NULL_DEFAULT: u8 = 0;
/// The tag 'loca' as a number.
pub const LOCA_TAG_NUMBER: u32 = 0x6C6F_6361;
/// Offset of `head.flags`.
pub const HEAD_FLAGS_OFFSET: usize = 16;
/// `head.flags` bit 11: "this font data is the lossless result of an
/// optimising transformation". WOFF2 producers are required to set it.
pub const HEAD_FLAG_LOSSLESS: u16 = 0x0800;

// ---------------------------------------------------------------------------
// brotli

/// What the brotli crate's decompressor, reading `data` through a buffer of
/// `buffer_size` bytes, yields when at most `limit` bytes are taken: the
/// bytes, or nothing when the stream is invalid.
pub uninterp spec fn brotli_decoded(data: Seq<u8>, buffer_size: usize, limit: u64) -> Option<Seq<u8>>;

/// What the brotli crate's compressor writes for `data` with these settings,
/// or nothing when it rejects the input.
pub uninterp spec fn brotli_encoded(data: Seq<u8>, buffer_size: usize, quality: u32, lgwin: u32) -> Option<Seq<u8>>;

/// `brotli::Decompressor` read to the end, at most `limit` bytes taken: the
/// result is the named `brotli_decoded` of the arguments, and never longer
/// than `limit` (that is what `take` does).
#[verifier::external_body]
fn brotli_read(data: &[u8], buffer_size: usize, limit: u64) -> (r: Option<Vec<u8>>)
    ensures
        match r {
            Some(v) => brotli_decoded(data@, buffer_size, limit) == Some(v@) && v@.len() <= limit,
            None => brotli_decoded(data@, buffer_size, limit) is None,
        },
{
    let mut out = Vec::new();
    match brotli::Decompressor::new(data, buffer_size).take(limit).read_to_end(&mut out) {
        Ok(_) => Some(out),
        Err(_) => None,
    }
}

/// `brotli::CompressorWriter` over a vector, `data` written and the stream
/// finished when the writer drops: the result is the named `brotli_encoded` of
/// the arguments. The contract also states that the stream is lossless:
/// decompressing it, taking at least as many bytes as the input holds, gives
/// the input.
#[verifier::external_body]
fn brotli_write(data: &[u8], buffer_size: usize, quality: u32, lgwin: u32) -> (r: Option<Vec<u8>>)
    ensures
        match r {
            Some(v) => brotli_encoded(data@, buffer_size, quality, lgwin) == Some(v@),
            None => brotli_encoded(data@, buffer_size, quality, lgwin) is None,
        },
        r matches Some(v) ==> forall|b: usize, limit: u64|
            b >= 1 && data@.len() <= limit ==> #[trigger] brotli_decoded(v@, b, limit) == Some(data@),
{
    let mut out = Vec::new();
    let written = {
        let mut writer = brotli::CompressorWriter::new(&mut out, buffer_size, quality, lgwin);
        writer.write_all(data).is_ok()
    };
    if written { Some(out) } else { None }
}

// ---------------------------------------------------------------------------
// Reading

/// Whether `s` starts with the WOFF2 signature.
pub open spec fn is_woff2_spec(s: Seq<u8>) -> bool {
    s.len() >= 4 && s.subrange(0, 4) == u32_be(WOFF2_MAGIC)
}

/// Whether `input` starts with the WOFF2 signature.
pub fn is_woff2(input: &[u8]) -> (b: bool)
    ensures
        b == is_woff2_spec(input@),
{
    if input.len() < 4 {
        return false;
    }
    let b = input[0] == 0x77 && input[1] == 0x4F && input[2] == 0x46 && input[3] == 0x32;
    assert(u32_be(WOFF2_MAGIC) =~= seq![0x77u8, 0x4Fu8, 0x46u8, 0x32u8]);
    assert(b == (input@.subrange(0, 4) =~= u32_be(WOFF2_MAGIC)));
    b
}

/// Whether the tag is `glyf` or `loca`.
pub open spec fn is_glyf_or_loca(tag: Seq<u8>) -> bool {
    tag_number(tag) == GLYF_TAG_NUMBER || tag_number(tag) == LOCA_TAG_NUMBER
}

/// Which transform value means "no transform" for a tag.
pub open spec fn null_transform(tag: Seq<u8>) -> u8 {
    if is_glyf_or_loca(tag) { TRANSFORM_NULL_GLYF } else { TRANSFORM_NULL_DEFAULT }
}

fn null_transform_for(tag: &[u8; 4]) -> (v: u8)
    ensures
        v == null_transform(tag@),
{
    let t = tag_value(tag);
    if t == GLYF_TAG_NUMBER || t == LOCA_TAG_NUMBER {
        TRANSFORM_NULL_GLYF
    } else {
        TRANSFORM_NULL_DEFAULT
    }
}

/// One WOFF2 directory entry.
pub struct EntryModel {
    pub tag: Seq<u8>,
    pub transform_version: u8,
    pub orig_length: u32,
    /// Length of this table inside the decompressed stream, which differs
    /// from `orig_length` whenever a transform is applied.
    pub stream_length: u32,
    pub transformed: bool,
}

/// Reading a directory entry at `pos` of `s`: the entry and the next
/// position, or the error.
#[verifier::opaque]
pub open spec fn woff2_entry_at(s: Seq<u8>, pos: int) -> core::result::Result<(EntryModel, int), ErrorModel> {
    match read_u8_at(s, pos, "WOFF2 table flags") {
        Err(e) => Err(e),
        Ok((flags, p1)) => {
            let index = flags % 64;
            let version = flags / 64;
            let tagged = if index == ARBITRARY_TAG {
                take_at(s, p1, 4, "WOFF2 arbitrary table tag")
            } else {
                Ok((u32_be(known_tag_number(index)), p1))
            };
            match tagged {
                Err(e) => Err(e),
                Ok((tag, p2)) => match b128_read(s, p2) {
                    Err(e) => Err(e),
                    Ok((orig, p3)) => {
                        // transformLength is present only when the table is transformed.
                        let transformed = version != null_transform(tag);
                        let streamed = if transformed { b128_read(s, p3) } else { Ok((orig, p3)) };
                        match streamed {
                            Err(e) => Err(e),
                            Ok((stream, p4)) => if transformed && !is_glyf_or_loca(tag) {
                                Err(ErrorModel::UnsupportedTransform { tag, version })
                            } else {
                                Ok((
                                    EntryModel {
                                        tag,
                                        transform_version: version,
                                        orig_length: orig,
                                        stream_length: stream,
                                        transformed,
                                    },
                                    p4,
                                ))
                            },
                        }
                    },
                },
            }
        },
    }
}

/// Reading directory entries `k..n` from `pos`, after `acc`.
pub open spec fn woff2_entries_from(s: Seq<u8>, pos: int, k: nat, n: nat, acc: Seq<EntryModel>)
    -> core::result::Result<(Seq<EntryModel>, int), ErrorModel>
    decreases n - k,
{
    if k >= n {
        Ok((acc, pos))
    } else {
        match woff2_entry_at(s, pos) {
            Err(e) => Err(e),
            Ok((e, p)) => woff2_entries_from(s, p, k + 1, n, acc.push(e)),
        }
    }
}

/// Sum of the stream lengths of the first `n` entries.
pub open spec fn stream_total(es: Seq<EntryModel>, n: nat) -> int
    decreases n,
{
    if n == 0 { 0 } else { stream_total(es, (n - 1) as nat) + es[n - 1].stream_length }
}

/// Cutting the tables of the first `n` entries out of the decompressed block:
/// the tables (transformed ones empty), the last transformed `glyf` payload,
/// and the cursor.
pub open spec fn woff2_tables(es: Seq<EntryModel>, block: Seq<u8>, n: nat)
    -> core::result::Result<(Seq<TableModel>, Option<Seq<u8>>, int), ErrorModel>
    decreases n,
{
    if n == 0 {
        Ok((Seq::empty(), None, 0))
    } else {
        match woff2_tables(es, block, (n - 1) as nat) {
            Err(e) => Err(e),
            Ok((ts, glyf, cursor)) => {
                let e = es[n - 1];
                let len = e.stream_length as int;
                if cursor + len > block.len() {
                    Err(ErrorModel::Decompress { tag: Some(e.tag), detail: "table extends past the decompressed stream" })
                } else {
                    let slice = block.subrange(cursor, cursor + len);
                    if e.transformed {
                        if tag_number(e.tag) == GLYF_TAG_NUMBER {
                            Ok((ts.push(TableModel { tag: e.tag, data: Seq::empty() }), Some(slice), cursor + len))
                        } else if e.stream_length != 0 {
                            Err(ErrorModel::UnsupportedTransform { tag: e.tag, version: e.transform_version })
                        } else {
                            Ok((ts.push(TableModel { tag: e.tag, data: Seq::empty() }), glyf, cursor + len))
                        }
                    } else if slice.len() != e.orig_length {
                        Err(ErrorModel::LengthMismatch { tag: e.tag, declared: e.orig_length, actual: slice.len() as usize })
                    } else {
                        Ok((ts.push(TableModel { tag: e.tag, data: slice }), glyf, cursor + len))
                    }
                }
            },
        }
    }
}

/// The tables with every `glyf` and `loca` replaced by the rebuilt ones.
pub open spec fn with_rebuilt(ts: Seq<TableModel>, glyf: Seq<u8>, loca: Seq<u8>) -> Seq<TableModel> {
    Seq::new(
        ts.len(),
        |i: int|
            if tag_number(ts[i].tag) == GLYF_TAG_NUMBER {
                TableModel { tag: ts[i].tag, data: glyf }
            } else if tag_number(ts[i].tag) == LOCA_TAG_NUMBER {
                TableModel { tag: ts[i].tag, data: loca }
            } else {
                ts[i]
            },
    )
}

/// The decompressed-block part of decoding: from the directory and the
/// compressed bytes to the tables.
pub open spec fn woff2_body_spec(s: Seq<u8>, flavor: u32, es: Seq<EntryModel>, data_start: int, total_compressed: u32)
    -> core::result::Result<FontModel, ErrorModel>
{
    if data_start + total_compressed > s.len() {
        Err(truncated(total_compressed as int, s.len() - data_start, "WOFF2 compressed font data"))
    } else {
        let expected = stream_total(es, es.len());
        if expected > MAX_DECOMPRESSED_BYTES {
            Err(ErrorModel::Decompress { tag: None, detail: "declared table sizes exceed the decode limit" })
        } else {
            let limit = if expected + 1 < MAX_DECOMPRESSED_BYTES { expected + 1 } else { MAX_DECOMPRESSED_BYTES as int };
            match brotli_decoded(s.subrange(data_start, data_start + total_compressed), BROTLI_BUFFER, limit as u64) {
                None => Err(ErrorModel::Decompress { tag: None, detail: "brotli stream is invalid" }),
                Some(block) => if block.len() < expected {
                    Err(ErrorModel::Decompress { tag: None, detail: "decompressed stream is shorter than the directory declares" })
                } else if block.len() > expected {
                    Err(ErrorModel::Decompress { tag: None, detail: "decompressed stream is longer than the directory declares" })
                } else {
                    match woff2_tables(es, block, es.len()) {
                        Err(e) => Err(e),
                        Ok((ts, glyf, _)) => {
                            let rebuilt = match glyf {
                                None => Ok(ts),
                                Some(payload) => match reconstruct_spec(payload) {
                                    Err(e) => Err(e),
                                    Ok((g, l)) => Ok(with_rebuilt(ts, g, l)),
                                },
                            };
                            match rebuilt {
                                Err(e) => Err(e),
                                Ok(tables) => match duplicate_check(tables, tables.len()) {
                                    Err(e) => Err(e),
                                    Ok(_) => Ok(FontModel { flavor, tables }),
                                },
                            }
                        },
                    }
                },
            }
        }
    }
}

/// What decoding `s` as WOFF 2.0 gives.
pub open spec fn woff2_decode_spec(s: Seq<u8>) -> core::result::Result<FontModel, ErrorModel> {
    if s.len() < 4 {
        Err(truncated(4, s.len() as int, "WOFF2 signature"))
    } else if s.subrange(0, 4) != u32_be(WOFF2_MAGIC) {
        Err(ErrorModel::UnknownContainer { magic: s.subrange(0, 4) })
    } else if s.len() < 8 {
        Err(truncated(4, s.len() - 4, "WOFF2 flavor"))
    } else {
        let flavor = be32(s, 4);
        match flavor_check(flavor) {
            Err(e) => Err(e),
            Ok(_) => if s.len() < 12 {
                Err(truncated(4, s.len() - 8, "WOFF2 length"))
            } else if s.len() < 14 {
                Err(truncated(2, s.len() - 12, "WOFF2 table count"))
            } else {
                let n = be16(s, 12);
                if n == 0 {
                    Err(ErrorModel::BadTableCount { count: n })
                } else if s.len() < 16 {
                    Err(truncated(2, s.len() - 14, "WOFF2 reserved"))
                } else if s.len() < 20 {
                    Err(truncated(4, s.len() - 16, "WOFF2 totalSfntSize"))
                } else if s.len() < 24 {
                    Err(truncated(4, s.len() - 20, "WOFF2 totalCompressedSize"))
                } else if s.len() < 28 {
                    Err(truncated(4, s.len() - 24, "WOFF2 version"))
                } else if s.len() < HEADER_LEN {
                    Err(truncated(20, s.len() - 28, "WOFF2 metadata and private blocks"))
                } else {
                    match woff2_entries_from(s, HEADER_LEN as int, 0, n as nat, Seq::empty()) {
                        Err(e) => Err(e),
                        Ok((es, data_start)) => woff2_body_spec(s, flavor, es, data_start, be32(s, 20)),
                    }
                }
            },
        }
    }
}

/// A directory entry as read.
pub struct DirectoryEntry {
    pub tag: [u8; 4],
    pub transform_version: u8,
    pub orig_length: u32,
    pub stream_length: u32,
    pub transformed: bool,
}

impl View for DirectoryEntry {
    type V = EntryModel;

    open spec fn view(&self) -> EntryModel {
        EntryModel {
            tag: self.tag@,
            transform_version: self.transform_version,
            orig_length: self.orig_length,
            stream_length: self.stream_length,
            transformed: self.transformed,
        }
    }
}

/// The models of a sequence of entries.
pub open spec fn entries_view(es: Seq<DirectoryEntry>) -> Seq<EntryModel> {
    Seq::new(es.len(), |i: int| es[i]@)
}

/// Read one directory entry.
fn read_directory_entry(r: &mut Reader<'_>) -> (res: Result<DirectoryEntry>)
    requires
        old(r).wf(),
    ensures
        final(r).data() == old(r).data(),
        match res {
            Ok(e) => woff2_entry_at(old(r).data(), old(r).pos()) == Ok::<(EntryModel, int), ErrorModel>((e@, final(r).pos()))
                && final(r).wf(),
            Err(e) => woff2_entry_at(old(r).data(), old(r).pos()) == Err::<(EntryModel, int), ErrorModel>(e@),
        },
{
    reveal(woff2_entry_at);
    let flags = r.u8("WOFF2 table flags")?;
    let tag_index = flags % 64;
    let transform_version = flags / 64;
    let tag = if tag_index == ARBITRARY_TAG {
        r.tag("WOFF2 arbitrary table tag")?
    } else {
        match tag_for_index(tag_index) {
            Some(t) => t,
            None => {
                return Err(FontError::BadBase128 { detail: "table tag index out of range" });
            },
        }
    };
    let orig_length = crate::base128::read(r)?;

    // transformLength is present only when the table is actually transformed.
    let transformed = transform_version != null_transform_for(&tag);
    let stream_length = if transformed { crate::base128::read(r)? } else { orig_length };

    // The glyf/loca transform is reconstructed later; nothing else is defined.
    let t = tag_value(&tag);
    if transformed && t != GLYF_TAG_NUMBER && t != LOCA_TAG_NUMBER {
        return Err(FontError::UnsupportedTransform { tag, version: transform_version });
    }
    Ok(DirectoryEntry { tag, transform_version, orig_length, stream_length, transformed })
}

/// Decompress the table block. One byte beyond the expectation is taken, so
/// that the caller can tell an oversized stream from an exact one.
fn brotli_decompress(data: &[u8], expected: usize) -> (res: Result<Vec<u8>>)
    requires
        expected <= MAX_DECOMPRESSED_BYTES,
    ensures
        match res {
            Ok(v) => brotli_decoded(data@, BROTLI_BUFFER, (if expected + 1 < MAX_DECOMPRESSED_BYTES { expected + 1 } else { MAX_DECOMPRESSED_BYTES as int }) as u64) == Some(v@),
            Err(e) => brotli_decoded(data@, BROTLI_BUFFER, (if expected + 1 < MAX_DECOMPRESSED_BYTES { expected + 1 } else { MAX_DECOMPRESSED_BYTES as int }) as u64) is None
                && e@ == ErrorModel::Decompress { tag: None, detail: "brotli stream is invalid" },
        },
{
    let limit = if expected + 1 < MAX_DECOMPRESSED_BYTES { expected + 1 } else { MAX_DECOMPRESSED_BYTES };
    match brotli_read(data, BROTLI_BUFFER, limit as u64) {
        Some(v) => Ok(v),
        None => Err(FontError::Decompress { tag: None, detail: "brotli stream is invalid" }),
    }
}

proof fn lemma_stream_total_mono(es: Seq<EntryModel>, m: nat, n: nat)
    requires
        m <= n,
    ensures
        0 <= stream_total(es, m) <= stream_total(es, n),
    decreases n,
{
    if m < n {
        lemma_stream_total_mono(es, m, (n - 1) as nat);
    } else if n > 0 {
        lemma_stream_total_mono(es, (n - 1) as nat, (n - 1) as nat);
    }
}

proof fn lemma_woff2_tables_cursor(es: Seq<EntryModel>, block: Seq<u8>, n: nat)
    ensures
        woff2_tables(es, block, n) matches Ok((ts, _, cursor)) ==> cursor == stream_total(es, n) && ts.len() == n,
    decreases n,
{
    if n > 0 {
        lemma_woff2_tables_cursor(es, block, (n - 1) as nat);
    }
}

proof fn lemma_woff2_tables_err_stands(es: Seq<EntryModel>, block: Seq<u8>, m: nat, n: nat)
    requires
        m <= n,
        woff2_tables(es, block, m) is Err,
    ensures
        woff2_tables(es, block, n) == woff2_tables(es, block, m),
    decreases n,
{
    if m < n {
        lemma_woff2_tables_err_stands(es, block, m, (n - 1) as nat);
    }
}

/// The optional payload as values.
pub open spec fn payload_view(p: Option<Vec<u8>>) -> Option<Seq<u8>> {
    match p {
        Some(v) => Some(v@),
        None => None,
    }
}

/// Cut the tables out of the decompressed block.
fn cut_tables(entries: &Vec<DirectoryEntry>, block: &Vec<u8>) -> (res: Result<(Vec<Table>, Option<Vec<u8>>)>)
    requires
        stream_total(entries_view(entries@), entries@.len()) <= block@.len(),
    ensures
        match res {
            Ok((ts, glyf)) => woff2_tables(entries_view(entries@), block@, entries@.len()) matches Ok((mts, mg, _))
                && mts == tables_view(ts@) && mg == payload_view(glyf),
            Err(e) => woff2_tables(entries_view(entries@), block@, entries@.len()) == Err::<(Seq<TableModel>, Option<Seq<u8>>, int), ErrorModel>(e@),
        },
{
    let ghost es = entries_view(entries@);
    let mut tables: Vec<Table> = Vec::new();
    let mut transformed_glyf: Option<Vec<u8>> = None;
    let mut cursor: usize = 0;
    let mut i: usize = 0;
    assert(tables_view(tables@) =~= Seq::<TableModel>::empty());
    while i < entries.len()
        invariant
            es == entries_view(entries@),
            stream_total(es, es.len()) <= block@.len(),
            i <= entries@.len(),
            woff2_tables(es, block@, i as nat) == Ok::<(Seq<TableModel>, Option<Seq<u8>>, int), ErrorModel>((tables_view(tables@), payload_view(transformed_glyf), cursor as int)),
        decreases entries@.len() - i,
    {
        proof {
            lemma_woff2_tables_cursor(es, block@, i as nat);
            lemma_stream_total_mono(es, (i + 1) as nat, es.len());
        }
        let e = &entries[i];
        let len = e.stream_length as usize;
        let block_len = block.len();
        assert(es[i as int] == e@);
        assert(cursor + len <= block_len);
        let slice = &block.as_slice()[cursor..cursor + len];
        let next = cursor + len;
        let ghost before = tables@;
        if e.transformed {
            // A transformed loca carries no payload; it is regenerated together
            // with glyf, so both are filled in once reconstruction has run.
            if tag_value(&e.tag) == GLYF_TAG_NUMBER {
                transformed_glyf = Some(copy_bytes(slice));
            } else if e.stream_length != 0 {
                proof { lemma_woff2_tables_err_stands(es, block@, (i + 1) as nat, es.len()); }
                return Err(FontError::UnsupportedTransform { tag: e.tag, version: e.transform_version });
            }
            tables.push(Table { tag: e.tag, data: Vec::new() });
        } else {
            if slice.len() != e.orig_length as usize {
                proof { lemma_woff2_tables_err_stands(es, block@, (i + 1) as nat, es.len()); }
                return Err(FontError::LengthMismatch { tag: e.tag, declared: e.orig_length, actual: slice.len() });
            }
            tables.push(Table { tag: e.tag, data: copy_bytes(slice) });
        }
        assert(tables_view(tables@) =~= tables_view(before).push(tables@[i as int]@));
        assert(tables@[i as int].data@ =~= (if e.transformed { Seq::empty() } else { slice@ }));
        cursor = next;
        i = i + 1;
    }
    Ok((tables, transformed_glyf))
}

/// Replace every `glyf` and `loca` by the rebuilt tables.
fn replace_rebuilt(tables: &Vec<Table>, glyf: &Vec<u8>, loca: &Vec<u8>) -> (r: Vec<Table>)
    ensures
        tables_view(r@) == with_rebuilt(tables_view(tables@), glyf@, loca@),
{
    let mut out: Vec<Table> = Vec::new();
    let mut i: usize = 0;
    while i < tables.len()
        invariant
            i <= tables@.len(),
            tables_view(out@) == with_rebuilt(tables_view(tables@), glyf@, loca@).subrange(0, i as int),
            out@.len() == i,
        decreases tables@.len() - i,
    {
        let t = &tables[i];
        let v = tag_value(&t.tag);
        let data = if v == GLYF_TAG_NUMBER {
            copy_bytes(glyf.as_slice())
        } else if v == LOCA_TAG_NUMBER {
            copy_bytes(loca.as_slice())
        } else {
            copy_bytes(t.data.as_slice())
        };
        let ghost before = out@;
        out.push(Table { tag: t.tag, data });
        assert(tables_view(tables@)[i as int] == tables@[i as int]@);
        assert(out@.len() == i + 1);
        assert(tables_view(out@)[i as int] == out@[i as int]@);
        assert(tables_view(out@)[i as int] == with_rebuilt(tables_view(tables@), glyf@, loca@)[i as int]);
        assert(tables_view(out@) =~= with_rebuilt(tables_view(tables@), glyf@, loca@).subrange(0, i + 1));
        i = i + 1;
    }
    assert(with_rebuilt(tables_view(tables@), glyf@, loca@).subrange(0, i as int) =~= with_rebuilt(tables_view(tables@), glyf@, loca@));
    out
}

proof fn lemma_entries_from_err_stands(s: Seq<u8>, k: nat, n: nat, pos: int, acc: Seq<EntryModel>)
    requires
        k < n,
        woff2_entry_at(s, pos) is Err,
    ensures
        woff2_entries_from(s, pos, k, n, acc) == Err::<(Seq<EntryModel>, int), ErrorModel>(woff2_entry_at(s, pos)->Err_0),
{
}

/// Everything after the directory: decompress, cut, rebuild, check.
fn decode_body(input: &[u8], flavor: u32, entries: Vec<DirectoryEntry>, data_start: usize, total_compressed_size: u32)
    -> (r: Result<Font>)
    requires
        data_start <= input@.len(),
        entries@.len() <= 0xffff,
    ensures
        font_result(r) == woff2_body_spec(input@, flavor, entries_view(entries@), data_start as int, total_compressed_size),
{
    let ghost es = entries_view(entries@);
    // The compressed block runs from the end of the directory to the declared length.
    let file_len = input.len();
    let data_end = match data_start.checked_add(total_compressed_size as usize) {
        Some(end) if end <= file_len => end,
        _ => {
            return Err(FontError::Truncated {
                needed: total_compressed_size as usize,
                available: file_len.saturating_sub(data_start),
                while_reading: "WOFF2 compressed font data",
            });
        },
    };

    let mut expected: u64 = 0;
    let mut i: usize = 0;
    while i < entries.len()
        invariant
            es == entries_view(entries@),
            i <= entries@.len(),
            expected == stream_total(es, i as nat),
            expected <= i * 0xffff_ffff,
            entries@.len() <= 0xffff,
        decreases entries@.len() - i,
    {
        assert(es[i as int] == entries@[i as int]@);
        expected = expected + entries[i].stream_length as u64;
        i = i + 1;
    }
    if expected > MAX_DECOMPRESSED_BYTES as u64 {
        return Err(FontError::Decompress { tag: None, detail: "declared table sizes exceed the decode limit" });
    }
    let expected = expected as usize;
    let block = brotli_decompress(&input[data_start..data_end], expected)?;
    if block.len() < expected {
        return Err(FontError::Decompress {
            tag: None,
            detail: "decompressed stream is shorter than the directory declares",
        });
    }
    if block.len() > expected {
        return Err(FontError::Decompress {
            tag: None,
            detail: "decompressed stream is longer than the directory declares",
        });
    }

    let (tables, transformed_glyf) = cut_tables(&entries, &block)?;
    let tables = match transformed_glyf {
        None => tables,
        Some(payload) => {
            let rebuilt = reconstruct(payload.as_slice())?;
            replace_rebuilt(&tables, &rebuilt.glyf, &rebuilt.loca)
        },
    };
    Font::reject_duplicate_tags(tables.as_slice())?;
    Ok(Font { flavor, tables })
}

proof fn lemma_entries_from_step(s: Seq<u8>, pos: int, k: nat, n: nat, acc: Seq<EntryModel>, e: EntryModel, p: int)
    requires
        k < n,
        woff2_entry_at(s, pos) == Ok::<(EntryModel, int), ErrorModel>((e, p)),
    ensures
        woff2_entries_from(s, pos, k, n, acc) == woff2_entries_from(s, p, k + 1, n, acc.push(e)),
{
}

/// Read the `n` directory entries that follow the header.
fn read_directory(r: &mut Reader<'_>, n: u16) -> (res: Result<Vec<DirectoryEntry>>)
    requires
        old(r).wf(),
    ensures
        final(r).data() == old(r).data(),
        match res {
            Ok(es) => woff2_entries_from(old(r).data(), old(r).pos(), 0, n as nat, Seq::empty())
                == Ok::<(Seq<EntryModel>, int), ErrorModel>((entries_view(es@), final(r).pos()))
                && final(r).wf() && es@.len() == n,
            Err(e) => woff2_entries_from(old(r).data(), old(r).pos(), 0, n as nat, Seq::empty())
                == Err::<(Seq<EntryModel>, int), ErrorModel>(e@),
        },
{
    let ghost s = r.data();
    let ghost start = r.pos();
    let mut entries: Vec<DirectoryEntry> = Vec::new();
    let mut i: u16 = 0;
    assert(entries_view(entries@) =~= Seq::<EntryModel>::empty());
    while i < n
        invariant
            r.data() == s,
            s == old(r).data(),
            start == old(r).pos(),
            r.wf(),
            i <= n,
            entries@.len() == i,
            woff2_entries_from(s, r.pos(), i as nat, n as nat, entries_view(entries@))
                == woff2_entries_from(s, start, 0, n as nat, Seq::empty()),
        decreases n - i,
    {
        let ghost here = r.pos();
        let ghost acc = entries_view(entries@);
        let e = match read_directory_entry(r) {
            Ok(e) => e,
            Err(err) => {
                proof { lemma_entries_from_err_stands(s, i as nat, n as nat, here, acc); }
                return Err(err);
            },
        };
        proof { lemma_entries_from_step(s, here, i as nat, n as nat, acc, e@, r.pos()); }
        let ghost before = entries@;
        entries.push(e);
        assert(entries_view(entries@) =~= acc.push(e@));
        i = i + 1;
    }
    Ok(entries)
}

/// Decode a WOFF 2.0 file.
pub fn decode(input: &[u8]) -> (r: Result<Font>)
    ensures
        font_result(r) == woff2_decode_spec(input@),
{
    let ghost s = input@;
    let mut r = Reader::new(input);
    let magic = r.tag("WOFF2 signature")?;
    proof {
        lemma_be32_bytes(magic@);
        lemma_be32_roundtrip(WOFF2_MAGIC);
    }
    if tag_value(&magic) != WOFF2_MAGIC {
        return Err(FontError::UnknownContainer { magic });
    }
    let flavor = r.u32("WOFF2 flavor")?;
    Font::check_flavor(flavor)?;
    r.skip(4, "WOFF2 length")?;
    let num_tables = r.u16("WOFF2 table count")?;
    if num_tables == 0 {
        return Err(FontError::BadTableCount { count: num_tables });
    }
    r.skip(2, "WOFF2 reserved")?;
    r.skip(4, "WOFF2 totalSfntSize")?;
    let total_compressed_size = r.u32("WOFF2 totalCompressedSize")?;
    r.skip(4, "WOFF2 version")?;
    r.skip(12 + 8, "WOFF2 metadata and private blocks")?;

    let entries = read_directory(&mut r, num_tables)?;
    let data_start = r.position();
    decode_body(input, flavor, entries, data_start, total_compressed_size)
}


// ---------------------------------------------------------------------------
// Writing

/// The first `head` table at or after index `k`.
pub open spec fn first_head_from(ts: Seq<TableModel>, k: nat) -> Option<int>
    decreases ts.len() - k,
{
    if k >= ts.len() {
        None
    } else if tag_number(ts[k as int].tag) == HEAD_TAG_NUMBER {
        Some(k as int)
    } else {
        first_head_from(ts, k + 1)
    }
}

/// `head` data with the lossless-transform bit set in its flags, when the
/// flags field is there.
pub open spec fn lossless_flags(data: Seq<u8>) -> Seq<u8> {
    if data.len() >= HEAD_FLAGS_OFFSET + 2 {
        data.subrange(0, HEAD_FLAGS_OFFSET as int)
            + u16_be(be16(data, HEAD_FLAGS_OFFSET as int) | HEAD_FLAG_LOSSLESS)
            + data.subrange(HEAD_FLAGS_OFFSET + 2, data.len() as int)
    } else {
        data
    }
}

/// The tables with the first `head` marked as losslessly transformed.
pub open spec fn mark_lossless(ts: Seq<TableModel>) -> Seq<TableModel> {
    match first_head_from(ts, 0) {
        None => ts,
        Some(h) => ts.update(h, TableModel { tag: ts[h].tag, data: lossless_flags(ts[h].data) }),
    }
}

/// The flags byte of a directory entry: transform version in the top two
/// bits, known-tag index (or 63) below.
pub open spec fn woff2_flags(tag: Seq<u8>) -> u8 {
    let index = match known_index(tag_number(tag)) {
        Some(i) => i,
        None => ARBITRARY_TAG,
    };
    (null_transform(tag) * 64 + index) as u8
}

/// The directory entry written for a table: flags, the tag when it is not a
/// known one, and the length.
pub open spec fn woff2_dir_entry(t: TableModel) -> Seq<u8> {
    let tail = b128_encode(t.data.len() as u32);
    match known_index(tag_number(t.tag)) {
        Some(_) => seq![woff2_flags(t.tag)] + tail,
        None => seq![woff2_flags(t.tag)] + t.tag + tail,
    }
}

/// The first `n` directory entries.
pub open spec fn woff2_dir(ts: Seq<TableModel>, n: nat) -> Seq<u8>
    decreases n,
{
    if n == 0 { Seq::empty() } else { woff2_dir(ts, (n - 1) as nat) + woff2_dir_entry(ts[n - 1]) }
}

/// The data of the first `n` tables, back to back.
pub open spec fn woff2_block(ts: Seq<TableModel>, n: nat) -> Seq<u8>
    decreases n,
{
    if n == 0 { Seq::empty() } else { woff2_block(ts, (n - 1) as nat) + ts[n - 1].data }
}

/// The 48-byte WOFF2 header.
pub open spec fn woff2_header(flavor: u32, n: nat, sfnt_size: int, total_length: int, compressed_length: int) -> Seq<u8> {
    u32_be(WOFF2_MAGIC) + u32_be(flavor) + u32_be((total_length % 0x1_0000_0000) as u32) + u16_be(n as u16)
        + u16_be(0) + u32_be(sfnt_size as u32) + u32_be(compressed_length as u32) + u16_be(1) + u16_be(0)
        + zeros(20)
}

/// The tables as `encode` writes them: in tag order, `head` marked.
pub open spec fn woff2_tables_out(font: FontModel) -> Seq<TableModel> {
    mark_lossless(sort_by_tag(font.tables))
}

/// What encoding a font as WOFF 2.0 gives.
pub open spec fn woff2_encode_spec(font: FontModel) -> core::result::Result<Seq<u8>, ErrorModel> {
    let ts = woff2_tables_out(font);
    let dir = woff2_dir(ts, ts.len());
    match brotli_encoded(woff2_block(ts, ts.len()), BROTLI_BUFFER, BROTLI_QUALITY, BROTLI_WINDOW_BITS) {
        None => Err(ErrorModel::Decompress { tag: None, detail: "brotli encoder rejected the input" }),
        Some(c) => Ok(
            woff2_header(font.flavor, ts.len(), sfnt_size_of(ts), HEADER_LEN + dir.len() + c.len(), c.len() as int) + dir + c,
        ),
    }
}

/// A font whose WOFF2 form reads back: a known flavor, one to 65535 tables
/// with distinct four-byte tags, and no more table data than the decoder
/// accepts.
pub open spec fn woff2_round_trips(font: FontModel) -> bool {
    &&& flavor_check(font.flavor) is Ok
    &&& 1 <= font.tables.len() <= 0xffff
    &&& four_byte_tags(font.tables)
    &&& distinct_tags(font.tables)
    &&& data_total(font.tables) <= MAX_DECOMPRESSED_BYTES
}

/// A font `encode` can write: its sfnt size fits in memory.
pub open spec fn woff2_writable(font: FontModel) -> bool {
    sfnt_size_of(font.tables) <= usize::MAX
}

/// Set `head.flags` bit 11 in the first `head` table, as WOFF2 requires of
/// its producers.
fn mark_lossless_transform(tables: &mut Vec<Table>)
    ensures
        tables_view(final(tables)@) == mark_lossless(tables_view(old(tables)@)),
{
    let ghost ts = tables_view(tables@);
    let mut i: usize = 0;
    while i < tables.len() && tag_value(&tables[i].tag) != HEAD_TAG_NUMBER
        invariant
            i <= tables@.len(),
            ts == tables_view(tables@),
            first_head_from(ts, 0) == first_head_from(ts, i as nat),
        decreases tables@.len() - i,
    {
        assert(ts[i as int] == tables@[i as int]@);
        i = i + 1;
    }
    if i == tables.len() {
        return;
    }
    assert(ts[i as int] == tables@[i as int]@);
    assert(first_head_from(ts, 0) == Some(i as int));
    let data = &tables[i].data;
    if data.len() < HEAD_FLAGS_OFFSET + 2 {
        assert(ts.update(i as int, TableModel { tag: ts[i as int].tag, data: lossless_flags(ts[i as int].data) }) =~= ts);
        return;
    }
    let flags = ((data[HEAD_FLAGS_OFFSET] as u16) * 256 + data[HEAD_FLAGS_OFFSET + 1] as u16) | HEAD_FLAG_LOSSLESS;
    let mut marked = copy_bytes(data.as_slice());
    marked.set(HEAD_FLAGS_OFFSET, (flags / 256) as u8);
    marked.set(HEAD_FLAGS_OFFSET + 1, (flags % 256) as u8);
    let tag = tables[i].tag;
    assert(ts[i as int] == tables@[i as int]@);
    assert(be16(data@, HEAD_FLAGS_OFFSET as int) == (data@[16] as u16) * 256 + data@[17] as u16);
    assert(marked@ =~= lossless_flags(ts[i as int].data));
    tables.set(i, Table { tag, data: marked });
    assert(tables_view(tables@) =~= mark_lossless(ts));
}


/// Write the directory entries and the concatenated table data.
fn write_directory_and_block(tables: &Vec<Table>) -> (r: (Vec<u8>, Vec<u8>))
    ensures
        r.0@ == woff2_dir(tables_view(tables@), tables@.len()),
        r.1@ == woff2_block(tables_view(tables@), tables@.len()),
{
    let ghost ts = tables_view(tables@);
    let mut directory: Vec<u8> = Vec::new();
    let mut block: Vec<u8> = Vec::new();
    let mut i: usize = 0;
    while i < tables.len()
        invariant
            i <= tables@.len(),
            ts == tables_view(tables@),
            directory@ == woff2_dir(ts, i as nat),
            block@ == woff2_block(ts, i as nat),
        decreases tables@.len() - i,
    {
        let t = &tables[i];
        assert(ts[i as int] == t@);
        let ghost dir_before = directory@;
        let transform_version = null_transform_for(&t.tag);
        let index = index_for_tag(&t.tag);
        let flags = match index {
            Some(index) => (transform_version << 6) | index,
            None => (transform_version << 6) | ARBITRARY_TAG,
        };
        proof {
            let low: u8 = match index { Some(k) => k, None => ARBITRARY_TAG };
            lemma_known_index_sound(tag_number(t.tag@));
            assert(transform_version <= 3 && low < 64 ==> (transform_version << 6) | low == transform_version * 64 + low) by (bit_vector);
        }
        directory.push(flags);
        if index.is_none() {
            push_bytes(&mut directory, &t.tag);
        }
        crate::base128::write(&mut directory, t.data.len() as u32);
        assert(directory@ =~= dir_before + woff2_dir_entry(ts[i as int]));
        // Null transform, so transformLength is omitted by definition.
        push_bytes(&mut block, t.data.as_slice());
        i = i + 1;
    }
    (directory, block)
}


/// Compress the table block.
fn brotli_compress(data: &[u8]) -> (res: Result<Vec<u8>>)
    ensures
        match res {
            Ok(v) => brotli_encoded(data@, BROTLI_BUFFER, BROTLI_QUALITY, BROTLI_WINDOW_BITS) == Some(v@)
                && forall|b: usize, limit: u64|
                    b >= 1 && data@.len() <= limit ==> #[trigger] brotli_decoded(v@, b, limit) == Some(data@),
            Err(e) => brotli_encoded(data@, BROTLI_BUFFER, BROTLI_QUALITY, BROTLI_WINDOW_BITS) is None
                && e@ == ErrorModel::Decompress { tag: None, detail: "brotli encoder rejected the input" },
        },
{
    match brotli_write(data, BROTLI_BUFFER, BROTLI_QUALITY, BROTLI_WINDOW_BITS) {
        Some(v) => Ok(v),
        None => Err(FontError::Decompress { tag: None, detail: "brotli encoder rejected the input" }),
    }
}

/// The model of an encoding result.
pub open spec fn bytes_result(r: Result<Vec<u8>>) -> core::result::Result<Seq<u8>, ErrorModel> {
    match r {
        Ok(v) => Ok(v@),
        Err(e) => Err(e@),
    }
}

/// Encode a font as WOFF 2.0, every table null-transformed.
pub fn encode(font: &Font) -> (r: Result<Vec<u8>>)
    requires
        woff2_writable(font@),
    ensures
        bytes_result(r) == woff2_encode_spec(font@),
        // The header declares the length of the whole file.
        r matches Ok(v) ==> be32(v@, 8) == v@.len() % 0x1_0000_0000,
        // What the decoder reads back: the font, tables in tag order, `head` marked.
        r matches Ok(v) ==> (woff2_round_trips(font@) && v@.len() <= u32::MAX ==> woff2_decode_spec(v@)
            == Ok::<FontModel, ErrorModel>(FontModel { flavor: font.flavor, tables: woff2_tables_out(font@) })),
{
    let mut tables = sorted_by_tag(&font.tables);
    proof { crate::sfnt::lemma_sort_keeps_size(font@.tables); }
    let ghost sorted = tables_view(tables@);
    mark_lossless_transform(&mut tables);
    let ghost ts = tables_view(tables@);
    proof { lemma_mark_keeps_size(sorted); }
    let n = tables.len();

    let (directory, block) = write_directory_and_block(&tables);
    let compressed = brotli_compress(block.as_slice())?;
    let total_sfnt_size = crate::sfnt::sfnt_size_for(&tables);
    let total_length = ((HEADER_LEN as u64 + directory.len() as u64 % 0x1_0000_0000 + compressed.len() as u64 % 0x1_0000_0000)
        % 0x1_0000_0000) as u32;
    proof {
        let d = directory@.len() as int;
        let c = compressed@.len() as int;
        assert((HEADER_LEN + d % 0x1_0000_0000 + c % 0x1_0000_0000) % 0x1_0000_0000 == (HEADER_LEN + d + c) % 0x1_0000_0000)
            by (nonlinear_arith);
    }

    let mut out: Vec<u8> = Vec::new();
    push_u32(&mut out, WOFF2_MAGIC);
    push_u32(&mut out, font.flavor);
    push_u32(&mut out, total_length);
    push_u16(&mut out, n as u16);
    push_u16(&mut out, 0);  // reserved
    push_u32(&mut out, total_sfnt_size as u32);
    push_u32(&mut out, compressed.len() as u32);
    push_u16(&mut out, 1);  // majorVersion
    push_u16(&mut out, 0);  // minorVersion
    push_zeros(&mut out, 12);  // no extended metadata
    push_zeros(&mut out, 8);  // no private data
    push_bytes(&mut out, directory.as_slice());
    push_bytes(&mut out, compressed.as_slice());
    assert(out@ =~= woff2_header(font.flavor, ts.len(), sfnt_size_of(ts), HEADER_LEN + directory@.len() + compressed@.len(), compressed@.len() as int)
        + directory@ + compressed@);
    proof {
        crate::sfnt::lemma_sort_by_tag(font@.tables);
        if woff2_round_trips(font@) {
            crate::woff_round_trip::lemma_woff2_round_trip(font@, compressed@);
        }
        crate::woff_round_trip::lemma_woff2_length_field(font@);
    }
    Ok(out)
}

/// Marking `head` keeps every tag and every length.
pub proof fn lemma_mark_keeps_size(ts: Seq<TableModel>)
    ensures
        mark_lossless(ts).len() == ts.len(),
        forall|i: int| 0 <= i < ts.len() ==> #[trigger] mark_lossless(ts)[i].tag == ts[i].tag
            && mark_lossless(ts)[i].data.len() == ts[i].data.len(),
        sfnt_size_of(mark_lossless(ts)) == sfnt_size_of(ts),
{
    let m = mark_lossless(ts);
    lemma_first_head_range(ts, 0);
    if let Some(h) = first_head_from(ts, 0) {
        let d = ts[h].data;
        assert(lossless_flags(d).len() == d.len());
        assert(m == ts.update(h, TableModel { tag: ts[h].tag, data: lossless_flags(d) }));
        assert forall|i: int| 0 <= i < ts.len() implies #[trigger] m[i].tag == ts[i].tag && m[i].data.len() == ts[i].data.len() by {
            if i == h {
                assert(m[i].data == lossless_flags(d));
            }
        }
    }
    lemma_sum_padded_same_lengths(m, ts, ts.len());
}

/// The first `head` found is in range and is a `head`.
pub proof fn lemma_first_head_range(ts: Seq<TableModel>, k: nat)
    ensures
        first_head_from(ts, k) matches Some(h) ==> k <= h < ts.len() && tag_number(ts[h].tag) == HEAD_TAG_NUMBER,
    decreases ts.len() - k,
{
    if k < ts.len() {
        lemma_first_head_range(ts, k + 1);
    }
}

/// Tables of the same lengths take the same padded size.
pub proof fn lemma_sum_padded_same_lengths(a: Seq<TableModel>, b: Seq<TableModel>, n: nat)
    requires
        n <= a.len(),
        n <= b.len(),
        forall|i: int| 0 <= i < n ==> #[trigger] a[i].data.len() == b[i].data.len(),
    ensures
        sum_padded(a, n) == sum_padded(b, n),
    decreases n,
{
    if n > 0 {
        lemma_sum_padded_same_lengths(a, b, (n - 1) as nat);
        assert(a[n - 1].data.len() == b[n - 1].data.len());
    }
}

} // verus!
