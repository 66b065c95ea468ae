//! WOFF 1.0: an sfnt whose tables are individually zlib-compressed.

use crate::bytes::{be16, be32, copy_bytes, lemma_be32_bytes, lemma_be32_roundtrip, push_bytes, push_u16, push_u32, push_zeros, u16_be, u32_be};
use crate::error::{truncated, ErrorModel, FontError, Result};
use crate::read::Reader;
use crate::sfnt::{
    align4, duplicate_check, flavor_check, font_result, round4, sort_by_tag, sorted_by_tag, sum_padded, table_checksum,
    table_checksum_of, tables_view, zeros, Font, FontModel, Table, TableModel, sfnt_size_of, distinct_tags, four_byte_tags,
};
use crate::tags::{tag_number, tag_value};
use vstd::prelude::*;

verus! {

/// 'wOFF' as a number.
pub const WOFF1_MAGIC: u32 = 0x774F_4646;
/// Size of the WOFF header.
pub const HEADER_LEN: usize = 44;
/// Size of one WOFF directory entry.
pub const ENTRY_LEN: usize = 20;
/// Ceiling on any single decompressed table, so a hostile file cannot ask for
/// unbounded memory.
pub const MAX_TABLE_BYTES: usize = 0x1000_0000;
/// The zlib compression level the writer uses.
pub const ZLIB_LEVEL: u8 = 9;

// ---------------------------------------------------------------------------
// zlib, through miniz_oxide

/// What miniz_oxide's zlib decompressor gives for `data` with output capped
/// at `limit` bytes: the decompressed bytes, or nothing when the stream is
/// invalid or its output does not fit.
pub uninterp spec fn zlib_inflated(data: Seq<u8>, limit: usize) -> Option<Seq<u8>>;

/// What miniz_oxide's zlib compressor writes for `data` at `level`.
pub uninterp spec fn zlib_deflated(data: Seq<u8>, level: u8) -> Seq<u8>;

/// `miniz_oxide::inflate::decompress_to_vec_zlib_with_limit`: its result is
/// taken as the named `zlib_inflated` of the arguments; the source grows its
/// output buffer to at most `limit` bytes, so a success is never longer.
#[verifier::external_body]
fn inflate_zlib(data: &[u8], limit: usize) -> (r: Option<Vec<u8>>)
    ensures
        match r {
            Some(v) => zlib_inflated(data@, limit) == Some(v@) && v@.len() <= limit,
            None => zlib_inflated(data@, limit) is None,
        },
{
    miniz_oxide::inflate::decompress_to_vec_zlib_with_limit(data, limit).ok()
}

/// `miniz_oxide::deflate::compress_to_vec_zlib`: its result is taken as the
/// named `zlib_deflated` of the arguments. The contract also states that the
/// stream is lossless: decompressing it with room for at least the input
/// gives the input back (the decompressor asks for more room only when it has
/// a byte to write, so an output that exactly fills the limit completes).
#[verifier::external_body]
fn deflate_zlib(data: &[u8], level: u8) -> (r: Vec<u8>)
    ensures
        r@ == zlib_deflated(data@, level),
        forall|limit: usize| data@.len() <= limit ==> #[trigger] zlib_inflated(r@, limit) == Some(data@),
{
    miniz_oxide::deflate::compress_to_vec_zlib(data, level)
}

// ---------------------------------------------------------------------------
// Reading

/// Whether `s` starts with the WOFF signature.
pub open spec fn is_woff1_spec(s: Seq<u8>) -> bool {
    s.len() >= 4 && s.subrange(0, 4) == u32_be(WOFF1_MAGIC)
}

/// Whether `input` starts with the WOFF signature.
pub fn is_woff1(input: &[u8]) -> (b: bool)
    ensures
        b == is_woff1_spec(input@),
{
    if input.len() < 4 {
        return false;
    }
    let b = input[0] == 0x77 && input[1] == 0x4F && input[2] == 0x46 && input[3] == 0x46;
    assert(u32_be(WOFF1_MAGIC) =~= seq![0x77u8, 0x4Fu8, 0x46u8, 0x46u8]);
    assert(b == (input@.subrange(0, 4) =~= u32_be(WOFF1_MAGIC)));
    b
}

/// The table of directory entry `i`, or the error.
pub open spec fn woff1_entry(s: Seq<u8>, i: int) -> core::result::Result<TableModel, ErrorModel> {
    let p = HEADER_LEN + ENTRY_LEN * i;
    if p + 4 > s.len() {
        Err(truncated(4, s.len() - p, "WOFF directory entry"))
    } else if p + 8 > s.len() {
        Err(truncated(4, s.len() - (p + 4), "WOFF table offset"))
    } else if p + 12 > s.len() {
        Err(truncated(4, s.len() - (p + 8), "WOFF compressed length"))
    } else if p + 16 > s.len() {
        Err(truncated(4, s.len() - (p + 12), "WOFF original length"))
    } else if p + 20 > s.len() {
        Err(truncated(4, s.len() - (p + 16), "WOFF table checksum"))
    } else {
        let tag = s.subrange(p, p + 4);
        let offset = be32(s, p + 4);
        let comp_length = be32(s, p + 8);
        let orig_length = be32(s, p + 12);
        if offset + comp_length > s.len() {
            Err(ErrorModel::TableOutOfBounds { tag, offset, length: comp_length, file_len: s.len() as usize })
        } else if orig_length > MAX_TABLE_BYTES {
            Err(ErrorModel::LengthMismatch { tag, declared: orig_length, actual: MAX_TABLE_BYTES })
        } else {
            let raw = s.subrange(offset as int, offset + comp_length);
            // Equal lengths mean the table was stored verbatim.
            let data = if comp_length == orig_length { Some(raw) } else { zlib_inflated(raw, MAX_TABLE_BYTES) };
            match data {
                None => Err(ErrorModel::Decompress { tag: Some(tag), detail: "zlib stream is invalid" }),
                Some(d) => if d.len() != orig_length {
                    Err(ErrorModel::LengthMismatch { tag, declared: orig_length, actual: d.len() as usize })
                } else {
                    Ok(TableModel { tag, data: d })
                },
            }
        }
    }
}

/// The first `n` directory entries, stopping at the first error.
pub open spec fn woff1_entries(s: Seq<u8>, n: nat) -> core::result::Result<Seq<TableModel>, ErrorModel>
    decreases n,
{
    if n == 0 {
        Ok(Seq::empty())
    } else {
        match woff1_entries(s, (n - 1) as nat) {
            Err(e) => Err(e),
            Ok(ts) => match woff1_entry(s, n - 1) {
                Err(e) => Err(e),
                Ok(t) => Ok(ts.push(t)),
            },
        }
    }
}

/// What decoding `s` as WOFF 1.0 gives.
pub open spec fn woff1_decode_spec(s: Seq<u8>) -> core::result::Result<FontModel, ErrorModel> {
    if s.len() < 4 {
        Err(truncated(4, s.len() as int, "WOFF signature"))
    } else if s.subrange(0, 4) != u32_be(WOFF1_MAGIC) {
        Err(ErrorModel::UnknownContainer { magic: s.subrange(0, 4) })
    } else if s.len() < 8 {
        Err(truncated(4, s.len() - 4, "WOFF flavor"))
    } else {
        let flavor = be32(s, 4);
        match flavor_check(flavor) {
            Err(e) => Err(e),
            Ok(_) => if s.len() < 12 {
                Err(truncated(4, s.len() - 8, "WOFF length"))
            } else if s.len() < 14 {
                Err(truncated(2, s.len() - 12, "WOFF table count"))
            } else {
                let n = be16(s, 12);
                if n == 0 {
                    Err(ErrorModel::BadTableCount { count: n })
                } else if s.len() < HEADER_LEN {
                    Err(truncated(30, s.len() - 14, "WOFF header remainder"))
                } else {
                    match woff1_entries(s, n as nat) {
                        Err(e) => Err(e),
                        Ok(ts) => match duplicate_check(ts, ts.len()) {
                            Err(e) => Err(e),
                            Ok(_) => Ok(FontModel { flavor, tables: ts }),
                        },
                    }
                }
            },
        }
    }
}

proof fn lemma_entries_len(s: Seq<u8>, n: nat)
    ensures
        woff1_entries(s, n) matches Ok(ts) ==> ts.len() == n,
    decreases n,
{
    if n > 0 {
        lemma_entries_len(s, (n - 1) as nat);
    }
}

proof fn lemma_entries_err_stands(s: Seq<u8>, m: nat, n: nat)
    requires
        m <= n,
        woff1_entries(s, m) is Err,
    ensures
        woff1_entries(s, n) == woff1_entries(s, m),
    decreases n,
{
    if m < n {
        lemma_entries_err_stands(s, m, (n - 1) as nat);
    }
}

/// Whether four tag bytes spell `v`.
proof fn lemma_tag_is(t: Seq<u8>, v: u32)
    requires
        t.len() == 4,
    ensures
        (tag_number(t) == v) == (t == u32_be(v)),
{
    lemma_be32_bytes(t);
    lemma_be32_roundtrip(v);
}

/// Read directory entry `i` with the cursor at its start.
fn read_entry(input: &[u8], r: &mut Reader<'_>, i: u16) -> (res: Result<Table>)
    requires
        old(r).data() == input@,
        old(r).pos() == HEADER_LEN + ENTRY_LEN * i,
        old(r).wf(),
    ensures
        final(r).data() == input@,
        match res {
            Ok(t) => woff1_entry(input@, i as int) == Ok::<TableModel, ErrorModel>(t@)
                && final(r).pos() == HEADER_LEN + ENTRY_LEN * (i + 1) && final(r).wf(),
            Err(e) => woff1_entry(input@, i as int) == Err::<TableModel, ErrorModel>(e@),
        },
{
    let tag = r.tag("WOFF directory entry")?;
    let offset = r.u32("WOFF table offset")?;
    let comp_length = r.u32("WOFF compressed length")?;
    let orig_length = r.u32("WOFF original length")?;
    let _orig_checksum = r.u32("WOFF table checksum")?;
    let file_len = input.len();

    let start = offset as usize;
    let in_bounds = match start.checked_add(comp_length as usize) {
        Some(end) => end <= file_len,
        None => false,
    };
    if !in_bounds {
        return Err(FontError::TableOutOfBounds { tag, offset, length: comp_length, file_len });
    }
    if orig_length as usize > MAX_TABLE_BYTES {
        return Err(FontError::LengthMismatch { tag, declared: orig_length, actual: MAX_TABLE_BYTES });
    }
    let raw = &input[start..start + comp_length as usize];

    // Equal lengths mean the encoder found compression unprofitable and stored the table verbatim.
    let data = if comp_length == orig_length {
        copy_bytes(raw)
    } else {
        match inflate_zlib(raw, MAX_TABLE_BYTES) {
            Some(d) => d,
            None => {
                return Err(FontError::Decompress { tag: Some(tag), detail: "zlib stream is invalid" });
            },
        }
    };
    if data.len() != orig_length as usize {
        return Err(FontError::LengthMismatch { tag, declared: orig_length, actual: data.len() });
    }
    Ok(Table { tag, data })
}

/// Decode a WOFF 1.0 file.
pub fn decode(input: &[u8]) -> (r: Result<Font>)
    ensures
        font_result(r) == woff1_decode_spec(input@),
{
    let ghost s = input@;
    let mut r = Reader::new(input);
    let magic = r.tag("WOFF signature")?;
    proof { lemma_tag_is(magic@, WOFF1_MAGIC); }
    if tag_value(&magic) != WOFF1_MAGIC {
        return Err(FontError::UnknownContainer { magic });
    }
    let flavor = r.u32("WOFF flavor")?;
    Font::check_flavor(flavor)?;
    r.skip(4, "WOFF length")?;
    let num_tables = r.u16("WOFF table count")?;
    if num_tables == 0 {
        return Err(FontError::BadTableCount { count: num_tables });
    }
    // reserved + totalSfntSize + version + metadata block + private block
    r.skip(2 + 4 + 4 + 12 + 8, "WOFF header remainder")?;

    let mut tables: Vec<Table> = Vec::new();
    assert(tables_view(tables@) =~= Seq::<TableModel>::empty());
    let mut i: u16 = 0;
    while i < num_tables
        invariant
            r.data() == s,
            s == input@,
            r.pos() == HEADER_LEN + ENTRY_LEN * i,
            r.wf(),
            i <= num_tables,
            num_tables == be16(s, 12),
            num_tables != 0,
            s.len() >= HEADER_LEN,
            s.subrange(0, 4) == u32_be(WOFF1_MAGIC),
            flavor == be32(s, 4),
            flavor_check(flavor) is Ok,
            woff1_entries(s, i as nat) == Ok::<Seq<TableModel>, ErrorModel>(tables_view(tables@)),
        decreases num_tables - i,
    {
        proof { lemma_entries_len(s, i as nat); }
        let t = match read_entry(input, &mut r, i) {
            Ok(t) => t,
            Err(e) => {
                proof { lemma_entries_err_stands(s, (i + 1) as nat, num_tables as nat); }
                return Err(e);
            },
        };
        let ghost before = tables@;
        tables.push(t);
        assert(tables_view(tables@) =~= tables_view(before).push(tables@[i as int]@));
        i = i + 1;
    }
    proof { lemma_entries_len(s, num_tables as nat); }
    Font::reject_duplicate_tags(tables.as_slice())?;
    Ok(Font { flavor, tables })
}

// ---------------------------------------------------------------------------
// Writing

/// What a table is stored as: its zlib stream when that is smaller, else the
/// table verbatim.
pub open spec fn woff1_payload(data: Seq<u8>) -> Seq<u8> {
    let squeezed = zlib_deflated(data, ZLIB_LEVEL);
    if squeezed.len() < data.len() { squeezed } else { data }
}

/// Bytes the first `n` stored tables take, each padded to four bytes.
pub open spec fn payload_sum(ts: Seq<TableModel>, n: nat) -> int
    decreases n,
{
    if n == 0 { 0 } else { payload_sum(ts, (n - 1) as nat) + round4(woff1_payload(ts[n - 1].data).len() as int) }
}

/// Where the stored table `i` starts.
pub open spec fn woff1_offset(ts: Seq<TableModel>, i: int) -> int {
    HEADER_LEN + ENTRY_LEN * ts.len() + payload_sum(ts, i as nat)
}

/// Directory entry `i`: tag, offset, stored length, original length, checksum.
pub open spec fn woff1_dir_entry(ts: Seq<TableModel>, i: int) -> Seq<u8> {
    ts[i].tag + u32_be(woff1_offset(ts, i) as u32) + u32_be(woff1_payload(ts[i].data).len() as u32)
        + u32_be(ts[i].data.len() as u32) + u32_be(table_checksum_of(ts[i].tag, ts[i].data))
}

/// The first `n` directory entries.
pub open spec fn woff1_dir(ts: Seq<TableModel>, n: nat) -> Seq<u8>
    decreases n,
{
    if n == 0 { Seq::empty() } else { woff1_dir(ts, (n - 1) as nat) + woff1_dir_entry(ts, n - 1) }
}

/// The first `n` stored tables, each zero-padded to four bytes.
pub open spec fn woff1_bodies(ts: Seq<TableModel>, n: nat) -> Seq<u8>
    decreases n,
{
    if n == 0 {
        Seq::empty()
    } else {
        let p = woff1_payload(ts[n - 1].data);
        woff1_bodies(ts, (n - 1) as nat) + p + zeros(round4(p.len() as int) - p.len())
    }
}

/// The 44-byte WOFF header for tables `ts` (already in tag order) of a font
/// whose sfnt form takes `sfnt_size` bytes.
pub open spec fn woff1_header(flavor: u32, ts: Seq<TableModel>, sfnt_size: int) -> Seq<u8> {
    u32_be(WOFF1_MAGIC) + u32_be(flavor) + u32_be(woff1_offset(ts, ts.len() as int) as u32) + u16_be(ts.len() as u16)
        + u16_be(0) + u32_be(sfnt_size as u32) + u16_be(1) + u16_be(0) + zeros(20)
}

/// The bytes `encode` writes for a font.
pub open spec fn woff1_bytes(font: FontModel) -> Seq<u8> {
    let ts = sort_by_tag(font.tables);
    woff1_header(font.flavor, ts, sfnt_size_of(font.tables)) + woff1_dir(ts, ts.len()) + woff1_bodies(ts, ts.len())
}

/// A font whose WOFF form fits in memory (a stored table is never longer than
/// the table itself).
pub open spec fn woff1_writable(font: FontModel) -> bool {
    HEADER_LEN + ENTRY_LEN * font.tables.len() + sum_padded(font.tables, font.tables.len()) <= usize::MAX
}

/// Stored tables never take more room than the tables themselves.
pub proof fn lemma_payload_sum_bound(ts: Seq<TableModel>, n: nat)
    requires
        n <= ts.len(),
    ensures
        0 <= payload_sum(ts, n) <= sum_padded(ts, n),
    decreases n,
{
    if n > 0 {
        lemma_payload_sum_bound(ts, (n - 1) as nat);
    }
}

/// The stored size of a prefix never exceeds that of a longer prefix.
pub proof fn lemma_payload_sum_mono(ts: Seq<TableModel>, m: nat, n: nat)
    requires
        m <= n,
    ensures
        payload_sum(ts, m) <= payload_sum(ts, n),
    decreases n,
{
    if m < n {
        lemma_payload_sum_mono(ts, m, (n - 1) as nat);
    }
}

/// Decompressing the zlib stream of `data`, with room for all of `data`,
/// gives `data` back.
pub open spec fn deflate_round_trips(data: Seq<u8>) -> bool {
    forall|limit: usize| data.len() <= limit ==> #[trigger] zlib_inflated(zlib_deflated(data, ZLIB_LEVEL), limit) == Some(data)
}

/// A font whose WOFF form reads back: a known flavor, one to 65535 tables
/// with distinct four-byte tags, none longer than the decoder's table limit.
pub open spec fn woff1_round_trips(font: FontModel) -> bool {
    &&& flavor_check(font.flavor) is Ok
    &&& 1 <= font.tables.len() <= 0xffff
    &&& four_byte_tags(font.tables)
    &&& distinct_tags(font.tables)
    &&& forall|i: int| 0 <= i < font.tables.len() ==> #[trigger] font.tables[i].data.len() <= MAX_TABLE_BYTES
}

/// Compress one table, keeping it verbatim when compression does not help.
fn payload_for(data: &[u8]) -> (p: Vec<u8>)
    ensures
        p@ == woff1_payload(data@),
        deflate_round_trips(data@),
{
    let squeezed = deflate_zlib(data, ZLIB_LEVEL);
    // The specification requires storing the table raw when compression does not help.
    if squeezed.len() < data.len() {
        squeezed
    } else {
        copy_bytes(data)
    }
}

/// The stored tables, already in tag order, and the bound they keep.
pub open spec fn payloads_match(tables: Seq<Table>, payloads: Seq<Vec<u8>>) -> bool {
    &&& payloads.len() == tables.len()
    &&& forall|k: int| 0 <= k < tables.len() ==> #[trigger] payloads[k]@ == woff1_payload(tables[k].data@)
    &&& HEADER_LEN + ENTRY_LEN * tables.len() + sum_padded(tables_view(tables), tables.len()) <= usize::MAX
}

/// Write the WOFF directory.
fn write_woff1_directory(out: &mut Vec<u8>, tables: &Vec<Table>, payloads: &Vec<Vec<u8>>)
    requires
        payloads_match(tables@, payloads@),
    ensures
        final(out)@ == old(out)@ + woff1_dir(tables_view(tables@), tables@.len()),
{
    let ghost ts = tables_view(tables@);
    let ghost start = out@;
    let n = tables.len();
    proof { lemma_payload_sum_bound(ts, ts.len()); }
    let mut offset: usize = HEADER_LEN + ENTRY_LEN * n;
    let mut i: usize = 0;
    while i < n
        invariant
            n == tables@.len(),
            ts == tables_view(tables@),
            payloads_match(tables@, payloads@),
            0 <= payload_sum(ts, ts.len()) <= sum_padded(ts, ts.len()),
            i <= n,
            out@ == start + woff1_dir(ts, i as nat),
            offset == woff1_offset(ts, i as int),
        decreases n - i,
    {
        let t = &tables[i];
        let payload = &payloads[i];
        proof {
            lemma_payload_sum_mono(ts, (i + 1) as nat, ts.len());
            lemma_payload_sum_mono(ts, 0, i as nat);
            crate::sfnt::lemma_round4(payload@.len() as int);
        }
        let ghost before = out@;
        push_bytes(out, &t.tag);
        push_u32(out, offset as u32);
        push_u32(out, payload.len() as u32);
        push_u32(out, t.data.len() as u32);
        push_u32(out, table_checksum(&t.tag, t.data.as_slice()));
        assert(out@ =~= before + woff1_dir_entry(ts, i as int));
        offset = offset + align4(payload.len());
        i = i + 1;
    }
}

/// Write the stored tables, each padded to four bytes.
fn write_woff1_bodies(out: &mut Vec<u8>, tables: &Vec<Table>, payloads: &Vec<Vec<u8>>)
    requires
        payloads_match(tables@, payloads@),
        old(out)@.len() == woff1_offset(tables_view(tables@), 0),
    ensures
        final(out)@ == old(out)@ + woff1_bodies(tables_view(tables@), tables@.len()),
{
    let ghost ts = tables_view(tables@);
    let ghost start = out@;
    let n = tables.len();
    proof { lemma_payload_sum_bound(ts, ts.len()); }
    assert(start + woff1_bodies(ts, 0) =~= start);
    let mut i: usize = 0;
    while i < n
        invariant
            n == tables@.len(),
            ts == tables_view(tables@),
            payloads_match(tables@, payloads@),
            0 <= payload_sum(ts, ts.len()) <= sum_padded(ts, ts.len()),
            i <= n,
            out@ == start + woff1_bodies(ts, i as nat),
            out@.len() == woff1_offset(ts, i as int),
            out@.len() % 4 == 0,
        decreases n - i,
    {
        let payload = &payloads[i];
        proof { lemma_payload_sum_mono(ts, (i + 1) as nat, ts.len()); }
        let ghost before = out@;
        push_bytes(out, payload.as_slice());
        let cur = out.len();
        proof { crate::sfnt::lemma_padding_from_aligned(before.len() as int, payload@.len() as int); }
        push_zeros(out, align4(cur) - cur);
        assert(out@ =~= start + woff1_bodies(ts, (i + 1) as nat));
        i = i + 1;
    }
}

/// Total bytes of the stored tables once padded.
fn payloads_total(tables: &Vec<Table>, payloads: &Vec<Vec<u8>>) -> (t: usize)
    requires
        payloads_match(tables@, payloads@),
    ensures
        t == payload_sum(tables_view(tables@), tables@.len()),
        HEADER_LEN + ENTRY_LEN * tables@.len() + t <= usize::MAX,
{
    let ghost ts = tables_view(tables@);
    proof { lemma_payload_sum_bound(ts, ts.len()); }
    let mut total: usize = 0;
    let mut i: usize = 0;
    while i < payloads.len()
        invariant
            ts == tables_view(tables@),
            payloads_match(tables@, payloads@),
            0 <= payload_sum(ts, ts.len()) <= sum_padded(ts, ts.len()),
            i <= tables@.len(),
            total == payload_sum(ts, i as nat),
        decreases tables@.len() - i,
    {
        proof {
            lemma_payload_sum_mono(ts, (i + 1) as nat, ts.len());
            lemma_payload_sum_mono(ts, 0, i as nat);
            crate::sfnt::lemma_round4(payloads@[i as int]@.len() as int);
        }
        total = total + align4(payloads[i].len());
        i = i + 1;
    }
    total
}

/// Encode a font as WOFF 1.0.
pub fn encode(font: &Font) -> (out: Vec<u8>)
    requires
        woff1_writable(font@),
    ensures
        out@ == woff1_bytes(font@),
        // The header declares the length of the whole file.
        out@.len() <= u32::MAX ==> crate::bytes::be32(out@, 8) == out@.len(),
        // What the decoder reads back: the font, tables in tag order.
        woff1_round_trips(font@) && out@.len() <= u32::MAX ==> woff1_decode_spec(out@)
            == Ok::<FontModel, ErrorModel>(FontModel { flavor: font.flavor, tables: sort_by_tag(font@.tables) }),
{
    let tables = sorted_by_tag(&font.tables);
    let ghost ts = tables_view(tables@);
    proof {
        crate::sfnt::lemma_sort_keeps_size(font@.tables);
    }
    let n = tables.len();
    let sfnt_size = font.sfnt_size();

    // Compress first: the header needs the final file length, which depends on
    // whether each table compressed profitably.
    let mut payloads: Vec<Vec<u8>> = Vec::new();
    let mut i: usize = 0;
    while i < n
        invariant
            n == tables@.len(),
            i <= n,
            payloads@.len() == i,
            forall|k: int| 0 <= k < i ==> #[trigger] payloads@[k]@ == woff1_payload(tables@[k].data@),
            forall|k: int| 0 <= k < i ==> #[trigger] deflate_round_trips(tables@[k].data@),
        decreases n - i,
    {
        payloads.push(payload_for(tables[i].data.as_slice()));
        i = i + 1;
    }

    proof { crate::sfnt::lemma_sum_padded_mono(ts, 0, ts.len()); }
    assert(payloads_match(tables@, payloads@));
    let stored = payloads_total(&tables, &payloads);
    let total_length = HEADER_LEN + ENTRY_LEN * n + stored;
    let mut out: Vec<u8> = Vec::new();
    push_u32(&mut out, WOFF1_MAGIC);
    push_u32(&mut out, font.flavor);
    push_u32(&mut out, total_length as u32);
    push_u16(&mut out, n as u16);
    push_u16(&mut out, 0);  // reserved
    push_u32(&mut out, sfnt_size as u32);
    push_u16(&mut out, 1);  // majorVersion
    push_u16(&mut out, 0);  // minorVersion
    push_zeros(&mut out, 12);  // no extended metadata
    push_zeros(&mut out, 8);  // no private data
    assert(out@ =~= woff1_header(font.flavor, ts, sfnt_size_of(font@.tables)));
    let ghost header = out@;
    proof { crate::sfnt::lemma_tables_four_byte_tags(tables@); }
    write_woff1_directory(&mut out, &tables, &payloads);
    proof { lemma_woff1_dir_len(ts, n as nat); }
    write_woff1_bodies(&mut out, &tables, &payloads);
    assert(out@ =~= woff1_bytes(font@));
    proof {
        if woff1_round_trips(font@) && out@.len() <= u32::MAX {
            assert forall|k: int| 0 <= k < font@.tables.len() implies #[trigger] deflate_round_trips(
                sort_by_tag(font@.tables)[k].data,
            ) by {
                assert(ts[k] == tables@[k]@);
            }
            crate::woff_round_trip::lemma_woff1_round_trip(font@);
        }
        crate::sfnt::lemma_tables_four_byte_tags(font.tables@);
        if out@.len() <= u32::MAX {
            crate::woff_round_trip::lemma_woff1_length_field(font@);
        }
    }
    out
}

/// Each WOFF directory entry takes twenty bytes.
pub proof fn lemma_woff1_dir_len(ts: Seq<TableModel>, n: nat)
    requires
        n <= ts.len(),
        crate::sfnt::four_byte_tags(ts),
    ensures
        woff1_dir(ts, n).len() == 20 * n,
    decreases n,
{
    if n > 0 {
        lemma_woff1_dir_len(ts, (n - 1) as nat);
        assert(ts[n - 1].tag.len() == 4);
    }
}

} // verus!
