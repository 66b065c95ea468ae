//! What reading back the WOFF and WOFF2 forms of a font gives.

use crate::bytes::{be16, be32, lemma_be16_roundtrip, lemma_be32_roundtrip, lemma_be32_window, u16_be, u32_be};
use crate::error::ErrorModel;
use crate::round_trip::{head_normal, same_content};
use crate::sfnt::HEAD_TAG_NUMBER;
use crate::sfnt::{
    data_total, distinct_tags, duplicate_check, flavor_check, four_byte_tags, lemma_duplicate_check_distinct, lemma_round4,
    lemma_sort_by_tag, lemma_sort_keeps_data_total, lemma_sort_keeps_distinct, lemma_sort_members, sfnt_size_of, round4, sort_by_tag, zeros, FontModel, TableModel,
};
use crate::woff1::{
    deflate_round_trips, lemma_payload_sum_mono, payload_sum, woff1_bodies, woff1_bytes, woff1_decode_spec, woff1_dir,
    woff1_dir_entry, woff1_entries, woff1_entry, woff1_header, woff1_offset, woff1_payload, woff1_round_trips, zlib_deflated,
    ENTRY_LEN, HEADER_LEN, MAX_TABLE_BYTES, WOFF1_MAGIC, ZLIB_LEVEL,
};
use crate::base128::{b128_encode, lemma_read_write_roundtrip};
use crate::tags::{known_index, known_tag_number, lemma_known_index_sound, tag_number, ARBITRARY_TAG};
use crate::woff2::{first_head_from, lossless_flags, mark_lossless, brotli_decoded, brotli_encoded, woff2_body_spec, MAX_DECOMPRESSED_BYTES, lemma_mark_keeps_size, woff2_decode_spec, woff2_encode_spec, woff2_header, woff2_round_trips, woff2_tables_out, BROTLI_BUFFER, BROTLI_QUALITY, BROTLI_WINDOW_BITS, WOFF2_MAGIC, null_transform, stream_total, woff2_block, woff2_tables, woff2_dir, woff2_entries_from, woff2_dir_entry, woff2_entry_at, woff2_flags, EntryModel};
use vstd::prelude::*;

verus! {

// ---------------------------------------------------------------------------
// WOFF 1.0

proof fn lemma_woff1_dir_entry_at(ts: Seq<TableModel>, n: nat, i: int)
    requires
        n <= ts.len(),
        0 <= i < n,
        four_byte_tags(ts),
    ensures
        woff1_dir(ts, n).len() == 20 * n,
        woff1_dir(ts, n).subrange(20 * i, 20 * i + 20) == woff1_dir_entry(ts, i),
    decreases n,
{
    crate::woff1::lemma_woff1_dir_len(ts, n);
    crate::woff1::lemma_woff1_dir_len(ts, (n - 1) as nat);
    let a = woff1_dir(ts, (n - 1) as nat);
    let e = woff1_dir_entry(ts, n - 1);
    assert(ts[n - 1].tag.len() == 4);
    assert(e.len() == 20);
    assert(woff1_dir(ts, n) == a + e);
    if i == n - 1 {
        assert((a + e).subrange(20 * i, 20 * i + 20) =~= e);
    } else {
        lemma_woff1_dir_entry_at(ts, (n - 1) as nat, i);
        assert((a + e).subrange(20 * i, 20 * i + 20) =~= a.subrange(20 * i, 20 * i + 20));
    }
}

proof fn lemma_woff1_bodies_len(ts: Seq<TableModel>, n: nat)
    requires
        n <= ts.len(),
    ensures
        woff1_bodies(ts, n).len() == payload_sum(ts, n),
    decreases n,
{
    if n > 0 {
        lemma_woff1_bodies_len(ts, (n - 1) as nat);
        lemma_round4(woff1_payload(ts[n - 1].data).len() as int);
    }
}

proof fn lemma_woff1_body_at(ts: Seq<TableModel>, n: nat, i: int)
    requires
        n <= ts.len(),
        0 <= i < n,
    ensures
        woff1_bodies(ts, n).subrange(
            payload_sum(ts, i as nat),
            payload_sum(ts, i as nat) + woff1_payload(ts[i].data).len(),
        ) == woff1_payload(ts[i].data),
    decreases n,
{
    lemma_woff1_bodies_len(ts, n);
    lemma_woff1_bodies_len(ts, (n - 1) as nat);
    let a = woff1_bodies(ts, (n - 1) as nat);
    let p = woff1_payload(ts[n - 1].data);
    let z = zeros(round4(p.len() as int) - p.len());
    lemma_round4(p.len() as int);
    assert(woff1_bodies(ts, n) == a + p + z);
    let start = payload_sum(ts, i as nat);
    let len = woff1_payload(ts[i].data).len();
    crate::woff1::lemma_payload_sum_bound(ts, i as nat);
    if i == n - 1 {
        assert((a + p + z).subrange(start, start + len) =~= p);
    } else {
        lemma_woff1_body_at(ts, (n - 1) as nat, i);
        lemma_payload_sum_mono(ts, (i + 1) as nat, (n - 1) as nat);
        lemma_round4(len as int);
        assert(payload_sum(ts, (i + 1) as nat) == start + round4(len as int));
        assert((a + p + z).subrange(start, start + len) =~= a.subrange(start, start + len));
    }
}

/// `s` holds the WOFF directory and stored tables of `ts` where the encoder
/// puts them, and every table decompresses back.
#[verifier::opaque]
pub open spec fn woff1_laid_out(s: Seq<u8>, ts: Seq<TableModel>) -> bool {
    &&& four_byte_tags(ts)
    &&& s.len() == woff1_offset(ts, ts.len() as int)
    &&& s.len() <= u32::MAX
    &&& s.subrange(HEADER_LEN as int, HEADER_LEN + ENTRY_LEN * ts.len()) == woff1_dir(ts, ts.len())
    &&& forall|i: int| 0 <= i < ts.len() ==> #[trigger] s.subrange(
        woff1_offset(ts, i),
        woff1_offset(ts, i) + woff1_payload(ts[i].data).len(),
    ) == woff1_payload(ts[i].data)
    &&& forall|i: int| 0 <= i < ts.len() ==> #[trigger] ts[i].data.len() <= MAX_TABLE_BYTES
    &&& forall|i: int| 0 <= i < ts.len() ==> #[trigger] deflate_round_trips(ts[i].data)
}

proof fn lemma_woff1_payload_len(data: Seq<u8>)
    ensures
        woff1_payload(data).len() <= data.len(),
        woff1_payload(data).len() == data.len() ==> woff1_payload(data) == data,
        woff1_payload(data) != data ==> woff1_payload(data) == zlib_deflated(data, ZLIB_LEVEL),
{
}

proof fn lemma_woff1_stored_end(ts: Seq<TableModel>, i: int)
    requires
        0 <= i < ts.len(),
    ensures
        HEADER_LEN + ENTRY_LEN * ts.len() <= woff1_offset(ts, i),
        woff1_offset(ts, i) + woff1_payload(ts[i].data).len() <= woff1_offset(ts, i + 1),
        woff1_offset(ts, i + 1) <= woff1_offset(ts, ts.len() as int),
{
    crate::woff1::lemma_payload_sum_bound(ts, i as nat);
    lemma_payload_sum_mono(ts, (i + 1) as nat, ts.len());
    lemma_round4(woff1_payload(ts[i].data).len() as int);
}

proof fn lemma_woff1_entry_fields(ts: Seq<TableModel>, i: int)
    requires
        0 <= i < ts.len(),
        ts[i].tag.len() == 4,
    ensures
        woff1_dir_entry(ts, i).len() == 20,
        woff1_dir_entry(ts, i).subrange(0, 4) == ts[i].tag,
        be32(woff1_dir_entry(ts, i), 4) == woff1_offset(ts, i) as u32,
        be32(woff1_dir_entry(ts, i), 8) == woff1_payload(ts[i].data).len() as u32,
        be32(woff1_dir_entry(ts, i), 12) == ts[i].data.len() as u32,
{
    let e = woff1_dir_entry(ts, i);
    let a = u32_be(woff1_offset(ts, i) as u32);
    let b = u32_be(woff1_payload(ts[i].data).len() as u32);
    let c = u32_be(ts[i].data.len() as u32);
    lemma_be32_roundtrip(woff1_offset(ts, i) as u32);
    lemma_be32_roundtrip(woff1_payload(ts[i].data).len() as u32);
    lemma_be32_roundtrip(ts[i].data.len() as u32);
    assert(e.subrange(0, 4) =~= ts[i].tag);
    assert(e.subrange(4, 8) =~= a.subrange(0, 4));
    assert(e.subrange(8, 12) =~= b.subrange(0, 4));
    assert(e.subrange(12, 16) =~= c.subrange(0, 4));
    lemma_be32_window(e, a, 4, 0);
    lemma_be32_window(e, b, 8, 0);
    lemma_be32_window(e, c, 12, 0);
}

proof fn lemma_woff1_laid_out_at(s: Seq<u8>, ts: Seq<TableModel>, i: int)
    requires
        woff1_laid_out(s, ts),
        0 <= i < ts.len(),
    ensures
        ts[i].tag.len() == 4,
        s.len() == woff1_offset(ts, ts.len() as int),
        s.len() <= u32::MAX,
        s.subrange(HEADER_LEN + ENTRY_LEN * i, HEADER_LEN + ENTRY_LEN * i + 20) == woff1_dir_entry(ts, i),
        s.subrange(woff1_offset(ts, i), woff1_offset(ts, i) + woff1_payload(ts[i].data).len())
            == woff1_payload(ts[i].data),
        ts[i].data.len() <= MAX_TABLE_BYTES,
        deflate_round_trips(ts[i].data),
{
    reveal(woff1_laid_out);
    let n = ts.len();
    lemma_woff1_dir_entry_at(ts, n, i);
    lemma_woff1_stored_end(ts, i);
    assert(s.subrange(HEADER_LEN + ENTRY_LEN * i, HEADER_LEN + ENTRY_LEN * i + 20) =~= s.subrange(
        HEADER_LEN as int,
        HEADER_LEN + ENTRY_LEN * n,
    ).subrange(20 * i, 20 * i + 20));
}

proof fn lemma_woff1_read_entry(s: Seq<u8>, ts: Seq<TableModel>, i: int)
    requires
        woff1_laid_out(s, ts),
        0 <= i < ts.len(),
    ensures
        woff1_entry(s, i) == Ok::<TableModel, ErrorModel>(ts[i]),
{
    let p = HEADER_LEN + ENTRY_LEN * i;
    let e = woff1_dir_entry(ts, i);
    let data = ts[i].data;
    let stored = woff1_payload(data);
    let off = woff1_offset(ts, i);
    lemma_woff1_laid_out_at(s, ts, i);
    lemma_woff1_entry_fields(ts, i);
    lemma_woff1_stored_end(ts, i);
    lemma_woff1_payload_len(data);
    let w = s.subrange(p, p + 20);
    assert(s.subrange(p, p + 4) =~= w.subrange(0, 4));
    assert(s.subrange(p + 4, p + 8) =~= w.subrange(4, 8));
    assert(s.subrange(p + 8, p + 12) =~= w.subrange(8, 12));
    assert(s.subrange(p + 12, p + 16) =~= w.subrange(12, 16));
    lemma_be32_window(s, e, p + 4, 4);
    lemma_be32_window(s, e, p + 8, 8);
    lemma_be32_window(s, e, p + 12, 12);
    if stored.len() != data.len() {
        assert(crate::woff1::zlib_inflated(zlib_deflated(data, ZLIB_LEVEL), MAX_TABLE_BYTES) == Some(data));
    }
}

proof fn lemma_woff1_read_entries(s: Seq<u8>, ts: Seq<TableModel>, k: nat)
    requires
        woff1_laid_out(s, ts),
        k <= ts.len(),
    ensures
        woff1_entries(s, k) == Ok::<Seq<TableModel>, ErrorModel>(ts.subrange(0, k as int)),
    decreases k,
{
    if k == 0 {
        assert(ts.subrange(0, 0) =~= Seq::<TableModel>::empty());
    } else {
        lemma_woff1_read_entries(s, ts, (k - 1) as nat);
        lemma_woff1_read_entry(s, ts, k - 1);
        assert(ts.subrange(0, k - 1).push(ts[k - 1]) =~= ts.subrange(0, k as int));
    }
}

/// The sorted tables keep the properties asked of the font's tables.
proof fn lemma_woff1_sorted(font: FontModel)
    requires
        woff1_round_trips(font),
    ensures
        sort_by_tag(font.tables).len() == font.tables.len(),
        four_byte_tags(sort_by_tag(font.tables)),
        distinct_tags(sort_by_tag(font.tables)),
        forall|i: int| 0 <= i < font.tables.len() ==> #[trigger] sort_by_tag(font.tables)[i].data.len() <= MAX_TABLE_BYTES,
{
    let ts = sort_by_tag(font.tables);
    lemma_sort_by_tag(font.tables);
    lemma_sort_keeps_distinct(font.tables);
    lemma_sort_members(font.tables);
    assert forall|i: int| 0 <= i < ts.len() implies #[trigger] ts[i].tag.len() == 4 && ts[i].data.len() <= MAX_TABLE_BYTES by {
        assert(font.tables.contains(ts[i]));
        let k = choose|k: int| 0 <= k < font.tables.len() && font.tables[k] == ts[i];
        assert(font.tables[k].tag.len() == 4);
        assert(font.tables[k].data.len() <= MAX_TABLE_BYTES);
    }
}

proof fn lemma_woff1_layout(font: FontModel)
    requires
        woff1_round_trips(font),
        forall|i: int| 0 <= i < font.tables.len() ==> #[trigger] deflate_round_trips(sort_by_tag(font.tables)[i].data),
        woff1_bytes(font).len() <= u32::MAX,
    ensures
        woff1_laid_out(woff1_bytes(font), sort_by_tag(font.tables)),
        woff1_bytes(font).subrange(0, 4) == u32_be(WOFF1_MAGIC),
        woff1_bytes(font).subrange(4, 8) == u32_be(font.flavor),
        woff1_bytes(font).subrange(12, 14) == u16_be(font.tables.len() as u16),
        woff1_bytes(font).len() >= HEADER_LEN,
{
    let ts = sort_by_tag(font.tables);
    let n = ts.len();
    lemma_woff1_sorted(font);
    let header = woff1_header(font.flavor, ts, crate::sfnt::sfnt_size_of(font.tables));
    let dir = woff1_dir(ts, n);
    let bodies = woff1_bodies(ts, n);
    let s = woff1_bytes(font);
    crate::woff1::lemma_woff1_dir_len(ts, n);
    lemma_woff1_bodies_len(ts, n);
    crate::woff1::lemma_payload_sum_bound(ts, n);
    assert(header.len() == 44);
    assert(s == header + dir + bodies);
    assert(s.subrange(0, 4) =~= u32_be(WOFF1_MAGIC));
    assert(s.subrange(4, 8) =~= u32_be(font.flavor));
    assert(s.subrange(12, 14) =~= u16_be(n as u16));
    assert(s.subrange(HEADER_LEN as int, HEADER_LEN + ENTRY_LEN * n) =~= dir);
    assert forall|i: int| 0 <= i < n implies #[trigger] s.subrange(
        woff1_offset(ts, i),
        woff1_offset(ts, i) + woff1_payload(ts[i].data).len(),
    ) == woff1_payload(ts[i].data) by {
        let start = payload_sum(ts, i as nat);
        let len = woff1_payload(ts[i].data).len();
        lemma_woff1_body_at(ts, n, i);
        lemma_woff1_stored_end(ts, i);
        crate::woff1::lemma_payload_sum_bound(ts, i as nat);
        assert(s.subrange(woff1_offset(ts, i), woff1_offset(ts, i) + len) =~= bodies.subrange(start, start + len));
    }
    assert(woff1_laid_out(s, ts)) by {
        reveal(woff1_laid_out);
    }
}

/// Reading back the WOFF form of a font gives the font, its tables in tag
/// order, where every table compresses losslessly and the file keeps its
/// offsets within 32 bits.
pub proof fn lemma_woff1_round_trip(font: FontModel)
    requires
        woff1_round_trips(font),
        forall|i: int| 0 <= i < font.tables.len() ==> #[trigger] deflate_round_trips(sort_by_tag(font.tables)[i].data),
        woff1_bytes(font).len() <= u32::MAX,
    ensures
        woff1_decode_spec(woff1_bytes(font))
            == Ok::<FontModel, ErrorModel>(FontModel { flavor: font.flavor, tables: sort_by_tag(font.tables) }),
{
    let ts = sort_by_tag(font.tables);
    let n = ts.len();
    let s = woff1_bytes(font);
    lemma_woff1_sorted(font);
    lemma_woff1_layout(font);
    lemma_be32_roundtrip(font.flavor);
    assert(u32_be(font.flavor).subrange(0, 4) =~= u32_be(font.flavor));
    lemma_be32_window(s, u32_be(font.flavor), 4, 0);
    assert(s[12] == s.subrange(12, 14)[0] && s[13] == s.subrange(12, 14)[1]);
    lemma_be16_roundtrip(n as u16);
    assert(be16(s, 12) == be16(u16_be(n as u16), 0));
    lemma_woff1_read_entries(s, ts, n);
    assert(ts.subrange(0, n as int) =~= ts);
    lemma_duplicate_check_distinct(ts, n);
}

// ---------------------------------------------------------------------------
// WOFF 2.0

/// The directory entry the decoder reads for a table written untransformed.
pub open spec fn entry_of(t: TableModel) -> EntryModel {
    EntryModel {
        tag: t.tag,
        transform_version: null_transform(t.tag),
        orig_length: t.data.len() as u32,
        stream_length: t.data.len() as u32,
        transformed: false,
    }
}

proof fn lemma_flags_fields(tag: Seq<u8>)
    ensures
        woff2_flags(tag) / 64 == null_transform(tag),
        woff2_flags(tag) % 64 == match known_index(tag_number(tag)) {
            Some(i) => i,
            None => ARBITRARY_TAG,
        },
{
    lemma_known_index_sound(tag_number(tag));
}

/// A directory entry reads back as written.
proof fn lemma_woff2_entry_read(s: Seq<u8>, pos: int, t: TableModel)
    requires
        t.tag.len() == 4,
        0 <= pos,
        pos + woff2_dir_entry(t).len() <= s.len(),
        s.subrange(pos, pos + woff2_dir_entry(t).len()) == woff2_dir_entry(t),
    ensures
        woff2_entry_at(s, pos) == Ok::<(EntryModel, int), ErrorModel>((entry_of(t), pos + woff2_dir_entry(t).len())),
{
    reveal(woff2_entry_at);
    let e = woff2_dir_entry(t);
    let v = t.data.len() as u32;
    let tail = b128_encode(v);
    lemma_flags_fields(t.tag);
    lemma_known_index_sound(tag_number(t.tag));
    assert(s[pos] == e[0]);
    assert(e[0] == woff2_flags(t.tag));
    let flags = s[pos];
    match known_index(tag_number(t.tag)) {
        Some(i) => {
            assert(e == seq![woff2_flags(t.tag)] + tail);
            crate::bytes::lemma_be32_bytes(t.tag);
            assert(u32_be(known_tag_number(i)) == t.tag);
            assert(s.subrange(pos + 1, pos + 1 + tail.len()) =~= e.subrange(1, e.len() as int));
            assert(e.subrange(1, e.len() as int) =~= tail);
            lemma_read_write_roundtrip(s, pos + 1, v);
        },
        None => {
            assert(e == seq![woff2_flags(t.tag)] + t.tag + tail);
            assert(s.subrange(pos + 1, pos + 5) =~= e.subrange(1, 5));
            assert(e.subrange(1, 5) =~= t.tag);
            assert(s.subrange(pos + 5, pos + 5 + tail.len()) =~= e.subrange(5, e.len() as int));
            assert(e.subrange(5, e.len() as int) =~= tail);
            lemma_read_write_roundtrip(s, pos + 5, v);
        },
    }
}

/// The entries the decoder reads for untransformed tables.
pub open spec fn entries_of(ts: Seq<TableModel>) -> Seq<EntryModel> {
    Seq::new(ts.len(), |i: int| entry_of(ts[i]))
}

proof fn lemma_woff2_dir_prefix(ts: Seq<TableModel>, k: nat, n: nat)
    requires
        k <= n <= ts.len(),
    ensures
        woff2_dir(ts, k).len() <= woff2_dir(ts, n).len(),
        woff2_dir(ts, n).subrange(0, woff2_dir(ts, k).len() as int) == woff2_dir(ts, k),
    decreases n,
{
    if k < n {
        lemma_woff2_dir_prefix(ts, k, (n - 1) as nat);
        let a = woff2_dir(ts, (n - 1) as nat);
        let b = woff2_dir_entry(ts[n - 1]);
        assert(woff2_dir(ts, n) == a + b);
        assert((a + b).subrange(0, woff2_dir(ts, k).len() as int) =~= a.subrange(0, woff2_dir(ts, k).len() as int));
    } else {
        assert(woff2_dir(ts, n).subrange(0, woff2_dir(ts, n).len() as int) =~= woff2_dir(ts, n));
    }
}

proof fn lemma_woff2_entries(s: Seq<u8>, ts: Seq<TableModel>, start: int, k: nat)
    requires
        four_byte_tags(ts),
        0 <= start,
        start + woff2_dir(ts, ts.len()).len() <= s.len(),
        s.subrange(start, start + woff2_dir(ts, ts.len()).len()) == woff2_dir(ts, ts.len()),
        k <= ts.len(),
    ensures
        woff2_entries_from(s, start + woff2_dir(ts, k).len(), k, ts.len(), entries_of(ts).subrange(0, k as int))
            == Ok::<(Seq<EntryModel>, int), ErrorModel>((entries_of(ts), start + woff2_dir(ts, ts.len()).len())),
    decreases ts.len() - k,
{
    let n = ts.len();
    if k == n {
        assert(entries_of(ts).subrange(0, k as int) =~= entries_of(ts));
    } else {
        let d = woff2_dir(ts, n);
        let dk = woff2_dir(ts, k);
        let e = woff2_dir_entry(ts[k as int]);
        let pos = start + dk.len();
        let a: int = dk.len() as int;
        let b: int = a + e.len();
        lemma_woff2_dir_prefix(ts, (k + 1) as nat, n);
        assert(woff2_dir(ts, (k + 1) as nat) == dk + e);
        assert(s.subrange(pos, pos + e.len()) =~= d.subrange(a, b)) by {
            assert(s.subrange(pos, pos + e.len()) =~= s.subrange(start, start + d.len()).subrange(a, b));
        }
        assert(d.subrange(a, b) =~= (dk + e).subrange(a, b)) by {
            assert(d.subrange(a, b) =~= d.subrange(0, b).subrange(a, b));
        }
        assert((dk + e).subrange(a, b) =~= e);
        assert(ts[k as int].tag.len() == 4);
        lemma_woff2_entry_read(s, pos, ts[k as int]);
        lemma_woff2_entries(s, ts, start, (k + 1) as nat);
        assert(entries_of(ts).subrange(0, k as int).push(entry_of(ts[k as int])) =~= entries_of(ts).subrange(0, k as int + 1));
    }
}

proof fn lemma_data_total_same_lengths(a: Seq<TableModel>, b: Seq<TableModel>)
    requires
        a.len() == b.len(),
        forall|i: int| 0 <= i < a.len() ==> #[trigger] a[i].data.len() == b[i].data.len(),
    ensures
        data_total(a) == data_total(b),
    decreases a.len(),
{
    if a.len() > 0 {
        assert forall|i: int| 0 <= i < a.drop_last().len() implies #[trigger] a.drop_last()[i].data.len() == b.drop_last()[i].data.len() by {
            assert(a.drop_last()[i] == a[i] && b.drop_last()[i] == b[i]);
        }
        lemma_data_total_same_lengths(a.drop_last(), b.drop_last());
        assert(a.last().data.len() == b.last().data.len());
    }
}

proof fn lemma_data_total_bound(ts: Seq<TableModel>, i: int)
    requires
        0 <= i < ts.len(),
    ensures
        ts[i].data.len() <= data_total(ts),
    decreases ts.len(),
{
    lemma_data_total_nonneg(ts.drop_last());
    if i < ts.len() - 1 {
        lemma_data_total_bound(ts.drop_last(), i);
        assert(ts.drop_last()[i] == ts[i]);
    }
}

proof fn lemma_data_total_nonneg(ts: Seq<TableModel>)
    ensures
        data_total(ts) >= 0,
    decreases ts.len(),
{
    if ts.len() > 0 {
        lemma_data_total_nonneg(ts.drop_last());
    }
}

proof fn lemma_block_len(ts: Seq<TableModel>, k: nat)
    requires
        k <= ts.len(),
    ensures
        woff2_block(ts, k).len() == data_total(ts.subrange(0, k as int)),
    decreases k,
{
    if k == 0 {
        assert(ts.subrange(0, 0) =~= Seq::<TableModel>::empty());
    } else {
        lemma_block_len(ts, (k - 1) as nat);
        assert(ts.subrange(0, k as int).drop_last() =~= ts.subrange(0, k - 1));
        assert(ts.subrange(0, k as int).last() == ts[k - 1]);
    }
}

proof fn lemma_block_prefix(ts: Seq<TableModel>, k: nat, n: nat)
    requires
        k <= n <= ts.len(),
    ensures
        woff2_block(ts, k).len() <= woff2_block(ts, n).len(),
        woff2_block(ts, n).subrange(0, woff2_block(ts, k).len() as int) == woff2_block(ts, k),
    decreases n,
{
    if k < n {
        lemma_block_prefix(ts, k, (n - 1) as nat);
        let a = woff2_block(ts, (n - 1) as nat);
        assert(woff2_block(ts, n) == a + ts[n - 1].data);
        assert((a + ts[n - 1].data).subrange(0, woff2_block(ts, k).len() as int) =~= a.subrange(0, woff2_block(ts, k).len() as int));
    } else {
        assert(woff2_block(ts, n).subrange(0, woff2_block(ts, n).len() as int) =~= woff2_block(ts, n));
    }
}

proof fn lemma_stream_total_of(ts: Seq<TableModel>, k: nat)
    requires
        k <= ts.len(),
        forall|i: int| 0 <= i < ts.len() ==> #[trigger] ts[i].data.len() <= u32::MAX,
    ensures
        stream_total(entries_of(ts), k) == woff2_block(ts, k).len(),
    decreases k,
{
    if k > 0 {
        lemma_stream_total_of(ts, (k - 1) as nat);
        assert(ts[k - 1].data.len() <= u32::MAX);
    }
}

/// Cutting the decompressed block gives the tables back.
proof fn lemma_woff2_cut(ts: Seq<TableModel>, k: nat)
    requires
        k <= ts.len(),
        forall|i: int| 0 <= i < ts.len() ==> #[trigger] ts[i].data.len() <= u32::MAX,
    ensures
        woff2_tables(entries_of(ts), woff2_block(ts, ts.len()), k)
            == Ok::<(Seq<TableModel>, Option<Seq<u8>>, int), ErrorModel>((ts.subrange(0, k as int), None, woff2_block(ts, k).len() as int)),
    decreases k,
{
    let n = ts.len();
    let block = woff2_block(ts, n);
    if k == 0 {
        assert(ts.subrange(0, 0) =~= Seq::<TableModel>::empty());
    } else {
        lemma_woff2_cut(ts, (k - 1) as nat);
        let c: int = woff2_block(ts, (k - 1) as nat).len() as int;
        let t = ts[k - 1];
        let e = entries_of(ts)[k - 1];
        assert(e == entry_of(t));
        assert(t.data.len() <= u32::MAX);
        lemma_block_prefix(ts, k, n);
        assert(woff2_block(ts, k) == woff2_block(ts, (k - 1) as nat) + t.data);
        assert(block.subrange(c, c + t.data.len()) =~= t.data) by {
            assert(block.subrange(c, c + t.data.len()) =~= block.subrange(0, woff2_block(ts, k).len() as int).subrange(c, c + t.data.len()));
        }
        assert(ts.subrange(0, k - 1).push(TableModel { tag: e.tag, data: t.data }) =~= ts.subrange(0, k as int));
    }
}

/// The tables `encode` writes keep the properties asked of the font's tables.
proof fn lemma_woff2_out_tables(font: FontModel)
    requires
        woff2_round_trips(font),
    ensures
        woff2_tables_out(font).len() == font.tables.len(),
        four_byte_tags(woff2_tables_out(font)),
        distinct_tags(woff2_tables_out(font)),
        data_total(woff2_tables_out(font)) == data_total(font.tables),
        forall|i: int| 0 <= i < font.tables.len() ==> #[trigger] woff2_tables_out(font)[i].data.len() <= u32::MAX,
{
    let sorted = sort_by_tag(font.tables);
    let ts = woff2_tables_out(font);
    lemma_sort_by_tag(font.tables);
    lemma_sort_keeps_distinct(font.tables);
    lemma_sort_members(font.tables);
    lemma_sort_keeps_data_total(font.tables);
    lemma_mark_keeps_size(sorted);
    assert forall|i: int| 0 <= i < ts.len() implies #[trigger] ts[i].tag.len() == 4 by {
        assert(font.tables.contains(sorted[i]));
        let k = choose|k: int| 0 <= k < font.tables.len() && font.tables[k] == sorted[i];
        assert(font.tables[k].tag.len() == 4);
        assert(ts[i].tag == sorted[i].tag);
    }
    assert forall|i: int, j: int| 0 <= i < j < ts.len() implies ts[i].tag != ts[j].tag by {
        assert(ts[i].tag == sorted[i].tag && ts[j].tag == sorted[j].tag);
    }
    assert forall|i: int| 0 <= i < ts.len() implies #[trigger] ts[i].data.len() == sorted[i].data.len() by {
        assert(ts[i].tag == sorted[i].tag);
    }
    lemma_data_total_same_lengths(ts, sorted);
    assert forall|i: int| 0 <= i < font.tables.len() implies #[trigger] ts[i].data.len() <= u32::MAX by {
        lemma_data_total_bound(ts, i);
    }
}

/// After the directory: the block decompresses, cuts into the tables, and
/// passes the duplicate check.
proof fn lemma_woff2_body(ts: Seq<TableModel>, flavor: u32, s: Seq<u8>, data_start: int, c: Seq<u8>)
    requires
        1 <= ts.len() <= 0xffff,
        distinct_tags(ts),
        data_total(ts) <= MAX_DECOMPRESSED_BYTES,
        forall|i: int| 0 <= i < ts.len() ==> #[trigger] ts[i].data.len() <= u32::MAX,
        0 <= data_start,
        data_start + c.len() == s.len(),
        s.len() <= u32::MAX,
        s.subrange(data_start, data_start + c.len()) == c,
        forall|b: usize, limit: u64|
            b >= 1 && woff2_block(ts, ts.len()).len() <= limit ==> #[trigger] brotli_decoded(c, b, limit) == Some(
                woff2_block(ts, ts.len()),
            ),
    ensures
        woff2_body_spec(s, flavor, entries_of(ts), data_start, c.len() as u32)
            == Ok::<FontModel, ErrorModel>(FontModel { flavor, tables: ts }),
{
    let n = ts.len();
    let es = entries_of(ts);
    let block = woff2_block(ts, n);
    lemma_stream_total_of(ts, n);
    lemma_block_len(ts, n);
    assert(ts.subrange(0, n as int) =~= ts);
    assert(es.len() == n);
    let expected = stream_total(es, es.len());
    assert(expected == block.len());
    let limit: int = if expected + 1 < MAX_DECOMPRESSED_BYTES { expected + 1 } else { MAX_DECOMPRESSED_BYTES as int };
    assert(brotli_decoded(c, BROTLI_BUFFER, limit as u64) == Some(block));
    lemma_woff2_cut(ts, n);
    lemma_duplicate_check_distinct(ts, n);
}

/// Decoding what the encoder wrote for tables `ts`.
proof fn lemma_woff2_decode_written(flavor: u32, ts: Seq<TableModel>, size: int, c: Seq<u8>)
    requires
        flavor_check(flavor) is Ok,
        1 <= ts.len() <= 0xffff,
        four_byte_tags(ts),
        distinct_tags(ts),
        data_total(ts) <= MAX_DECOMPRESSED_BYTES,
        forall|i: int| 0 <= i < ts.len() ==> #[trigger] ts[i].data.len() <= u32::MAX,
        forall|b: usize, limit: u64|
            b >= 1 && woff2_block(ts, ts.len()).len() <= limit ==> #[trigger] brotli_decoded(c, b, limit) == Some(
                woff2_block(ts, ts.len()),
            ),
        woff2_header(flavor, ts.len(), size, crate::woff2::HEADER_LEN + woff2_dir(ts, ts.len()).len() + c.len(), c.len() as int).len()
            + woff2_dir(ts, ts.len()).len() + c.len() <= u32::MAX,
    ensures
        woff2_decode_spec(
            woff2_header(flavor, ts.len(), size, crate::woff2::HEADER_LEN + woff2_dir(ts, ts.len()).len() + c.len(), c.len() as int)
                + woff2_dir(ts, ts.len()) + c,
        ) == Ok::<FontModel, ErrorModel>(FontModel { flavor, tables: ts }),
{
    let n = ts.len();
    let dir = woff2_dir(ts, n);
    let header = woff2_header(flavor, n, size, crate::woff2::HEADER_LEN + dir.len() + c.len(), c.len() as int);
    let s = header + dir + c;
    assert(header.len() == 48);
    let data_start: int = 48 + dir.len() as int;
    lemma_woff2_header_read(flavor, n, size, c, header, dir, s);
    assert(s.subrange(48, data_start) =~= dir);
    assert(woff2_dir(ts, 0) =~= Seq::<u8>::empty());
    assert(entries_of(ts).subrange(0, 0) =~= Seq::<EntryModel>::empty());
    lemma_woff2_entries(s, ts, 48, 0);
    assert(s.subrange(data_start, data_start + c.len()) =~= c);
    lemma_woff2_body(ts, flavor, s, data_start, c);
}

/// Reading back the WOFF2 form of a font gives the font with its tables in
/// tag order and `head` marked, where brotli gives the block back and the
/// file stays within 32-bit lengths.
pub proof fn lemma_woff2_round_trip(font: FontModel, c: Seq<u8>)
    requires
        woff2_round_trips(font),
        brotli_encoded(
            woff2_block(woff2_tables_out(font), font.tables.len()),
            BROTLI_BUFFER,
            BROTLI_QUALITY,
            BROTLI_WINDOW_BITS,
        ) == Some(c),
        forall|b: usize, limit: u64|
            b >= 1 && woff2_block(woff2_tables_out(font), font.tables.len()).len() <= limit ==> #[trigger] brotli_decoded(
                c,
                b,
                limit,
            ) == Some(woff2_block(woff2_tables_out(font), font.tables.len())),
    ensures
        woff2_encode_spec(font) matches Ok(out) && (out.len() <= u32::MAX ==> woff2_decode_spec(out)
            == Ok::<FontModel, ErrorModel>(FontModel { flavor: font.flavor, tables: woff2_tables_out(font) })),
{
    let ts = woff2_tables_out(font);
    let n = ts.len();
    let dir = woff2_dir(ts, n);
    lemma_woff2_out_tables(font);
    let header = woff2_header(font.flavor, n, sfnt_size_of(ts), crate::woff2::HEADER_LEN + dir.len() + c.len(), c.len() as int);
    let s = header + dir + c;
    assert(woff2_encode_spec(font) == Ok::<Seq<u8>, ErrorModel>(s));
    if s.len() <= u32::MAX {
        lemma_woff2_decode_written(font.flavor, ts, sfnt_size_of(ts), c);
    }
}

proof fn lemma_woff2_header_read(flavor: u32, n: nat, size: int, c: Seq<u8>, header: Seq<u8>, dir: Seq<u8>, s: Seq<u8>)
    requires
        n <= 0xffff,
        header == woff2_header(flavor, n, size, crate::woff2::HEADER_LEN + dir.len() + c.len(), c.len() as int),
        s == header + dir + c,
        s.len() <= u32::MAX,
    ensures
        s.len() >= 48,
        s.subrange(0, 4) == u32_be(WOFF2_MAGIC),
        be32(s, 4) == flavor,
        be16(s, 12) == n,
        be32(s, 20) == c.len(),
{
    lemma_be32_roundtrip(flavor);
    lemma_be32_roundtrip(c.len() as u32);
    lemma_be16_roundtrip(n as u16);
    assert(s.subrange(0, 4) =~= u32_be(WOFF2_MAGIC));
    assert(s.subrange(4, 8) =~= u32_be(flavor).subrange(0, 4));
    assert(s.subrange(20, 24) =~= u32_be(c.len() as u32).subrange(0, 4));
    lemma_be32_window(s, u32_be(flavor), 4, 0);
    lemma_be32_window(s, u32_be(c.len() as u32), 20, 0);
    assert(s[12] == u16_be(n as u16)[0] && s[13] == u16_be(n as u16)[1]);
    assert(be16(s, 12) == be16(u16_be(n as u16), 0));
}

proof fn lemma_flag_bytes(b16: u8, b17: u8)
    ensures
        ({
            let x = (((b16 as u16) * 256 + b17 as u16) as u16) | 0x0800u16;
            &&& ((x / 256) as u8) & 0xF7 == b16 & 0xF7
            &&& (x % 256) as u8 == b17
            &&& ((x / 256) as u8) & 0x08 == 0x08
        }),
{
    assert(({
        let x = (((b16 as u16) * 256 + b17 as u16) as u16) | 0x0800u16;
        &&& ((x / 256) as u8) & 0xF7 == b16 & 0xF7
        &&& (x % 256) as u8 == b17
        &&& ((x / 256) as u8) & 0x08 == 0x08
    })) by (bit_vector);
}

/// Marking `head` as losslessly transformed keeps every table's content, and
/// sets the flag in the first `head` that has a `flags` field.
pub proof fn lemma_mark_is_content(ts: Seq<TableModel>)
    ensures
        mark_lossless(ts).len() == ts.len(),
        forall|i: int| 0 <= i < ts.len() ==> #[trigger] same_content(mark_lossless(ts)[i], ts[i]),
        first_head_from(ts, 0) matches Some(h) ==> (ts[h].data.len() >= 18 ==> mark_lossless(ts)[h].data[16] & 0x08 == 0x08),
{
    let m = mark_lossless(ts);
    lemma_mark_keeps_size(ts);
    crate::woff2::lemma_first_head_range(ts, 0);
    assert forall|i: int| 0 <= i < ts.len() implies #[trigger] same_content(m[i], ts[i]) by {
        if let Some(h) = first_head_from(ts, 0) {
            if i == h {
                let d = ts[h].data;
                assert(m[i].data == lossless_flags(d));
                if d.len() >= 18 {
                    let v = be16(d, 16);
                    assert(v == (d[16] as u16) * 256 + d[17] as u16);
                    lemma_flag_bytes(d[16], d[17]);
                    let out = lossless_flags(d);
                    assert(out[16] == u16_be(v | 0x0800)[0]);
                    assert(out[17] == u16_be(v | 0x0800)[1]);
                    assert forall|k: int| 0 <= k < d.len() implies head_normal(out)[k] == head_normal(d)[k] by {
                        if k != 16 && k != 17 && !(8 <= k < 12) {
                            assert(out[k] == d[k]);
                        }
                    }
                    assert(head_normal(out) =~= head_normal(d));
                    assert(m[i].tag == ts[i].tag);
                    assert(same_content(m[i], ts[i]));
                } else {
                    assert(m[i] == ts[i]);
                }
            } else {
                assert(m[i] == ts[i]);
            }
        } else {
            assert(m[i] == ts[i]);
        }
        if tag_number(ts[i].tag) == HEAD_TAG_NUMBER && m[i] == ts[i] {
            assert(head_normal(m[i].data) == head_normal(ts[i].data));
        }
    }
    if let Some(h) = first_head_from(ts, 0) {
        let d = ts[h].data;
        if d.len() >= 18 {
            lemma_flag_bytes(d[16], d[17]);
            assert(lossless_flags(d)[16] == u16_be(be16(d, 16) | 0x0800)[0]);
        }
    }
}

/// The WOFF2 writer marks its output as the result of a lossless transform:
/// in the tables it writes, the first `head` that has a `flags` field has
/// bit 11 of `flags` set.
pub proof fn lemma_woff2_sets_lossless_flag(font: FontModel)
    ensures
        first_head_from(sort_by_tag(font.tables), 0) matches Some(h) ==> (sort_by_tag(font.tables)[h].data.len() >= 18
            ==> be16(woff2_tables_out(font)[h].data, 16) & 0x0800 == 0x0800),
{
    let ts = sort_by_tag(font.tables);
    lemma_mark_is_content(ts);
    lemma_mark_keeps_size(ts);
    crate::woff2::lemma_first_head_range(ts, 0);
    if let Some(h) = first_head_from(ts, 0) {
        let d = woff2_tables_out(font)[h].data;
        if ts[h].data.len() >= 18 {
            let a = d[16];
            let b = d[17];
            assert(a & 0x08 == 0x08);
            assert(a & 0x08 == 0x08 ==> (((a as u16) * 256 + b as u16) as u16) & 0x0800 == 0x0800) by (bit_vector);
            assert(be16(d, 16) == (((a as u16) * 256 + b as u16) as u16));
        }
    }
}

/// The first `head` depends on the tags alone.
proof fn lemma_first_head_same_tags(a: Seq<TableModel>, b: Seq<TableModel>, k: nat)
    requires
        a.len() == b.len(),
        forall|i: int| 0 <= i < a.len() ==> #[trigger] a[i].tag == b[i].tag,
    ensures
        first_head_from(a, k) == first_head_from(b, k),
    decreases a.len() - k,
{
    if k < a.len() {
        assert(a[k as int].tag == b[k as int].tag);
        lemma_first_head_same_tags(a, b, k + 1);
    }
}

/// Setting the lossless-transform bit of a `head` that already has it set
/// changes nothing.
proof fn lemma_lossless_flags_idempotent(d: Seq<u8>)
    ensures
        lossless_flags(lossless_flags(d)) == lossless_flags(d),
{
    if d.len() >= 18 {
        let v = be16(d, 16);
        let w = (v | 0x0800u16) as u16;
        let l = lossless_flags(d);
        assert(l.len() == d.len());
        assert(l[16] == u16_be(w)[0]);
        assert(l[17] == u16_be(w)[1]);
        lemma_be16_roundtrip(w);
        assert(be16(l, 16) == be16(u16_be(w), 0));
        assert((w | 0x0800u16) == w) by (bit_vector)
            requires w == (v | 0x0800u16);
        let l2 = lossless_flags(l);
        assert(l2 =~= l);
    }
}

/// Marking the tables as losslessly transformed a second time changes
/// nothing: the mark is idempotent.
pub proof fn lemma_mark_lossless_idempotent(ts: Seq<TableModel>)
    ensures
        mark_lossless(mark_lossless(ts)) == mark_lossless(ts),
{
    let m = mark_lossless(ts);
    lemma_mark_keeps_size(ts);
    crate::woff2::lemma_first_head_range(ts, 0);
    lemma_first_head_same_tags(m, ts, 0);
    if let Some(h) = first_head_from(ts, 0) {
        let d = ts[h].data;
        assert(m[h] == TableModel { tag: ts[h].tag, data: lossless_flags(d) });
        lemma_lossless_flags_idempotent(d);
        assert(mark_lossless(m) =~= m);
    }
}

// ---------------------------------------------------------------------------
// The declared file length

/// The WOFF header's `length` field is the length of the whole file the
/// writer produces: header, directory and stored tables.
pub proof fn lemma_woff1_length_field(font: FontModel)
    requires
        four_byte_tags(font.tables),
        woff1_bytes(font).len() <= u32::MAX,
    ensures
        woff1_bytes(font).len() >= HEADER_LEN,
        be32(woff1_bytes(font), 8) == woff1_bytes(font).len(),
{
    let ts = sort_by_tag(font.tables);
    let n = ts.len();
    lemma_sort_by_tag(font.tables);
    lemma_sort_members(font.tables);
    assert forall|i: int| 0 <= i < ts.len() implies #[trigger] ts[i].tag.len() == 4 by {
        assert(font.tables.contains(ts[i]));
        let k = choose|k: int| 0 <= k < font.tables.len() && font.tables[k] == ts[i];
        assert(font.tables[k].tag.len() == 4);
    }
    let header = woff1_header(font.flavor, ts, sfnt_size_of(font.tables));
    let s = woff1_bytes(font);
    crate::woff1::lemma_woff1_dir_len(ts, n);
    lemma_woff1_bodies_len(ts, n);
    crate::woff1::lemma_payload_sum_bound(ts, n);
    assert(header.len() == 44);
    let total = woff1_offset(ts, n as int);
    assert(s.len() == total);
    let w = u32_be(total as u32);
    lemma_be32_roundtrip(total as u32);
    assert(s[8] == w[0] && s[9] == w[1] && s[10] == w[2] && s[11] == w[3]);
}

/// The WOFF2 header's `length` field is the length of the whole file the
/// writer produces (header, directory and compressed block), modulo 2^32 as
/// the 32-bit field holds it.
pub proof fn lemma_woff2_length_field(font: FontModel)
    ensures
        woff2_encode_spec(font) matches Ok(v) ==> v.len() >= 48 && be32(v, 8) == v.len() % 0x1_0000_0000,
{
    if let Ok(v) = woff2_encode_spec(font) {
        let ts = woff2_tables_out(font);
        let dir = woff2_dir(ts, ts.len());
        let c = brotli_encoded(woff2_block(ts, ts.len()), BROTLI_BUFFER, BROTLI_QUALITY, BROTLI_WINDOW_BITS)->Some_0;
        let total = crate::woff2::HEADER_LEN + dir.len() + c.len();
        let header = woff2_header(font.flavor, ts.len(), sfnt_size_of(ts), total, c.len() as int);
        assert(header.len() == 48);
        assert(v == header + dir + c);
        let t = (total % 0x1_0000_0000) as u32;
        let w = u32_be(t);
        lemma_be32_roundtrip(t);
        assert(v[8] == w[0] && v[9] == w[1] && v[10] == w[2] && v[11] == w[3]);
    }
}

// ---------------------------------------------------------------------------
// Header and directory fields that mirror the sfnt form

/// The WOFF header's `totalSfntSize` is the length of the font's sfnt form.
pub proof fn lemma_woff1_sfnt_size_field(font: FontModel)
    requires
        four_byte_tags(font.tables),
        sfnt_size_of(font.tables) <= u32::MAX,
    ensures
        woff1_bytes(font).len() >= HEADER_LEN,
        be32(woff1_bytes(font), 16) == crate::sfnt::sfnt_bytes(font).len(),
{
    let ts = sort_by_tag(font.tables);
    let header = woff1_header(font.flavor, ts, sfnt_size_of(font.tables));
    let v = woff1_bytes(font);
    assert(header.len() == 44);
    assert(v == header + woff1_dir(ts, ts.len()) + woff1_bodies(ts, ts.len()));
    let w = u32_be(sfnt_size_of(font.tables) as u32);
    lemma_be32_roundtrip(sfnt_size_of(font.tables) as u32);
    assert(v[16] == w[0] && v[17] == w[1] && v[18] == w[2] && v[19] == w[3]);
    crate::round_trip::lemma_sfnt_length(font);
}

/// WOFF directory entry `i` names the `i`-th table in tag order and carries
/// its original length and the same checksum the sfnt directory gives it:
/// that of its data, with `checkSumAdjustment` read as zero for `head`.
pub proof fn lemma_woff1_directory_entry(font: FontModel, i: int)
    requires
        four_byte_tags(font.tables),
        0 <= i < font.tables.len(),
    ensures
        ({
            let v = woff1_bytes(font);
            let t = sort_by_tag(font.tables)[i];
            let base = HEADER_LEN + ENTRY_LEN * i;
            &&& v.len() >= base + 20
            &&& v.subrange(base, base + 4) == t.tag
            &&& be32(v, base + 12) == t.data.len() as u32
            &&& be32(v, base + 16) == if tag_number(t.tag) == HEAD_TAG_NUMBER {
                crate::sfnt::checksum_of(crate::sfnt::zero4(t.data, crate::sfnt::HEAD_ADJUSTMENT_OFFSET as int))
            } else {
                crate::sfnt::checksum_of(t.data)
            }
        }),
{
    let ts = sort_by_tag(font.tables);
    let n = ts.len();
    lemma_sort_by_tag(font.tables);
    crate::sfnt::lemma_sort_keeps_size(font.tables);
    lemma_sort_members(font.tables);
    assert forall|k: int| 0 <= k < n implies #[trigger] ts[k].tag.len() == 4 by {
        assert(font.tables.contains(ts[k]));
        let j = choose|j: int| 0 <= j < font.tables.len() && font.tables[j] == ts[k];
        assert(font.tables[j].tag.len() == 4);
    }
    let header = woff1_header(font.flavor, ts, sfnt_size_of(font.tables));
    let dir = woff1_dir(ts, n);
    let v = woff1_bytes(font);
    assert(header.len() == 44);
    assert(v == header + dir + woff1_bodies(ts, n));
    lemma_woff1_dir_entry_at(ts, n, i);
    let t = ts[i];
    let e = woff1_dir_entry(ts, i);
    let base = 44 + 20 * i;
    let l = u32_be(t.data.len() as u32);
    let c = u32_be(crate::sfnt::table_checksum_of(t.tag, t.data));
    lemma_be32_roundtrip(t.data.len() as u32);
    lemma_be32_roundtrip(crate::sfnt::table_checksum_of(t.tag, t.data));
    assert(e == t.tag + u32_be(woff1_offset(ts, i) as u32) + u32_be(woff1_payload(t.data).len() as u32) + l + c);
    assert forall|k: int| 0 <= k < 20 implies #[trigger] v[base + k] == e[k] by {
        assert(v[base + k] == dir[20 * i + k]);
        assert(dir.subrange(20 * i, 20 * i + 20)[k] == dir[20 * i + k]);
    }
    assert(v.subrange(base, base + 4) =~= t.tag) by {
        assert forall|k: int| 0 <= k < 4 implies v.subrange(base, base + 4)[k] == t.tag[k] by {
            assert(v[base + k] == e[k]);
        }
    }
    assert(v[base + 12] == e[12] && v[base + 13] == e[13] && v[base + 14] == e[14] && v[base + 15] == e[15]);
    assert(v[base + 16] == e[16] && v[base + 17] == e[17] && v[base + 18] == e[18] && v[base + 19] == e[19]);
}

/// The WOFF2 header's `totalSfntSize` is the length of the sfnt form of the
/// font it was written from (marking `head` changes no length).
pub proof fn lemma_woff2_sfnt_size_field(font: FontModel)
    requires
        four_byte_tags(font.tables),
        sfnt_size_of(font.tables) <= u32::MAX,
    ensures
        woff2_encode_spec(font) matches Ok(v) ==> v.len() >= 48 && be32(v, 16) == crate::sfnt::sfnt_bytes(font).len(),
{
    if let Ok(v) = woff2_encode_spec(font) {
        let sorted = sort_by_tag(font.tables);
        let ts = woff2_tables_out(font);
        crate::sfnt::lemma_sort_keeps_size(font.tables);
        lemma_mark_keeps_size(sorted);
        assert(sfnt_size_of(ts) == sfnt_size_of(font.tables));
        let dir = woff2_dir(ts, ts.len());
        let c = brotli_encoded(woff2_block(ts, ts.len()), BROTLI_BUFFER, BROTLI_QUALITY, BROTLI_WINDOW_BITS)->Some_0;
        let total = crate::woff2::HEADER_LEN + dir.len() + c.len();
        let header = woff2_header(font.flavor, ts.len(), sfnt_size_of(ts), total, c.len() as int);
        assert(header.len() == 48);
        assert(v == header + dir + c);
        let w = u32_be(sfnt_size_of(ts) as u32);
        lemma_be32_roundtrip(sfnt_size_of(ts) as u32);
        assert(v[16] == w[0] && v[17] == w[1] && v[18] == w[2] && v[19] == w[3]);
        crate::round_trip::lemma_sfnt_length(font);
    }
}

} // verus!
