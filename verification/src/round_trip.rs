//! What reading back the sfnt form of a font gives: the same flavor, the same
//! tables in tag order, and every byte of every table as it was, except the
//! `head.checkSumAdjustment` field that the writer computes over the file.

use crate::bytes::{be16, be32, lemma_be16_roundtrip, lemma_be32_roundtrip, lemma_be32_window, u16_be, u32_be};
use crate::error::ErrorModel;
use crate::tags::tag_number;
use crate::sfnt::{
    checksum_of, last_head, lemma_last_head_range, lemma_sfnt_header_len, lemma_sort_by_tag, lemma_sort_keeps_distinct,
    lemma_sort_keeps_size, lemma_sort_members, patch_adjustment, sfnt_bytes, sfnt_of_sorted, sfnt_header, sfnt_unpatched, sort_by_tag,
    is_sorted_by_tag, sum_words, table_checksum_of, word_at, zero4, CHECKSUM_MAGIC, HEAD_ADJUSTMENT_OFFSET, HEAD_TAG_NUMBER, body_bytes, dir_bytes, dir_entry, distinct_tags, duplicate_check, flavor_check, four_byte_tags,
    lemma_dir_bytes_len, lemma_duplicate_check_distinct, lemma_round4, lemma_sum_padded_mono, parse_sfnt_spec,
    round4, sfnt_entries, sfnt_entry, sfnt_size_of, sum_padded, table_offset, zeros, FontModel, TableModel,
};
use vstd::prelude::*;

verus! {

/// The tables of `s` at the places where the sfnt form of `ts` keeps them.
pub open spec fn read_back(s: Seq<u8>, ts: Seq<TableModel>) -> Seq<TableModel> {
    Seq::new(
        ts.len(),
        |i: int| TableModel { tag: ts[i].tag, data: s.subrange(table_offset(ts, i), table_offset(ts, i) + ts[i].data.len()) },
    )
}

proof fn lemma_dir_entry_at(ts: Seq<TableModel>, n: nat, i: int)
    requires
        n <= ts.len(),
        0 <= i < n,
        four_byte_tags(ts),
    ensures
        dir_bytes(ts, n).len() == 16 * n,
        dir_bytes(ts, n).subrange(16 * i, 16 * i + 16) == dir_entry(ts, i),
    decreases n,
{
    lemma_dir_bytes_len(ts, n);
    lemma_dir_bytes_len(ts, (n - 1) as nat);
    let a = dir_bytes(ts, (n - 1) as nat);
    let e = dir_entry(ts, n - 1);
    assert(ts[n - 1].tag.len() == 4);
    assert(e.len() == 16);
    assert(dir_bytes(ts, n) == a + e);
    if i == n - 1 {
        assert((a + e).subrange(16 * i, 16 * i + 16) =~= e);
    } else {
        lemma_dir_entry_at(ts, (n - 1) as nat, i);
        assert((a + e).subrange(16 * i, 16 * i + 16) =~= a.subrange(16 * i, 16 * i + 16));
    }
}

proof fn lemma_body_len(ts: Seq<TableModel>, n: nat)
    requires
        n <= ts.len(),
    ensures
        body_bytes(ts, n).len() == sum_padded(ts, n),
    decreases n,
{
    if n > 0 {
        lemma_body_len(ts, (n - 1) as nat);
        lemma_round4(ts[n - 1].data.len() as int);
    }
}

proof fn lemma_body_table_at(ts: Seq<TableModel>, n: nat, i: int)
    requires
        n <= ts.len(),
        0 <= i < n,
    ensures
        body_bytes(ts, n).subrange(sum_padded(ts, i as nat), sum_padded(ts, i as nat) + ts[i].data.len()) == ts[i].data,
    decreases n,
{
    lemma_body_len(ts, n);
    lemma_body_len(ts, (n - 1) as nat);
    let a = body_bytes(ts, (n - 1) as nat);
    let d = ts[n - 1].data;
    let z = zeros(round4(d.len() as int) - d.len());
    lemma_round4(d.len() as int);
    assert(body_bytes(ts, n) == a + d + z);
    let start = sum_padded(ts, i as nat);
    if i == n - 1 {
        assert((a + d + z).subrange(start, start + d.len()) =~= d);
    } else {
        lemma_body_table_at(ts, (n - 1) as nat, i);
        lemma_sum_padded_mono(ts, (i + 1) as nat, (n - 1) as nat);
        lemma_round4(ts[i].data.len() as int);
        assert(sum_padded(ts, (i + 1) as nat) == start + round4(ts[i].data.len() as int));
        assert(start + ts[i].data.len() <= a.len());
        lemma_sum_padded_mono(ts, 0, i as nat);
        assert((a + d + z).subrange(start, start + ts[i].data.len()) =~= a.subrange(start, start + ts[i].data.len()));
    }
}

/// `s` carries the directory of the sfnt form of `ts` and is as long as it.
#[verifier::opaque]
pub open spec fn lays_out(s: Seq<u8>, ts: Seq<TableModel>) -> bool {
    &&& four_byte_tags(ts)
    &&& s.len() == sfnt_size_of(ts)
    &&& sfnt_size_of(ts) <= u32::MAX
    &&& s.subrange(12, 12 + 16 * ts.len() as int) == dir_bytes(ts, ts.len())
}

proof fn lemma_lays_out_facts(s: Seq<u8>, ts: Seq<TableModel>)
    requires
        lays_out(s, ts),
    ensures
        four_byte_tags(ts),
        s.len() == sfnt_size_of(ts),
        sfnt_size_of(ts) <= u32::MAX,
{
    reveal(lays_out);
}

proof fn lemma_table_end(ts: Seq<TableModel>, i: int)
    requires
        0 <= i < ts.len(),
    ensures
        12 + 16 * ts.len() <= table_offset(ts, i),
        table_offset(ts, i) + ts[i].data.len() <= table_offset(ts, i) + round4(ts[i].data.len() as int),
        table_offset(ts, i) + round4(ts[i].data.len() as int) == table_offset(ts, i + 1),
        table_offset(ts, i + 1) <= sfnt_size_of(ts),
{
    lemma_sum_padded_mono(ts, 0, i as nat);
    lemma_sum_padded_mono(ts, (i + 1) as nat, ts.len());
    lemma_round4(ts[i].data.len() as int);
}

proof fn lemma_dir_entry_fields(ts: Seq<TableModel>, i: int)
    requires
        0 <= i < ts.len(),
        ts[i].tag.len() == 4,
    ensures
        dir_entry(ts, i).len() == 16,
        dir_entry(ts, i).subrange(0, 4) == ts[i].tag,
        be32(dir_entry(ts, i), 8) == table_offset(ts, i) as u32,
        be32(dir_entry(ts, i), 12) == ts[i].data.len() as u32,
{
    let e = dir_entry(ts, i);
    let off = u32_be(table_offset(ts, i) as u32);
    let len = u32_be(ts[i].data.len() as u32);
    lemma_be32_roundtrip(table_offset(ts, i) as u32);
    lemma_be32_roundtrip(ts[i].data.len() as u32);
    assert(e.subrange(0, 4) =~= ts[i].tag);
    assert(e.subrange(8, 12) =~= off.subrange(0, 4));
    assert(e.subrange(12, 16) =~= len.subrange(0, 4));
    lemma_be32_window(e, off, 8, 0);
    lemma_be32_window(e, len, 12, 0);
}

proof fn lemma_dir_window(s: Seq<u8>, ts: Seq<TableModel>, i: int)
    requires
        lays_out(s, ts),
        0 <= i < ts.len(),
    ensures
        s.subrange(12 + 16 * i, 12 + 16 * i + 16) == dir_entry(ts, i),
{
    let n = ts.len();
    reveal(lays_out);
    lemma_dir_entry_at(ts, n, i);
    lemma_sum_padded_mono(ts, 0, n);
    assert(s.subrange(12 + 16 * i, 12 + 16 * i + 16) =~= s.subrange(12, 12 + 16 * n as int).subrange(16 * i, 16 * i + 16));
}

proof fn lemma_read_entry(s: Seq<u8>, ts: Seq<TableModel>, i: int)
    requires
        lays_out(s, ts),
        0 <= i < ts.len(),
    ensures
        sfnt_entry(s, i) == Ok::<TableModel, ErrorModel>(read_back(s, ts)[i]),
{
    let p = 12 + 16 * i;
    let e = dir_entry(ts, i);
    lemma_lays_out_facts(s, ts);
    assert(ts[i].tag.len() == 4);
    lemma_dir_window(s, ts, i);
    lemma_dir_entry_fields(ts, i);
    lemma_table_end(ts, i);
    let w = s.subrange(p, p + 16);
    assert(s.subrange(p, p + 4) =~= w.subrange(0, 4));
    assert(s.subrange(p + 8, p + 12) =~= w.subrange(8, 12));
    assert(s.subrange(p + 12, p + 16) =~= w.subrange(12, 16));
    lemma_be32_window(s, e, p + 8, 8);
    lemma_be32_window(s, e, p + 12, 12);
}

proof fn lemma_read_entries(s: Seq<u8>, ts: Seq<TableModel>, k: nat)
    requires
        lays_out(s, ts),
        k <= ts.len(),
    ensures
        sfnt_entries(s, k) == Ok::<Seq<TableModel>, ErrorModel>(read_back(s, ts).subrange(0, k as int)),
    decreases k,
{
    if k == 0 {
        assert(read_back(s, ts).subrange(0, 0) =~= Seq::<TableModel>::empty());
    } else {
        lemma_read_entries(s, ts, (k - 1) as nat);
        lemma_read_entry(s, ts, k - 1);
        assert(read_back(s, ts).subrange(0, k - 1).push(read_back(s, ts)[k - 1]) =~= read_back(s, ts).subrange(0, k as int));
    }
}

/// Parsing a file laid out for `ts` gives the tables where the layout keeps them.
proof fn lemma_parse_laid_out(s: Seq<u8>, flavor: u32, ts: Seq<TableModel>)
    requires
        lays_out(s, ts),
        flavor_check(flavor) is Ok,
        1 <= ts.len() <= 0xffff,
        distinct_tags(ts),
        s.subrange(0, 4) == u32_be(flavor),
        s.subrange(4, 6) == u16_be(ts.len() as u16),
    ensures
        parse_sfnt_spec(s) == Ok::<FontModel, ErrorModel>(FontModel { flavor, tables: read_back(s, ts) }),
{
    let n = ts.len();
    lemma_lays_out_facts(s, ts);
    lemma_sum_padded_mono(ts, 0, n);
    assert(s.len() >= 12 + 16 * n);
    lemma_be32_roundtrip(flavor);
    assert(u32_be(flavor).subrange(0, 4) =~= u32_be(flavor));
    lemma_be32_window(s, u32_be(flavor), 0, 0);
    assert(be32(s, 0) == flavor);
    assert(s[4] == s.subrange(4, 6)[0] && s[5] == s.subrange(4, 6)[1]);
    lemma_be16_roundtrip(n as u16);
    assert(be16(s, 4) == be16(u16_be(n as u16), 0));
    assert(be16(s, 4) == n);
    lemma_read_entries(s, ts, n);
    let rb = read_back(s, ts);
    assert(rb.subrange(0, n as int) =~= rb);
    lemma_duplicate_check_distinct(rb, n);
    assert(distinct_tags(rb.subrange(0, n as int)));
}

/// `data` with the bytes of `head.checkSumAdjustment` (offsets 8 to 11, as
/// far as they exist) cleared.
pub open spec fn mask_adjustment(data: Seq<u8>) -> Seq<u8> {
    Seq::new(
        data.len(),
        |k: int| if HEAD_ADJUSTMENT_OFFSET <= k < HEAD_ADJUSTMENT_OFFSET + 4 { 0u8 } else { data[k] },
    )
}

/// Two tables agree: same tag, same bytes, except that in a `head` table
/// `checkSumAdjustment` may differ.
pub open spec fn same_but_adjustment(a: TableModel, b: TableModel) -> bool {
    &&& a.tag == b.tag
    &&& if tag_number(a.tag) == HEAD_TAG_NUMBER {
        mask_adjustment(a.data) == mask_adjustment(b.data)
    } else {
        a.data == b.data
    }
}

/// In tables laid out in this order, `head.checkSumAdjustment` falls inside
/// the `head` table or past the end of the file: a `head` of eight bytes or
/// fewer is the last table.
pub open spec fn adjustment_fits(ts: Seq<TableModel>) -> bool {
    forall|i: int|
        0 <= i < ts.len() && #[trigger] tag_number(ts[i].tag) == HEAD_TAG_NUMBER && ts[i].data.len() <= HEAD_ADJUSTMENT_OFFSET
            ==> i == ts.len() - 1
}

/// A font whose sfnt form reads back: a known flavor, one to 65535 tables
/// with distinct four-byte tags, every offset within 32 bits, and room for
/// `head.checkSumAdjustment`.
pub open spec fn sfnt_round_trips(font: FontModel) -> bool {
    &&& flavor_check(font.flavor) is Ok
    &&& 1 <= font.tables.len() <= 0xffff
    &&& four_byte_tags(font.tables)
    &&& distinct_tags(font.tables)
    &&& sfnt_size_of(font.tables) <= u32::MAX
    &&& adjustment_fits(sort_by_tag(font.tables))
}

/// Patching `checkSumAdjustment` changes only its own four bytes.
proof fn lemma_patch_agrees(pre: Seq<u8>, field: int)
    ensures
        patch_adjustment(pre, field).len() == pre.len(),
        forall|k: int| 0 <= k < pre.len() && !(field <= k < field + 4) ==> #[trigger] patch_adjustment(pre, field)[k] == pre[k],
        field + 4 > pre.len() ==> patch_adjustment(pre, field) == pre,
{
    if 0 <= field && field + 4 <= pre.len() {
        let z = zero4(pre, field);
        let adjustment = ((CHECKSUM_MAGIC - checksum_of(z) + 0x1_0000_0000) % 0x1_0000_0000) as u32;
        lemma_be32_roundtrip(adjustment);
        let out = z.subrange(0, field) + u32_be(adjustment) + z.subrange(field + 4, z.len() as int);
        assert(patch_adjustment(pre, field) == out);
        assert forall|k: int| 0 <= k < pre.len() && !(field <= k < field + 4) implies #[trigger] out[k] == pre[k] by {
            if k < field {
                assert(out[k] == z[k]);
            } else {
                assert(out[k] == z.subrange(field + 4, z.len() as int)[k - field - 4]);
            }
        }
    }
}

/// Two files that agree outside `[field, field + 4)` agree on any window clear of it.
proof fn lemma_window_clear(a: Seq<u8>, b: Seq<u8>, field: int, lo: int, hi: int)
    requires
        a.len() == b.len(),
        0 <= lo <= hi <= a.len(),
        hi <= field || field + 4 <= lo,
        forall|k: int| 0 <= k < a.len() && !(field <= k < field + 4) ==> #[trigger] a[k] == b[k],
    ensures
        a.subrange(lo, hi) == b.subrange(lo, hi),
{
    assert forall|k: int| 0 <= k < hi - lo implies a.subrange(lo, hi)[k] == b.subrange(lo, hi)[k] by {
        assert(a[lo + k] == b[lo + k]);
    }
    assert(a.subrange(lo, hi) =~= b.subrange(lo, hi));
}

proof fn lemma_offsets_ordered(ts: Seq<TableModel>, i: int, j: int)
    requires
        0 <= i < j <= ts.len(),
    ensures
        table_offset(ts, i) + ts[i].data.len() <= table_offset(ts, j),
{
    lemma_table_end(ts, i);
    lemma_sum_padded_mono(ts, (i + 1) as nat, j as nat);
}

proof fn lemma_sorted_tables(font: FontModel)
    requires
        sfnt_round_trips(font),
    ensures
        sort_by_tag(font.tables).len() == font.tables.len(),
        four_byte_tags(sort_by_tag(font.tables)),
        distinct_tags(sort_by_tag(font.tables)),
        sfnt_size_of(sort_by_tag(font.tables)) == sfnt_size_of(font.tables),
{
    let ts = sort_by_tag(font.tables);
    lemma_sort_by_tag(font.tables);
    lemma_sort_keeps_size(font.tables);
    lemma_sort_keeps_distinct(font.tables);
    lemma_sort_members(font.tables);
    assert forall|i: int| 0 <= i < ts.len() implies #[trigger] ts[i].tag.len() == 4 by {
        assert(font.tables.contains(ts[i]));
        let k = choose|k: int| 0 <= k < font.tables.len() && font.tables[k] == ts[i];
        assert(font.tables[k].tag.len() == 4);
    }
}

/// The unpatched file: header, directory, and every table where the layout puts it.
proof fn lemma_unpatched(flavor: u32, ts: Seq<TableModel>)
    requires
        four_byte_tags(ts),
        sfnt_size_of(ts) <= u32::MAX,
    ensures
        lays_out(sfnt_unpatched(flavor, ts), ts),
        sfnt_unpatched(flavor, ts).subrange(0, 4) == u32_be(flavor),
        sfnt_unpatched(flavor, ts).subrange(4, 6) == u16_be(ts.len() as u16),
        forall|i: int| 0 <= i < ts.len() ==> #[trigger] sfnt_unpatched(flavor, ts).subrange(
            table_offset(ts, i),
            table_offset(ts, i) + ts[i].data.len(),
        ) == ts[i].data,
{
    let n = ts.len();
    let pre = sfnt_unpatched(flavor, ts);
    let header = sfnt_header(flavor, n);
    let dir = dir_bytes(ts, n);
    let body = body_bytes(ts, n);
    lemma_sfnt_header_len(flavor, n);
    lemma_dir_bytes_len(ts, n);
    lemma_body_len(ts, n);
    assert(pre == header + dir + body);
    assert(pre.subrange(12, 12 + 16 * n as int) =~= dir);
    assert(lays_out(pre, ts)) by {
        reveal(lays_out);
    }
    assert(pre.subrange(0, 4) =~= u32_be(flavor) && pre.subrange(4, 6) =~= u16_be(n as u16)) by {
        reveal(sfnt_header);
        assert(pre.subrange(0, 4) =~= header.subrange(0, 4));
        assert(pre.subrange(4, 6) =~= header.subrange(4, 6));
    }
    assert forall|i: int| 0 <= i < n implies #[trigger] pre.subrange(
        table_offset(ts, i),
        table_offset(ts, i) + ts[i].data.len(),
    ) == ts[i].data by {
        let off = table_offset(ts, i);
        let len = ts[i].data.len() as int;
        lemma_table_end(ts, i);
        lemma_body_table_at(ts, n, i);
        assert(pre.subrange(off, off + len) =~= body.subrange(sum_padded(ts, i as nat), sum_padded(ts, i as nat) + len));
    }
}

/// Where the writer patches `checkSumAdjustment`, if it does.
pub open spec fn adjustment_field(ts: Seq<TableModel>) -> int {
    match last_head(ts, ts.len()) {
        Some(h) => table_offset(ts, h) + HEAD_ADJUSTMENT_OFFSET,
        None => sfnt_size_of(ts),
    }
}

/// The written file agrees with the unpatched one outside the field.
proof fn lemma_patched(flavor: u32, ts: Seq<TableModel>)
    requires
        four_byte_tags(ts),
        sfnt_size_of(ts) <= u32::MAX,
    ensures
        sfnt_of_sorted(flavor, ts).len() == sfnt_unpatched(flavor, ts).len(),
        adjustment_field(ts) >= 12 + 16 * ts.len(),
        forall|k: int| 0 <= k < sfnt_unpatched(flavor, ts).len() && !(adjustment_field(ts) <= k < adjustment_field(ts) + 4)
            ==> #[trigger] sfnt_of_sorted(flavor, ts)[k] == sfnt_unpatched(flavor, ts)[k],
        adjustment_field(ts) + 4 > sfnt_unpatched(flavor, ts).len() ==> sfnt_of_sorted(flavor, ts) == sfnt_unpatched(flavor, ts),
{
    let n = ts.len();
    let pre = sfnt_unpatched(flavor, ts);
    lemma_unpatched(flavor, ts);
    lemma_lays_out_facts(pre, ts);
    lemma_last_head_range(ts, n);
    lemma_sum_padded_mono(ts, 0, n);
    if let Some(h) = last_head(ts, n) {
        lemma_table_end(ts, h);
    }
    lemma_patch_agrees(pre, adjustment_field(ts));
}

/// The written file is laid out for `ts`, with the header's flavor and count.
proof fn lemma_written_layout(flavor: u32, ts: Seq<TableModel>)
    requires
        four_byte_tags(ts),
        sfnt_size_of(ts) <= u32::MAX,
    ensures
        lays_out(sfnt_of_sorted(flavor, ts), ts),
        sfnt_of_sorted(flavor, ts).subrange(0, 4) == u32_be(flavor),
        sfnt_of_sorted(flavor, ts).subrange(4, 6) == u16_be(ts.len() as u16),
{
    let n = ts.len();
    let pre = sfnt_unpatched(flavor, ts);
    let out = sfnt_of_sorted(flavor, ts);
    let field = adjustment_field(ts);
    lemma_unpatched(flavor, ts);
    lemma_patched(flavor, ts);
    lemma_lays_out_facts(pre, ts);
    lemma_sum_padded_mono(ts, 0, n);
    lemma_window_clear(out, pre, field, 0, 4);
    lemma_window_clear(out, pre, field, 4, 6);
    lemma_window_clear(out, pre, field, 12, 12 + 16 * n as int);
    assert(lays_out(out, ts)) by {
        reveal(lays_out);
    }
}

/// Each table read back from the written file matches the one written.
proof fn lemma_table_read_back(flavor: u32, ts: Seq<TableModel>, i: int)
    requires
        four_byte_tags(ts),
        sfnt_size_of(ts) <= u32::MAX,
        adjustment_fits(ts),
        0 <= i < ts.len(),
    ensures
        same_but_adjustment(read_back(sfnt_of_sorted(flavor, ts), ts)[i], ts[i]),
{
    let n = ts.len();
    let pre = sfnt_unpatched(flavor, ts);
    let out = sfnt_of_sorted(flavor, ts);
    let field = adjustment_field(ts);
    let off = table_offset(ts, i);
    let len = ts[i].data.len() as int;
    lemma_unpatched(flavor, ts);
    lemma_patched(flavor, ts);
    lemma_lays_out_facts(pre, ts);
    lemma_last_head_range(ts, n);
    lemma_table_end(ts, i);
    assert(pre.subrange(off, off + len) == ts[i].data);
    match last_head(ts, n) {
        None => {
            lemma_window_clear(out, pre, field, off, off + len);
        },
        Some(h) => {
            if ts[h].data.len() <= HEAD_ADJUSTMENT_OFFSET {
                assert(h == n - 1);
                lemma_table_end(ts, h);
                lemma_round4(ts[h].data.len() as int);
                assert(field + 4 > pre.len());
            } else if i == h {
                assert(mask_adjustment(out.subrange(off, off + len)) =~= mask_adjustment(ts[i].data)) by {
                    assert forall|k: int|
                        0 <= k < len && !(HEAD_ADJUSTMENT_OFFSET <= k < HEAD_ADJUSTMENT_OFFSET + 4) implies out.subrange(
                        off,
                        off + len,
                    )[k] == ts[i].data[k] by {
                        assert(out[off + k] == pre[off + k]);
                        assert(pre[off + k] == pre.subrange(off, off + len)[k]);
                    }
                }
            } else if i < h {
                lemma_offsets_ordered(ts, i, h);
                lemma_window_clear(out, pre, field, off, off + len);
            } else {
                lemma_round4(ts[h].data.len() as int);
                lemma_table_end(ts, h);
                if h + 1 < i {
                    lemma_sum_padded_mono(ts, (h + 1) as nat, i as nat);
                }
                lemma_window_clear(out, pre, field, off, off + len);
            }
        },
    }
}

/// Reading back the sfnt form of a font gives its flavor, and its tables in
/// tag order with every byte as it was, except `head.checkSumAdjustment`,
/// which the writer computes over the whole file.
pub proof fn lemma_sfnt_round_trip(font: FontModel)
    requires
        sfnt_round_trips(font),
    ensures
        parse_sfnt_spec(sfnt_bytes(font)) matches Ok(back) && back.flavor == font.flavor
            && back.tables.len() == font.tables.len()
            && forall|i: int| 0 <= i < back.tables.len() ==>
                #[trigger] same_but_adjustment(back.tables[i], sort_by_tag(font.tables)[i]),
{
    let ts = sort_by_tag(font.tables);
    lemma_sorted_tables(font);
    lemma_written_layout(font.flavor, ts);
    lemma_parse_laid_out(sfnt_of_sorted(font.flavor, ts), font.flavor, ts);
    assert forall|i: int| 0 <= i < ts.len() implies #[trigger] same_but_adjustment(
        read_back(sfnt_of_sorted(font.flavor, ts), ts)[i],
        ts[i],
    ) by {
        lemma_table_read_back(font.flavor, ts, i);
    }
}

/// `head` data with the fields its writers own cleared: `checkSumAdjustment`
/// (offsets 8 to 11, as far as they exist) and the lossless-transform bit of
/// `flags` (bit 11 of the big-endian `u16` at offset 16, when it is there).
pub open spec fn head_normal(data: Seq<u8>) -> Seq<u8> {
    Seq::new(
        data.len(),
        |k: int|
            if HEAD_ADJUSTMENT_OFFSET <= k < HEAD_ADJUSTMENT_OFFSET + 4 {
                0u8
            } else if k == 16 && data.len() >= 18 {
                data[16] & 0xF7
            } else {
                data[k]
            },
    )
}

/// Two tables hold the same content: the same tag and the same bytes, except
/// for the fields of `head` that its writers own.
pub open spec fn same_content(a: TableModel, b: TableModel) -> bool {
    &&& a.tag == b.tag
    &&& if tag_number(a.tag) == HEAD_TAG_NUMBER {
        head_normal(a.data) == head_normal(b.data)
    } else {
        a.data == b.data
    }
}

/// Tables that agree but for `checkSumAdjustment` hold the same content.
pub proof fn lemma_adjustment_is_content(a: TableModel, b: TableModel)
    requires
        same_but_adjustment(a, b),
    ensures
        same_content(a, b),
{
    if tag_number(a.tag) == HEAD_TAG_NUMBER {
        assert(mask_adjustment(a.data).len() == a.data.len());
        assert(mask_adjustment(b.data).len() == b.data.len());
        assert forall|k: int| 0 <= k < a.data.len() implies head_normal(a.data)[k] == head_normal(b.data)[k] by {
            if !(HEAD_ADJUSTMENT_OFFSET <= k < HEAD_ADJUSTMENT_OFFSET + 4) {
                assert(mask_adjustment(a.data)[k] == mask_adjustment(b.data)[k]);
                if a.data.len() >= 18 {
                    assert(mask_adjustment(a.data)[16] == mask_adjustment(b.data)[16]);
                }
            }
        }
        assert(head_normal(a.data) =~= head_normal(b.data));
    }
}

/// The sfnt form of a font starts with its flavor.
pub proof fn lemma_sfnt_starts_with_flavor(font: FontModel)
    ensures
        sfnt_bytes(font).len() >= 12,
        sfnt_bytes(font).subrange(0, 4) == u32_be(font.flavor),
{
    let ts = sort_by_tag(font.tables);
    let n = ts.len();
    let pre = sfnt_unpatched(font.flavor, ts);
    let header = sfnt_header(font.flavor, n);
    lemma_sfnt_header_len(font.flavor, n);
    assert(pre.subrange(0, 4) =~= u32_be(font.flavor)) by {
        reveal(sfnt_header);
        assert(pre.subrange(0, 4) =~= header.subrange(0, 4));
    }
    let field = adjustment_field(ts);
    lemma_last_head_range(ts, n);
    lemma_sum_padded_mono(ts, 0, n);
    if let Some(h) = last_head(ts, n) {
        lemma_sum_padded_mono(ts, 0, h as nat);
    }
    lemma_patch_agrees(pre, field);
    let out = sfnt_bytes(font);
    assert(out == patch_adjustment(pre, field) || out == pre);
    if out == patch_adjustment(pre, field) {
        lemma_window_clear(out, pre, field, 0, 4);
    }
}

// ---------------------------------------------------------------------------
// Writing again what was read back

/// Insertion sort leaves tables already in tag order as they are.
proof fn lemma_sort_sorted(ts: Seq<TableModel>)
    requires
        is_sorted_by_tag(ts),
    ensures
        sort_by_tag(ts) == ts,
    decreases ts.len(),
{
    if ts.len() > 0 {
        let rest = ts.drop_last();
        assert(is_sorted_by_tag(rest)) by {
            assert forall|i: int, j: int| 0 <= i < j < rest.len() implies tag_number(rest[i].tag) <= tag_number(rest[j].tag) by {
                assert(rest[i] == ts[i] && rest[j] == ts[j]);
            }
        }
        lemma_sort_sorted(rest);
        if rest.len() == 0 {
            assert(ts =~= seq![ts.last()]);
        } else {
            assert(rest.last() == ts[ts.len() - 2]);
            assert(rest.push(ts.last()) =~= ts);
        }
    }
}

proof fn lemma_last_head_same_tags(a: Seq<TableModel>, b: Seq<TableModel>, n: nat)
    requires
        n <= a.len(),
        n <= b.len(),
        forall|i: int| 0 <= i < n ==> #[trigger] a[i].tag == b[i].tag,
    ensures
        last_head(a, n) == last_head(b, n),
    decreases n,
{
    if n > 0 {
        assert(a[n - 1].tag == b[n - 1].tag);
        lemma_last_head_same_tags(a, b, (n - 1) as nat);
    }
}

/// Bodies of tables that agree, but for bytes 8 to 11 of table `h`, agree
/// but for those four bytes.
proof fn lemma_body_agree(a: Seq<TableModel>, b: Seq<TableModel>, n: nat, h: int)
    requires
        n <= a.len(),
        n <= b.len(),
        forall|i: int| 0 <= i < n ==> #[trigger] a[i].data.len() == b[i].data.len(),
        forall|i: int| 0 <= i < n && i != h ==> #[trigger] a[i].data == b[i].data,
        0 <= h < n ==> forall|k: int|
            0 <= k < a[h].data.len() && !(HEAD_ADJUSTMENT_OFFSET <= k < HEAD_ADJUSTMENT_OFFSET + 4) ==> #[trigger] a[h].data[k]
                == b[h].data[k],
    ensures
        body_bytes(a, n).len() == body_bytes(b, n).len(),
        forall|k: int|
            0 <= k < body_bytes(a, n).len() && !(0 <= h < n && sum_padded(a, h as nat) + HEAD_ADJUSTMENT_OFFSET <= k
                < sum_padded(a, h as nat) + HEAD_ADJUSTMENT_OFFSET + 4) ==> #[trigger] body_bytes(a, n)[k] == body_bytes(b, n)[k],
    decreases n,
{
    lemma_body_len(a, n);
    lemma_body_len(b, n);
    crate::woff2::lemma_sum_padded_same_lengths(a, b, n);
    if n > 0 {
        let m = (n - 1) as nat;
        lemma_body_agree(a, b, m, h);
        lemma_body_len(a, m);
        lemma_body_len(b, m);
        crate::woff2::lemma_sum_padded_same_lengths(a, b, m);
        let da = a[n - 1].data;
        let db = b[n - 1].data;
        assert(da.len() == db.len());
        let za = zeros(round4(da.len() as int) - da.len());
        let zb = zeros(round4(db.len() as int) - db.len());
        assert(body_bytes(a, n) == body_bytes(a, m) + da + za);
        assert(body_bytes(b, n) == body_bytes(b, m) + db + zb);
        let start = body_bytes(a, m).len() as int;
        assert(start == sum_padded(a, m));
        if 0 <= h < m {
            lemma_sum_padded_mono(a, (h + 1) as nat, m);
            lemma_round4(a[h].data.len() as int);
        }
        assert forall|k: int|
            0 <= k < body_bytes(a, n).len() && !(0 <= h < n && sum_padded(a, h as nat) + HEAD_ADJUSTMENT_OFFSET <= k
                < sum_padded(a, h as nat) + HEAD_ADJUSTMENT_OFFSET + 4) implies #[trigger] body_bytes(a, n)[k] == body_bytes(b, n)[k] by {
            if k < start {
                if 0 <= h < m {
                    assert(body_bytes(a, m)[k] == body_bytes(b, m)[k]);
                } else {
                    assert(body_bytes(a, m)[k] == body_bytes(b, m)[k]);
                }
            } else if k < start + da.len() {
                if h == m {
                    assert(da[k - start] == db[k - start]);
                } else {
                    assert(da == db);
                }
            }
        }
    }
}

/// Patching depends only on the bytes outside the field.
proof fn lemma_patch_outside(p1: Seq<u8>, p2: Seq<u8>, field: int)
    requires
        p1.len() == p2.len(),
        0 <= field,
        field + 4 <= p1.len(),
        forall|k: int| 0 <= k < p1.len() && !(field <= k < field + 4) ==> #[trigger] p1[k] == p2[k],
    ensures
        patch_adjustment(p1, field) == patch_adjustment(p2, field),
{
    assert(zero4(p1, field) =~= zero4(p2, field)) by {
        assert forall|k: int| 0 <= k < p1.len() implies zero4(p1, field)[k] == zero4(p2, field)[k] by {
            if !(field <= k < field + 4) {
                assert(p1[k] == p2[k]);
            }
        }
    }
}

proof fn lemma_dir_same(a: Seq<TableModel>, b: Seq<TableModel>, n: nat)
    requires
        a.len() == b.len(),
        n <= a.len(),
        forall|i: int| 0 <= i < a.len() ==> #[trigger] a[i].data.len() == b[i].data.len(),
        forall|i: int| 0 <= i < n ==> #[trigger] a[i].tag == b[i].tag,
        forall|i: int| 0 <= i < n ==> #[trigger] table_checksum_of(a[i].tag, a[i].data) == table_checksum_of(b[i].tag, b[i].data),
    ensures
        dir_bytes(a, n) == dir_bytes(b, n),
    decreases n,
{
    if n > 0 {
        lemma_dir_same(a, b, (n - 1) as nat);
        let i = n - 1;
        crate::woff2::lemma_sum_padded_same_lengths(a, b, i as nat);
        assert(a[i].tag == b[i].tag);
        assert(a[i].data.len() == b[i].data.len());
        assert(table_checksum_of(a[i].tag, a[i].data) == table_checksum_of(b[i].tag, b[i].data));
        assert(dir_entry(a, i) == dir_entry(b, i));
    }
}

/// In a `head` table holding all of `checkSumAdjustment`, the field is what
/// the checksum skips.
proof fn lemma_zero4_is_mask(data: Seq<u8>)
    requires
        data.len() >= HEAD_ADJUSTMENT_OFFSET + 4,
    ensures
        zero4(data, HEAD_ADJUSTMENT_OFFSET as int) == mask_adjustment(data),
{
    assert(zero4(data, HEAD_ADJUSTMENT_OFFSET as int) =~= mask_adjustment(data));
}

/// Every `head` table holds all of `checkSumAdjustment` or none of it.
pub open spec fn adjustment_whole(ts: Seq<TableModel>) -> bool {
    forall|i: int|
        0 <= i < ts.len() && #[trigger] tag_number(ts[i].tag) == HEAD_TAG_NUMBER ==> ts[i].data.len() >= HEAD_ADJUSTMENT_OFFSET + 4
            || ts[i].data.len() <= HEAD_ADJUSTMENT_OFFSET
}

/// Writing tables that differ from `ts` only in bytes 8 to 11 of the last
/// `head`, which holds all of them, gives the same file.
proof fn lemma_rewrite_same(flavor: u32, b: Seq<TableModel>, ts: Seq<TableModel>, h: int)
    requires
        four_byte_tags(ts),
        sfnt_size_of(ts) <= u32::MAX,
        b.len() == ts.len(),
        last_head(ts, ts.len()) == Some(h),
        ts[h].data.len() >= HEAD_ADJUSTMENT_OFFSET + 4,
        forall|i: int| 0 <= i < ts.len() ==> #[trigger] b[i].data.len() == ts[i].data.len() && b[i].tag == ts[i].tag,
        forall|i: int| 0 <= i < ts.len() && i != h ==> #[trigger] b[i].data == ts[i].data,
        forall|k: int|
            0 <= k < b[h].data.len() && !(HEAD_ADJUSTMENT_OFFSET <= k < HEAD_ADJUSTMENT_OFFSET + 4) ==> #[trigger] b[h].data[k]
                == ts[h].data[k],
    ensures
        sfnt_of_sorted(flavor, b) == sfnt_of_sorted(flavor, ts),
{
    let n = ts.len();
    assert forall|i: int| 0 <= i < n implies #[trigger] b[i].tag == ts[i].tag by {
        assert(b[i].data.len() == ts[i].data.len() && b[i].tag == ts[i].tag);
    }
    assert forall|i: int| 0 <= i < n implies #[trigger] b[i].data.len() == ts[i].data.len() by {
        assert(b[i].data.len() == ts[i].data.len() && b[i].tag == ts[i].tag);
    }
    lemma_last_head_same_tags(b, ts, n);
    lemma_last_head_range(ts, n);
    crate::woff2::lemma_sum_padded_same_lengths(b, ts, n);
    crate::woff2::lemma_sum_padded_same_lengths(b, ts, h as nat);
    lemma_zero4_is_mask(b[h].data);
    lemma_zero4_is_mask(ts[h].data);
    assert(mask_adjustment(b[h].data) =~= mask_adjustment(ts[h].data));
    assert forall|i: int| 0 <= i < n implies #[trigger] table_checksum_of(b[i].tag, b[i].data) == table_checksum_of(
        ts[i].tag,
        ts[i].data,
    ) by {
        if i != h {
            assert(b[i].data == ts[i].data);
        }
    }
    lemma_dir_same(b, ts, n);
    lemma_body_agree(b, ts, n, h);
    let pb = sfnt_unpatched(flavor, b);
    let pt = sfnt_unpatched(flavor, ts);
    let field = adjustment_field(ts);
    lemma_sfnt_header_len(flavor, n);
    lemma_dir_bytes_len(ts, n);
    lemma_body_len(ts, n);
    lemma_body_len(b, n);
    lemma_table_end(ts, h);
    lemma_round4(ts[h].data.len() as int);
    let base: int = 12 + 16 * n as int;
    assert(field == base + sum_padded(b, h as nat) + HEAD_ADJUSTMENT_OFFSET);
    assert(pb.len() == pt.len());
    assert forall|k: int| 0 <= k < pb.len() && !(field <= k < field + 4) implies #[trigger] pb[k] == pt[k] by {
        if k >= base {
            assert(pb[k] == body_bytes(b, n)[k - base]);
            assert(pt[k] == body_bytes(ts, n)[k - base]);
        }
    }
    lemma_patch_outside(pb, pt, field);
}

/// What is read back from the sfnt form: same tags and lengths, in tag
/// order, and only the last `head` may differ, in bytes 8 to 11.
proof fn lemma_back_tables(font: FontModel)
    requires
        sfnt_round_trips(font),
    ensures
        ({
            let ts = sort_by_tag(font.tables);
            let b = read_back(sfnt_of_sorted(font.flavor, ts), ts);
            &&& parse_sfnt_spec(sfnt_bytes(font)) == Ok::<FontModel, ErrorModel>(FontModel { flavor: font.flavor, tables: b })
            &&& b.len() == ts.len()
            &&& is_sorted_by_tag(b)
            &&& forall|i: int| 0 <= i < ts.len() ==> #[trigger] b[i].data.len() == ts[i].data.len() && b[i].tag == ts[i].tag
            &&& forall|i: int| 0 <= i < ts.len() ==> #[trigger] same_but_adjustment(b[i], ts[i])
            &&& forall|i: int| 0 <= i < ts.len() && (last_head(ts, ts.len()) != Some(i)) ==> #[trigger] b[i].data == ts[i].data
        }),
{
    let ts = sort_by_tag(font.tables);
    let n = ts.len();
    let flavor = font.flavor;
    let out = sfnt_of_sorted(flavor, ts);
    lemma_sorted_tables(font);
    lemma_sort_by_tag(font.tables);
    lemma_written_layout(flavor, ts);
    lemma_parse_laid_out(out, flavor, ts);
    let b = read_back(out, ts);
    assert forall|i: int| 0 <= i < n implies #[trigger] same_but_adjustment(b[i], ts[i]) by {
        lemma_table_read_back(flavor, ts, i);
    }
    assert forall|i: int| 0 <= i < n implies #[trigger] b[i].data.len() == ts[i].data.len() && b[i].tag == ts[i].tag by {
        assert(same_but_adjustment(b[i], ts[i]));
        if tag_number(ts[i].tag) == HEAD_TAG_NUMBER {
            assert(mask_adjustment(b[i].data).len() == b[i].data.len());
        }
    }
    assert forall|i: int, j: int| 0 <= i < j < b.len() implies tag_number(b[i].tag) <= tag_number(b[j].tag) by {
        assert(b[i].tag == ts[i].tag && b[j].tag == ts[j].tag);
    }
    lemma_last_head_range(ts, n);
    assert forall|i: int| 0 <= i < n && (last_head(ts, n) != Some(i)) implies #[trigger] b[i].data == ts[i].data by {
        assert(same_but_adjustment(b[i], ts[i]));
        if tag_number(ts[i].tag) == HEAD_TAG_NUMBER {
            lemma_last_head_is_the_head(ts, n, i);
        }
    }
}

/// With distinct four-byte tags, any `head` is the last one.
proof fn lemma_last_head_is_the_head(ts: Seq<TableModel>, n: nat, i: int)
    requires
        n <= ts.len(),
        four_byte_tags(ts),
        distinct_tags(ts),
        0 <= i < n,
        tag_number(ts[i].tag) == HEAD_TAG_NUMBER,
    ensures
        last_head(ts, n) == Some(i),
    decreases n,
{
    if n - 1 != i {
        if tag_number(ts[n - 1].tag) == HEAD_TAG_NUMBER {
            crate::bytes::lemma_be32_bytes(ts[i].tag);
            crate::bytes::lemma_be32_bytes(ts[n - 1].tag);
            assert(ts[i].tag == ts[n - 1].tag);
        } else {
            lemma_last_head_is_the_head(ts, (n - 1) as nat, i);
        }
    }
}

/// Writing again what was read back from the sfnt form of a font gives the
/// same bytes: the sfnt form is a fixed point.
pub proof fn lemma_sfnt_idempotent(font: FontModel)
    requires
        sfnt_round_trips(font),
        adjustment_whole(font.tables),
    ensures
        parse_sfnt_spec(sfnt_bytes(font)) matches Ok(back) && sfnt_bytes(back) == sfnt_bytes(font),
{
    let ts = sort_by_tag(font.tables);
    let n = ts.len();
    let flavor = font.flavor;
    lemma_sorted_tables(font);
    lemma_back_tables(font);
    let b = read_back(sfnt_of_sorted(flavor, ts), ts);
    lemma_sort_sorted(b);
    lemma_last_head_range(ts, n);
    match last_head(ts, n) {
        Some(h) => {
            lemma_sort_members(font.tables);
            assert(font.tables.contains(ts[h]));
            let k0 = choose|k: int| 0 <= k < font.tables.len() && font.tables[k] == ts[h];
            assert(tag_number(font.tables[k0].tag) == HEAD_TAG_NUMBER);
            assert(same_but_adjustment(b[h], ts[h]));
            if ts[h].data.len() <= HEAD_ADJUSTMENT_OFFSET {
                assert forall|k: int| 0 <= k < b[h].data.len() implies b[h].data[k] == ts[h].data[k] by {
                    assert(mask_adjustment(b[h].data)[k] == mask_adjustment(ts[h].data)[k]);
                }
                assert(b[h].data =~= ts[h].data);
                assert forall|i: int| 0 <= i < n implies b[i] == ts[i] by {
                    if i != h {
                        assert(b[i].data == ts[i].data);
                    }
                }
                assert(b =~= ts);
            } else {
                assert forall|k: int|
                    0 <= k < b[h].data.len() && !(HEAD_ADJUSTMENT_OFFSET <= k < HEAD_ADJUSTMENT_OFFSET + 4) implies #[trigger] b[h].data[k]
                    == ts[h].data[k] by {
                    assert(mask_adjustment(b[h].data)[k] == mask_adjustment(ts[h].data)[k]);
                }
                lemma_rewrite_same(flavor, b, ts, h);
            }
        },
        None => {
            assert forall|i: int| 0 <= i < n implies b[i] == ts[i] by {
                assert(b[i].data == ts[i].data);
            }
            assert(b =~= ts);
        },
    }
}

// ---------------------------------------------------------------------------
// The whole-file checksum

/// Sums of words over files that differ only in word `k`, which is zero in
/// `a`, differ by that word.
proof fn lemma_sum_one_word(a: Seq<u8>, b: Seq<u8>, k: int, m: nat)
    requires
        a.len() == b.len(),
        0 <= k,
        word_at(a, k) == 0,
        forall|j: int| 0 <= j < m && j != k ==> #[trigger] word_at(a, j) == word_at(b, j),
    ensures
        sum_words(b, m) == if m > k { (sum_words(a, m) + word_at(b, k)) % 0x1_0000_0000 } else { sum_words(a, m) as int },
    decreases m,
{
    if m > 0 {
        let p = (m - 1) as nat;
        assert forall|j: int| 0 <= j < p && j != k implies #[trigger] word_at(a, j) == word_at(b, j) by {
            assert(word_at(a, j) == word_at(b, j));
        }
        lemma_sum_one_word(a, b, k, p);
        let sa = sum_words(a, p) as int;
        let w = word_at(b, k) as int;
        let last = word_at(a, p as int) as int;
        let big: int = 0x1_0000_0000;
        if p < k {
            assert(word_at(a, p as int) == word_at(b, p as int));
        } else if p == k {
            assert(sum_words(a, m) == (sa + 0) % big);
            vstd::arithmetic::div_mod::lemma_small_mod(sa as nat, big as nat);
        } else {
            assert(word_at(a, p as int) == word_at(b, p as int));
            // ((sa + w) % big + last) % big == ((sa + last) % big + w) % big
            vstd::arithmetic::div_mod::lemma_add_mod_noop(sa + w, last, big);
            vstd::arithmetic::div_mod::lemma_add_mod_noop(sa + last, w, big);
            vstd::arithmetic::div_mod::lemma_small_mod(last as nat, big as nat);
            vstd::arithmetic::div_mod::lemma_small_mod(w as nat, big as nat);
            assert((sa + w) + last == (sa + last) + w);
        }
    }
}

/// The sfnt form is a whole number of words.
proof fn lemma_sfnt_size_aligned(ts: Seq<TableModel>, n: nat)
    requires
        n <= ts.len(),
    ensures
        sum_padded(ts, n) % 4 == 0,
    decreases n,
{
    if n > 0 {
        lemma_sfnt_size_aligned(ts, (n - 1) as nat);
        lemma_round4(ts[n - 1].data.len() as int);
    }
}

/// Patching an aligned field of a whole number of words brings the checksum
/// of the result to the constant.
proof fn lemma_patched_checksum(pre: Seq<u8>, field: int)
    requires
        pre.len() % 4 == 0,
        field % 4 == 0,
        0 <= field,
        field + 4 <= pre.len(),
    ensures
        checksum_of(patch_adjustment(pre, field)) == CHECKSUM_MAGIC,
{
    let len = pre.len() as int;
    let k = field / 4;
    let z = zero4(pre, field);
    let adj = ((CHECKSUM_MAGIC - checksum_of(z) + 0x1_0000_0000) % 0x1_0000_0000) as u32;
    let out = z.subrange(0, field) + u32_be(adj) + z.subrange(field + 4, z.len() as int);
    assert(patch_adjustment(pre, field) == out);
    lemma_be32_roundtrip(adj);
    assert(out.len() == len);
    assert forall|j: int| 0 <= j < len / 4 && j != k implies #[trigger] word_at(z, j) == word_at(out, j) by {
        assert(4 * j + 3 < field || 4 * j >= field + 4);
        assert(out[4 * j] == z[4 * j] && out[4 * j + 1] == z[4 * j + 1] && out[4 * j + 2] == z[4 * j + 2] && out[4 * j + 3]
            == z[4 * j + 3]);
    }
    assert(word_at(z, k) == 0) by {
        assert(z[4 * k] == 0 && z[4 * k + 1] == 0 && z[4 * k + 2] == 0 && z[4 * k + 3] == 0);
    }
    assert(word_at(out, k) == adj) by {
        assert(out[4 * k] == u32_be(adj)[0] && out[4 * k + 1] == u32_be(adj)[1] && out[4 * k + 2] == u32_be(adj)[2]
            && out[4 * k + 3] == u32_be(adj)[3]);
    }
    let words = ((len + 3) / 4) as nat;
    assert(words == len / 4);
    lemma_sum_one_word(z, out, k, words);
    let c = checksum_of(z) as int;
    let big: int = 0x1_0000_0000;
    assert((c + adj as int) % big == CHECKSUM_MAGIC) by {
        assert(adj as int == (CHECKSUM_MAGIC - c + big) % big);
        vstd::arithmetic::div_mod::lemma_add_mod_noop(c, CHECKSUM_MAGIC - c + big, big);
        vstd::arithmetic::div_mod::lemma_small_mod(c as nat, big as nat);
        vstd::arithmetic::div_mod::lemma_mod_add_multiples_vanish(CHECKSUM_MAGIC as int, big);
        vstd::arithmetic::div_mod::lemma_small_mod(CHECKSUM_MAGIC as nat, big as nat);
    }
}

proof fn lemma_word_offset(n: nat, a: int)
    requires
        a % 4 == 0,
    ensures
        (12 + 16 * n + a) % 4 == 0,
        (12 + 16 * n + a + 8) % 4 == 0,
{
    assert((12 + 16 * n + a) % 4 == 0) by (nonlinear_arith)
        requires
            a % 4 == 0,
    ;
    assert((12 + 16 * n + a + 8) % 4 == 0) by (nonlinear_arith)
        requires
            a % 4 == 0,
    ;
}

proof fn lemma_unpatched_words(flavor: u32, ts: Seq<TableModel>)
    requires
        four_byte_tags(ts),
        last_head(ts, ts.len()) is Some,
    ensures
        sfnt_unpatched(flavor, ts).len() == sfnt_size_of(ts),
        sfnt_size_of(ts) % 4 == 0,
        adjustment_field(ts) % 4 == 0,
        adjustment_field(ts) >= 0,
{
    let n = ts.len();
    lemma_sfnt_header_len(flavor, n);
    lemma_dir_bytes_len(ts, n);
    lemma_body_len(ts, n);
    lemma_last_head_range(ts, n);
    let h = last_head(ts, n)->Some_0;
    lemma_sfnt_size_aligned(ts, n);
    lemma_sfnt_size_aligned(ts, h as nat);
    lemma_sum_padded_mono(ts, 0, h as nat);
    lemma_word_offset(n, sum_padded(ts, n));
    lemma_word_offset(n, sum_padded(ts, h as nat));
}

proof fn lemma_sorted_checksum(flavor: u32, ts: Seq<TableModel>)
    requires
        four_byte_tags(ts),
        last_head(ts, ts.len()) is Some,
        adjustment_field(ts) + 4 <= sfnt_size_of(ts),
    ensures
        checksum_of(sfnt_of_sorted(flavor, ts)) == CHECKSUM_MAGIC,
{
    lemma_unpatched_words(flavor, ts);
    lemma_patched_checksum(sfnt_unpatched(flavor, ts), adjustment_field(ts));
}

/// Where the written file holds a whole `checkSumAdjustment`, the file's
/// checksum comes to the constant the field is there to reach.
pub proof fn lemma_sfnt_checksum_balances(font: FontModel)
    requires
        four_byte_tags(font.tables),
        last_head(sort_by_tag(font.tables), font.tables.len()) is Some,
        adjustment_field(sort_by_tag(font.tables)) + 4 <= sfnt_size_of(sort_by_tag(font.tables)),
    ensures
        checksum_of(sfnt_bytes(font)) == CHECKSUM_MAGIC,
{
    let ts = sort_by_tag(font.tables);
    lemma_sort_by_tag(font.tables);
    lemma_sort_members(font.tables);
    assert forall|i: int| 0 <= i < ts.len() implies #[trigger] ts[i].tag.len() == 4 by {
        assert(font.tables.contains(ts[i]));
        let k = choose|k: int| 0 <= k < font.tables.len() && font.tables[k] == ts[i];
        assert(font.tables[k].tag.len() == 4);
    }
    lemma_sorted_checksum(font.flavor, ts);
}

/// The sfnt form of a font is exactly as long as its sfnt size, the size the
/// WOFF headers declare.
pub proof fn lemma_sfnt_length(font: FontModel)
    requires
        four_byte_tags(font.tables),
    ensures
        sfnt_bytes(font).len() == sfnt_size_of(font.tables),
{
    let ts = sort_by_tag(font.tables);
    let n = ts.len();
    lemma_sort_by_tag(font.tables);
    lemma_sort_keeps_size(font.tables);
    lemma_sort_members(font.tables);
    assert forall|i: int| 0 <= i < n implies #[trigger] ts[i].tag.len() == 4 by {
        assert(font.tables.contains(ts[i]));
        let k = choose|k: int| 0 <= k < font.tables.len() && font.tables[k] == ts[i];
        assert(font.tables[k].tag.len() == 4);
    }
    lemma_sfnt_header_len(font.flavor, n);
    lemma_dir_bytes_len(ts, n);
    lemma_body_len(ts, n);
    let pre = sfnt_unpatched(font.flavor, ts);
    assert(pre.len() == sfnt_size_of(ts));
    if let Some(h) = last_head(ts, n) {
        lemma_patch_agrees(pre, table_offset(ts, h) + HEAD_ADJUSTMENT_OFFSET);
    }
}

// ---------------------------------------------------------------------------
// Checksums of concatenations

/// Sums that agree word for word over their first `n` words are equal.
proof fn lemma_sum_words_agree(s: Seq<u8>, t: Seq<u8>, n: nat)
    requires
        forall|j: int| 0 <= j < n ==> #[trigger] word_at(s, j) == word_at(t, j),
    ensures
        sum_words(s, n) == sum_words(t, n),
    decreases n,
{
    if n > 0 {
        let p = (n - 1) as nat;
        assert(word_at(s, p as int) == word_at(t, p as int));
        lemma_sum_words_agree(s, t, p);
    }
}

/// Words of `a + b` past a word-aligned `a` are the words of `b`.
proof fn lemma_word_of_concat(a: Seq<u8>, b: Seq<u8>, na: int, j: int)
    requires
        a.len() == 4 * na,
        0 <= na,
    ensures
        0 <= j < na ==> word_at(a + b, j) == word_at(a, j),
        0 <= j ==> word_at(a + b, na + j) == word_at(b, j),
{
    let c = a + b;
    if 0 <= j < na {
        assert(c[4 * j] == a[4 * j]);
        assert(c[4 * j + 1] == a[4 * j + 1]);
        assert(c[4 * j + 2] == a[4 * j + 2]);
        assert(c[4 * j + 3] == a[4 * j + 3]);
    }
    if 0 <= j {
        let k = na + j;
        assert(4 * k == a.len() + 4 * j);
        if 4 * j < b.len() { assert(c[4 * k] == b[4 * j]); }
        if 4 * j + 1 < b.len() { assert(c[4 * k + 1] == b[4 * j + 1]); }
        if 4 * j + 2 < b.len() { assert(c[4 * k + 2] == b[4 * j + 2]); }
        if 4 * j + 3 < b.len() { assert(c[4 * k + 3] == b[4 * j + 3]); }
    }
}

proof fn lemma_sum_words_concat(a: Seq<u8>, b: Seq<u8>, na: nat, m: nat)
    requires
        a.len() == 4 * na,
    ensures
        sum_words(a + b, na + m) == (sum_words(a, na) + sum_words(b, m)) % 0x1_0000_0000,
    decreases m,
{
    let big: int = 0x1_0000_0000;
    if m == 0 {
        assert forall|j: int| 0 <= j < na implies #[trigger] word_at(a + b, j) == word_at(a, j) by {
            lemma_word_of_concat(a, b, na as int, j);
        }
        lemma_sum_words_agree(a + b, a, na);
        vstd::arithmetic::div_mod::lemma_small_mod(sum_words(a, na) as nat, big as nat);
    } else {
        let p = (m - 1) as nat;
        lemma_sum_words_concat(a, b, na, p);
        lemma_word_of_concat(a, b, na as int, p as int);
        let sa = sum_words(a, na) as int;
        let sb = sum_words(b, p) as int;
        let w = word_at(b, p as int) as int;
        assert((na + m) as nat == (na + p) + 1);
        assert(sum_words(a + b, na + m) == ((sum_words(a + b, na + p) + w) % big) as u32);
        vstd::arithmetic::div_mod::lemma_add_mod_noop(sa + sb, w, big);
        vstd::arithmetic::div_mod::lemma_add_mod_noop(sa, sb + w, big);
        vstd::arithmetic::div_mod::lemma_small_mod(sa as nat, big as nat);
        vstd::arithmetic::div_mod::lemma_small_mod(w as nat, big as nat);
        vstd::arithmetic::div_mod::lemma_mod_bound(sa + sb, big);
        vstd::arithmetic::div_mod::lemma_mod_bound(sb + w, big);
        assert((sa + sb) + w == sa + (sb + w));
    }
}

/// The checksum of a word-aligned `a` followed by `b` is the sum of the two
/// checksums modulo 2^32: the checksum adds word by word.
pub proof fn lemma_checksum_concat(a: Seq<u8>, b: Seq<u8>)
    requires
        a.len() % 4 == 0,
    ensures
        checksum_of(a + b) == (checksum_of(a) + checksum_of(b)) % 0x1_0000_0000,
{
    let na = (a.len() / 4) as nat;
    let nb = ((b.len() + 3) / 4) as nat;
    assert(a.len() == 4 * na);
    assert((a.len() + 3) / 4 == na);
    assert(((a + b).len() + 3) / 4 == na + nb) by {
        assert((a + b).len() + 3 == 4 * na + (b.len() + 3));
        let l: int = b.len() + 3int;
        vstd::arithmetic::div_mod::lemma_fundamental_div_mod(l, 4);
        vstd::arithmetic::div_mod::lemma_mod_bound(l, 4);
        assert(4 * na + l == 4 * (na + l / 4) + l % 4);
        vstd::arithmetic::div_mod::lemma_div_multiples_vanish_fancy(na + l / 4, l % 4, 4);
    }
    lemma_sum_words_concat(a, b, na, nb);
}

/// Zero bytes appended to `b` leave its checksum unchanged.
pub proof fn lemma_checksum_zero_padding(b: Seq<u8>, k: nat)
    ensures
        checksum_of(b + zeros(k as int)) == checksum_of(b),
{
    let c = b + zeros(k as int);
    let nb = ((b.len() + 3) / 4) as nat;
    let nc = ((c.len() + 3) / 4) as nat;
    assert(nb <= nc);
    assert(4 * nb >= b.len());
    assert forall|i: int| b.len() <= i < c.len() implies #[trigger] c[i] == 0u8 by {
        assert(c[i] == zeros(k as int)[i - b.len()]);
    }
    assert forall|j: int| 0 <= j < nc implies #[trigger] word_at(c, j) == (if j < nb { word_at(b, j) } else { 0u32 }) by {
        if 4 * j < c.len() { assert(c[4 * j] == (if 4 * j < b.len() { b[4 * j] } else { 0u8 })); }
        if 4 * j + 1 < c.len() { assert(c[4 * j + 1] == (if 4 * j + 1 < b.len() { b[4 * j + 1] } else { 0u8 })); }
        if 4 * j + 2 < c.len() { assert(c[4 * j + 2] == (if 4 * j + 2 < b.len() { b[4 * j + 2] } else { 0u8 })); }
        if 4 * j + 3 < c.len() { assert(c[4 * j + 3] == (if 4 * j + 3 < b.len() { b[4 * j + 3] } else { 0u8 })); }
    }
    assert forall|j: int| 0 <= j < nb implies #[trigger] word_at(c, j) == word_at(b, j) by {
        assert(word_at(c, j) == (if j < nb { word_at(b, j) } else { 0u32 }));
    }
    lemma_sum_words_agree(c, b, nb);
    lemma_sum_words_zero_tail(c, nb, (nc - nb) as nat);
}

/// Zero words past the first `n` add nothing to the sum.
proof fn lemma_sum_words_zero_tail(s: Seq<u8>, n: nat, m: nat)
    requires
        forall|j: int| n <= j < n + m ==> #[trigger] word_at(s, j) == 0,
    ensures
        sum_words(s, n + m) == sum_words(s, n),
    decreases m,
{
    if m > 0 {
        let p = (m - 1) as nat;
        lemma_sum_words_zero_tail(s, n, p);
        assert(word_at(s, (n + p) as int) == 0);
        assert((n + m) as nat == (n + p) + 1);
        vstd::arithmetic::div_mod::lemma_small_mod(sum_words(s, n) as nat, 0x1_0000_0000nat);
    }
}

// ---------------------------------------------------------------------------
// The binary-search fields of the sfnt header

/// The sfnt form of a font lists its table count and, for a reader's binary
/// search over the directory, `searchRange` (sixteen times the largest power
/// of two not above the count, `2^entrySelector`) and `rangeShift` (sixteen
/// times the count, less `searchRange`). These are 16-bit fields, so the
/// count is taken small enough that sixteen times it fits.
pub proof fn lemma_sfnt_search_fields(font: FontModel)
    requires
        font.tables.len() < 4096,
    ensures
        ({
            let s = sfnt_bytes(font);
            let n = font.tables.len() as int;
            let p = crate::sfnt::pow2(be16(s, 8) as nat) as int;
            &&& s.len() >= 12
            &&& be16(s, 4) == n
            &&& n == 0 ==> be16(s, 6) == 16 && be16(s, 8) == 0 && be16(s, 10) == 0
            &&& n > 0 ==> p <= n < 2 * p && be16(s, 6) == 16 * p && be16(s, 10) == 16 * n - 16 * p
        }),
{
    let ts = sort_by_tag(font.tables);
    let n = ts.len();
    lemma_sort_keeps_size(font.tables);
    lemma_sort_by_tag(font.tables);
    assert(n == font.tables.len());
    let pre = sfnt_unpatched(font.flavor, ts);
    let header = sfnt_header(font.flavor, n);
    lemma_sfnt_header_len(font.flavor, n);
    let field = adjustment_field(ts);
    lemma_last_head_range(ts, n);
    lemma_sum_padded_mono(ts, 0, n);
    if let Some(h) = last_head(ts, n) {
        lemma_sum_padded_mono(ts, 0, h as nat);
    }
    lemma_patch_agrees(pre, field);
    let s = sfnt_bytes(font);
    assert forall|k: int| 0 <= k < 12 implies #[trigger] s[k] == header[k] by {
        assert(pre[k] == header[k]);
    }
    let sel = crate::sfnt::floor_log2(n);
    let range = crate::sfnt::pow2(sel) * 16;
    if n >= 1 {
        crate::sfnt::lemma_floor_log2_bounds(n);
    }
    let shift: int = if n * 16 >= range { n * 16 - range } else { 0 };
    reveal(sfnt_header);
    let r16 = range as u16;
    let s16 = sel as u16;
    let h16 = shift as u16;
    let n16 = n as u16;
    lemma_be16_roundtrip(n16);
    lemma_be16_roundtrip(r16);
    lemma_be16_roundtrip(s16);
    lemma_be16_roundtrip(h16);
    assert(header == u32_be(font.flavor) + u16_be(n16) + u16_be(r16) + u16_be(s16) + u16_be(h16));
    assert(s[4] == u16_be(n16)[0] && s[5] == u16_be(n16)[1]);
    assert(s[6] == u16_be(r16)[0] && s[7] == u16_be(r16)[1]);
    assert(s[8] == u16_be(s16)[0] && s[9] == u16_be(s16)[1]);
    assert(s[10] == u16_be(h16)[0] && s[11] == u16_be(h16)[1]);
}

// ---------------------------------------------------------------------------
// The sfnt directory

/// The checksum of nothing is zero and the checksum of one four-byte word is
/// the word read big-endian; with the concatenation law this fixes the
/// checksum of every byte string.
pub proof fn lemma_checksum_word(w: Seq<u8>)
    requires
        w.len() == 4,
    ensures
        checksum_of(Seq::<u8>::empty()) == 0,
        checksum_of(w) == be32(w, 0),
{
    assert((w.len() + 3) / 4 == 1);
    assert(sum_words(w, 1) == ((sum_words(w, 0) + word_at(w, 0)) % 0x1_0000_0000) as u32);
    vstd::arithmetic::div_mod::lemma_small_mod(word_at(w, 0) as nat, 0x1_0000_0000nat);
}

/// The bytes of directory entry `i` in a file laid out for `ts`.
proof fn lemma_entry_bytes(s: Seq<u8>, ts: Seq<TableModel>, i: int)
    requires
        lays_out(s, ts),
        0 <= i < ts.len(),
    ensures
        s.len() >= 12 + 16 * i + 16,
        forall|k: int| 0 <= k < 16 ==> #[trigger] s[12 + 16 * i + k] == dir_entry(ts, i)[k],
{
    reveal(lays_out);
    let n = ts.len();
    lemma_dir_entry_at(ts, n, i);
    lemma_sum_padded_mono(ts, 0, n);
    let sub = s.subrange(12, 12 + 16 * n as int);
    assert forall|k: int| 0 <= k < 16 implies #[trigger] s[12 + 16 * i + k] == dir_entry(ts, i)[k] by {
        assert(sub[16 * i + k] == s[12 + 16 * i + k]);
        assert(dir_bytes(ts, n).subrange(16 * i, 16 * i + 16)[k] == dir_bytes(ts, n)[16 * i + k]);
    }
}

/// The fields of directory entry `i` in a file laid out for `ts`.
proof fn lemma_entry_fields(s: Seq<u8>, ts: Seq<TableModel>, i: int)
    requires
        lays_out(s, ts),
        0 <= i < ts.len(),
    ensures
        ({
            let t = ts[i];
            let base = 12 + 16 * i;
            &&& s.len() >= base + 16
            &&& s.subrange(base, base + 4) == t.tag
            &&& be32(s, base + 4) == table_checksum_of(t.tag, t.data)
            &&& be32(s, base + 8) == table_offset(ts, i)
            &&& be32(s, base + 12) == t.data.len()
        }),
{
    lemma_entry_bytes(s, ts, i);
    lemma_lays_out_facts(s, ts);
    let t = ts[i];
    let base = 12 + 16 * i;
    let e = dir_entry(ts, i);
    lemma_table_end(ts, i);
    let c = u32_be(table_checksum_of(t.tag, t.data));
    let o = u32_be(table_offset(ts, i) as u32);
    let l = u32_be(t.data.len() as u32);
    lemma_be32_roundtrip(table_checksum_of(t.tag, t.data));
    lemma_be32_roundtrip(table_offset(ts, i) as u32);
    lemma_be32_roundtrip(t.data.len() as u32);
    assert(t.tag.len() == 4);
    assert(e == t.tag + c + o + l);
    assert(s.subrange(base, base + 4) =~= t.tag) by {
        assert forall|k: int| 0 <= k < 4 implies s.subrange(base, base + 4)[k] == t.tag[k] by {
            assert(s[base + k] == e[k]);
        }
    }
    assert(s[base + 4] == e[4] && s[base + 5] == e[5] && s[base + 6] == e[6] && s[base + 7] == e[7]);
    assert(s[base + 8] == e[8] && s[base + 9] == e[9] && s[base + 10] == e[10] && s[base + 11] == e[11]);
    assert(s[base + 12] == e[12] && s[base + 13] == e[13] && s[base + 14] == e[14] && s[base + 15] == e[15]);
}

proof fn lemma_offset_aligned(n: int, p: int)
    requires
        p % 4 == 0,
    ensures
        (12 + 16 * n + p) % 4 == 0,
{
    vstd::arithmetic::div_mod::lemma_fundamental_div_mod(p, 4);
    assert(12 + 16 * n + p == 4 * (3 + 4 * n + p / 4));
    vstd::arithmetic::div_mod::lemma_mod_multiples_basic(3 + 4 * n + p / 4, 4);
}

/// Sorting keeps four-byte tags, the count and the sfnt size.
proof fn lemma_sorted_keeps_tags(tables: Seq<TableModel>)
    requires
        four_byte_tags(tables),
    ensures
        four_byte_tags(sort_by_tag(tables)),
        sort_by_tag(tables).len() == tables.len(),
        sfnt_size_of(sort_by_tag(tables)) == sfnt_size_of(tables),
{
    let ts = sort_by_tag(tables);
    lemma_sort_by_tag(tables);
    lemma_sort_keeps_size(tables);
    lemma_sort_members(tables);
    assert forall|k: int| 0 <= k < ts.len() implies #[trigger] ts[k].tag.len() == 4 by {
        assert(tables.contains(ts[k]));
        let j = choose|j: int| 0 <= j < tables.len() && tables[j] == ts[k];
        assert(tables[j].tag.len() == 4);
    }
}

/// Directory entry `i` of the sfnt form names the `i`-th table in tag order,
/// holds the checksum of its data (with `checkSumAdjustment` read as zero
/// for `head`), its length, and an offset on a four-byte boundary past the
/// directory at which the data lies inside the file.
pub proof fn lemma_sfnt_directory_entry(font: FontModel, i: int)
    requires
        four_byte_tags(font.tables),
        sfnt_size_of(font.tables) <= u32::MAX,
        0 <= i < font.tables.len(),
    ensures
        ({
            let s = sfnt_bytes(font);
            let t = sort_by_tag(font.tables)[i];
            let base = 12 + 16 * i;
            let offset = be32(s, base + 8) as int;
            &&& s.len() >= base + 16
            &&& s.subrange(base, base + 4) == t.tag
            &&& be32(s, base + 4) == if tag_number(t.tag) == HEAD_TAG_NUMBER {
                checksum_of(zero4(t.data, HEAD_ADJUSTMENT_OFFSET as int))
            } else {
                checksum_of(t.data)
            }
            &&& be32(s, base + 12) == t.data.len()
            &&& offset % 4 == 0
            &&& 12 + 16 * font.tables.len() <= offset
            &&& offset + t.data.len() <= s.len()
        }),
{
    let ts = sort_by_tag(font.tables);
    let n = ts.len();
    lemma_sorted_keeps_tags(font.tables);
    let s = sfnt_of_sorted(font.flavor, ts);
    lemma_written_layout(font.flavor, ts);
    lemma_lays_out_facts(s, ts);
    lemma_entry_fields(s, ts, i);
    lemma_table_end(ts, i);
    lemma_sfnt_size_aligned(ts, i as nat);
    let base = 12 + 16 * i;
    let off = table_offset(ts, i);
    assert(be32(s, base + 8) as int == off);
    assert(off == 12 + 16 * n + sum_padded(ts, i as nat));
    lemma_offset_aligned(n as int, sum_padded(ts, i as nat));
    assert(off % 4 == 0);
    assert(s == sfnt_bytes(font));
    assert(be32(s, base + 4) == table_checksum_of(ts[i].tag, ts[i].data));
}

} // verus!
