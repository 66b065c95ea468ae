//! The plain `sfnt` container shared by TTF and OTF, the font model every
//! container decodes into, and the checksum rules every container reproduces.

use crate::bytes::{be16, be32, copy_bytes, push_bytes, push_u16, push_u32, push_zeros, u16_be, u32_be};
use crate::error::{truncated, ErrorModel, FontError, Result};
use crate::read::Reader;
use crate::tags::{tag_number, tag_value};
use vstd::prelude::*;

verus! {

/// TrueType outlines.
pub const FLAVOR_TRUETYPE: u32 = 0x0001_0000;
/// 'OTTO'
pub const FLAVOR_CFF: u32 = 0x4F54_544F;
/// 'true'
pub const FLAVOR_TRUE: u32 = 0x7472_7565;
/// 'ttcf'
pub const MAGIC_TTCF: u32 = 0x7474_6366;
/// `head.checkSumAdjustment` is this constant minus the whole-font checksum.
pub const CHECKSUM_MAGIC: u32 = 0xB1B0_AFBA;
/// The tag 'head' as a number.
pub const HEAD_TAG_NUMBER: u32 = 0x6865_6164;
/// Offset of `checkSumAdjustment` inside `head`.
pub const HEAD_ADJUSTMENT_OFFSET: usize = 8;

/// One table, held decompressed. `data` is the logical table content with no
/// trailing container padding.
#[derive(Debug, Clone, PartialEq, Eq)]
pub struct Table {
    pub tag: [u8; 4],
    pub data: Vec<u8>,
}

/// A single font: an outline flavor plus its tables. Every container decodes
/// into, and encodes from, this one type.
#[derive(Debug, Clone, PartialEq, Eq)]
pub struct Font {
    pub flavor: u32,
    pub tables: Vec<Table>,
}

/// A table as values: its tag bytes and its content bytes.
pub struct TableModel {
    pub tag: Seq<u8>,
    pub data: Seq<u8>,
}

/// A font as values.
pub struct FontModel {
    pub flavor: u32,
    pub tables: Seq<TableModel>,
}

impl View for Table {
    type V = TableModel;

    open spec fn view(&self) -> TableModel {
        TableModel { tag: self.tag@, data: self.data@ }
    }
}

/// The models of a sequence of tables.
pub open spec fn tables_view(ts: Seq<Table>) -> Seq<TableModel> {
    Seq::new(ts.len(), |i: int| ts[i]@)
}

impl View for Font {
    type V = FontModel;

    open spec fn view(&self) -> FontModel {
        FontModel { flavor: self.flavor, tables: tables_view(self.tables@) }
    }
}

// ---------------------------------------------------------------------------
// Padding

/// `n` rounded up to a multiple of four; zero where `n + 3` does not fit in a
/// `usize` (the rounding wraps there).
pub open spec fn padded(n: int) -> int {
    if n > usize::MAX - 3 { 0 } else { (n + 3) / 4 * 4 }
}

/// `n` rounded up to a multiple of four.
pub open spec fn round4(n: int) -> int {
    (n + 3) / 4 * 4
}

/// Facts about rounding up to four.
pub proof fn lemma_round4(n: int)
    requires
        n >= 0,
    ensures
        n <= round4(n) < n + 4,
        round4(n) % 4 == 0,
        n <= usize::MAX - 3 ==> padded(n) == round4(n),
{
}

/// Round `n` up to the next multiple of four.
pub fn align4(n: usize) -> (r: usize)
    ensures
        r == padded(n as int),
{
    if n > usize::MAX - 3 {
        0
    } else {
        (n + 3) / 4 * 4
    }
}

// ---------------------------------------------------------------------------
// Checksums

/// The `k`-th big-endian 32-bit word of `s`, zero-padded past its end.
pub open spec fn word_at(s: Seq<u8>, k: int) -> u32 {
    let b0: int = if 4 * k < s.len() { s[4 * k] as int } else { 0 };
    let b1: int = if 4 * k + 1 < s.len() { s[4 * k + 1] as int } else { 0 };
    let b2: int = if 4 * k + 2 < s.len() { s[4 * k + 2] as int } else { 0 };
    let b3: int = if 4 * k + 3 < s.len() { s[4 * k + 3] as int } else { 0 };
    (b0 * 16777216 + b1 * 65536 + b2 * 256 + b3) as u32
}

/// The first `n` words of `s` summed modulo 2^32.
pub open spec fn sum_words(s: Seq<u8>, n: nat) -> u32
    decreases n,
{
    if n == 0 {
        0
    } else {
        ((sum_words(s, (n - 1) as nat) + word_at(s, n - 1)) % 0x1_0000_0000) as u32
    }
}

/// The sfnt checksum: big-endian words, zero-padded to a 4-byte boundary,
/// summed modulo 2^32.
pub open spec fn checksum_of(s: Seq<u8>) -> u32 {
    sum_words(s, ((s.len() + 3) / 4) as nat)
}

/// `s` with the four bytes at `at` set to zero, when they lie inside `s`.
pub open spec fn zero4(s: Seq<u8>, at: int) -> Seq<u8> {
    if 0 <= at && at + 4 <= s.len() {
        Seq::new(s.len(), |i: int| if at <= i < at + 4 { 0u8 } else { s[i] })
    } else {
        s
    }
}

/// The checksum a table contributes: for `head`, `checkSumAdjustment` reads as zero.
pub open spec fn table_checksum_of(tag: Seq<u8>, data: Seq<u8>) -> u32 {
    if tag_number(tag) == HEAD_TAG_NUMBER {
        checksum_of(zero4(data, HEAD_ADJUSTMENT_OFFSET as int))
    } else {
        checksum_of(data)
    }
}

fn word_of(data: &[u8], k: usize) -> (w: u32)
    requires
        4 * k < data@.len(),
    ensures
        w == word_at(data@, k as int),
{
    let n = data.len();
    let i = 4 * k;
    let b0 = data[i] as u32;
    let b1 = if i + 1 < n { data[i + 1] as u32 } else { 0 };
    let b2 = if i + 2 < n { data[i + 2] as u32 } else { 0 };
    let b3 = if i + 3 < n { data[i + 3] as u32 } else { 0 };
    b0 * 16777216 + b1 * 65536 + b2 * 256 + b3
}

/// The sfnt checksum of `data`.
pub fn checksum(data: &[u8]) -> (sum: u32)
    ensures
        sum == checksum_of(data@),
{
    let n = data.len();
    let words = n / 4 + if n % 4 != 0 { 1 } else { 0 };
    assert(words == (n + 3) / 4);
    let mut sum: u32 = 0;
    let mut k: usize = 0;
    while k < words
        invariant
            n == data@.len(),
            words == (n + 3) / 4,
            k <= words,
            sum == sum_words(data@, k as nat),
        decreases words - k,
    {
        let w = word_of(data, k);
        sum = sum.wrapping_add(w);
        k = k + 1;
    }
    sum
}

/// The checksum a table contributes to the font. For `head` the mutable
/// `checkSumAdjustment` field reads as zero, otherwise the value would depend
/// on itself.
pub fn table_checksum(tag: &[u8; 4], data: &[u8]) -> (sum: u32)
    ensures
        sum == table_checksum_of(tag@, data@),
{
    if tag_value(tag) != HEAD_TAG_NUMBER {
        return checksum(data);
    }
    let mut patched = copy_bytes(data);
    if patched.len() >= HEAD_ADJUSTMENT_OFFSET + 4 {
        let ghost before = patched@;
        patched.set(8, 0);
        patched.set(9, 0);
        patched.set(10, 0);
        patched.set(11, 0);
        assert(patched@ =~= zero4(before, 8));
    }
    checksum(patched.as_slice())
}

// ---------------------------------------------------------------------------
// Font-level rules

/// Whether `flavor` names an outline format, and the error otherwise.
pub open spec fn flavor_check(flavor: u32) -> core::result::Result<(), ErrorModel> {
    if flavor == FLAVOR_TRUETYPE || flavor == FLAVOR_CFF || flavor == FLAVOR_TRUE {
        Ok(())
    } else if flavor == MAGIC_TTCF {
        Err(ErrorModel::FontCollection)
    } else {
        Err(ErrorModel::UnknownFlavor { flavor })
    }
}

/// Whether some table before position `i` carries the tag of table `i`.
pub open spec fn tag_seen_before(ts: Seq<TableModel>, i: int) -> bool {
    exists|j: int| 0 <= j < i && #[trigger] ts[j].tag == ts[i].tag
}

/// The duplicate check over the first `n` tables: the first table whose tag
/// already occurred is reported.
pub open spec fn duplicate_check(ts: Seq<TableModel>, n: nat) -> core::result::Result<(), ErrorModel>
    decreases n,
{
    if n == 0 {
        Ok(())
    } else {
        match duplicate_check(ts, (n - 1) as nat) {
            Err(e) => Err(e),
            Ok(_) => if tag_seen_before(ts, n - 1) {
                Err(ErrorModel::DuplicateTable { tag: ts[n - 1].tag })
            } else {
                Ok(())
            },
        }
    }
}

/// Once the duplicate check has failed on a prefix, its error stands.
pub proof fn lemma_duplicate_check_err_stands(ts: Seq<TableModel>, m: nat, n: nat)
    requires
        m <= n,
        duplicate_check(ts, m) is Err,
    ensures
        duplicate_check(ts, n) == duplicate_check(ts, m),
    decreases n,
{
    if m < n {
        lemma_duplicate_check_err_stands(ts, m, (n - 1) as nat);
    }
}

/// No two tables carry the same tag.
pub open spec fn distinct_tags(ts: Seq<TableModel>) -> bool {
    forall|i: int, j: int| 0 <= i < j < ts.len() ==> ts[i].tag != ts[j].tag
}

/// The duplicate check passes exactly when the tags are distinct.
pub proof fn lemma_duplicate_check_distinct(ts: Seq<TableModel>, n: nat)
    requires
        n <= ts.len(),
    ensures
        (duplicate_check(ts, n) is Ok) == distinct_tags(ts.subrange(0, n as int)),
    decreases n,
{
    if n > 0 {
        lemma_duplicate_check_distinct(ts, (n - 1) as nat);
        let a = ts.subrange(0, n as int);
        let b = ts.subrange(0, n - 1);
        if duplicate_check(ts, n) is Ok {
            assert forall|i: int, j: int| 0 <= i < j < a.len() implies a[i].tag != a[j].tag by {
                if j == n - 1 {
                    if a[i].tag == a[j].tag {
                        assert(ts[i].tag == ts[n - 1].tag);
                        assert(tag_seen_before(ts, n - 1));
                    }
                } else {
                    assert(a[i] == b[i] && a[j] == b[j]);
                }
            }
        } else {
            if duplicate_check(ts, (n - 1) as nat) is Ok {
                let j = choose|j: int| 0 <= j < n - 1 && #[trigger] ts[j].tag == ts[n - 1].tag;
                assert(a[j].tag == a[n - 1].tag);
            } else {
                assert(!distinct_tags(b));
                let (i, j) = choose|i: int, j: int| 0 <= i < j < b.len() && b[i].tag == b[j].tag;
                assert(a[i] == b[i] && a[j] == b[j]);
            }
        }
    }
}

/// Bytes the sfnt form of these tables occupies: header, directory, and every
/// table padded to four bytes.
pub open spec fn sum_padded(ts: Seq<TableModel>, n: nat) -> int
    decreases n,
{
    if n == 0 {
        0
    } else {
        sum_padded(ts, (n - 1) as nat) + round4(ts[n - 1].data.len() as int)
    }
}

/// Size of the sfnt form of a font.
pub open spec fn sfnt_size_of(ts: Seq<TableModel>) -> int {
    12 + 16 * ts.len() + sum_padded(ts, ts.len())
}

/// The padded size of a prefix never exceeds that of a longer prefix.
pub proof fn lemma_sum_padded_mono(ts: Seq<TableModel>, m: nat, n: nat)
    requires
        m <= n,
    ensures
        0 <= sum_padded(ts, m) <= sum_padded(ts, n),
    decreases n,
{
    if m < n {
        lemma_sum_padded_mono(ts, m, (n - 1) as nat);
    } else if n > 0 {
        lemma_sum_padded_mono(ts, (n - 1) as nat, (n - 1) as nat);
    }
}

// ---------------------------------------------------------------------------
// Reading a bare sfnt

/// Directory entry `i` of a bare sfnt, read at `12 + 16 * i`: the table, or the error.
pub open spec fn sfnt_entry(s: Seq<u8>, i: int) -> core::result::Result<TableModel, ErrorModel> {
    let p = 12 + 16 * i;
    if p + 4 > s.len() {
        Err(truncated(4, s.len() - p, "table directory entry"))
    } else if p + 8 > s.len() {
        Err(truncated(4, s.len() - (p + 4), "table checksum"))
    } else if p + 12 > s.len() {
        Err(truncated(4, s.len() - (p + 8), "table offset"))
    } else if p + 16 > s.len() {
        Err(truncated(4, s.len() - (p + 12), "table length"))
    } else {
        let tag = s.subrange(p, p + 4);
        let offset = be32(s, p + 8);
        let length = be32(s, p + 12);
        if offset + length > s.len() {
            Err(ErrorModel::TableOutOfBounds { tag, offset, length, file_len: s.len() as usize })
        } else {
            Ok(TableModel { tag, data: s.subrange(offset as int, offset + length) })
        }
    }
}

/// The first `n` directory entries of a bare sfnt, stopping at the first error.
pub open spec fn sfnt_entries(s: Seq<u8>, n: nat) -> core::result::Result<Seq<TableModel>, ErrorModel>
    decreases n,
{
    if n == 0 {
        Ok(Seq::empty())
    } else {
        match sfnt_entries(s, (n - 1) as nat) {
            Err(e) => Err(e),
            Ok(ts) => match sfnt_entry(s, n - 1) {
                Err(e) => Err(e),
                Ok(t) => Ok(ts.push(t)),
            },
        }
    }
}

/// What parsing `s` as a bare TTF/OTF gives.
pub open spec fn parse_sfnt_spec(s: Seq<u8>) -> core::result::Result<FontModel, ErrorModel> {
    if s.len() < 4 {
        Err(truncated(4, s.len() as int, "sfnt version"))
    } else {
        let flavor = be32(s, 0);
        match flavor_check(flavor) {
            Err(e) => Err(e),
            Ok(_) => if s.len() < 6 {
                Err(truncated(2, s.len() - 4, "table count"))
            } else {
                let n = be16(s, 4);
                if n == 0 {
                    Err(ErrorModel::BadTableCount { count: n })
                } else if s.len() < 12 {
                    Err(truncated(6, s.len() - 6, "sfnt search parameters"))
                } else {
                    match sfnt_entries(s, n as nat) {
                        Err(e) => Err(e),
                        Ok(ts) => match duplicate_check(ts, ts.len()) {
                            Err(e) => Err(e),
                            Ok(_) => Ok(FontModel { flavor, tables: ts }),
                        },
                    }
                }
            },
        }
    }
}

/// The model of a font result.
pub open spec fn font_result(r: Result<Font>) -> core::result::Result<FontModel, ErrorModel> {
    match r {
        Ok(f) => Ok(f@),
        Err(e) => Err(e@),
    }
}

proof fn lemma_sfnt_entries_len(s: Seq<u8>, n: nat)
    ensures
        sfnt_entries(s, n) matches Ok(ts) ==> ts.len() == n,
    decreases n,
{
    if n > 0 {
        lemma_sfnt_entries_len(s, (n - 1) as nat);
    }
}

proof fn lemma_sfnt_entries_err_stands(s: Seq<u8>, m: nat, n: nat)
    requires
        m <= n,
        sfnt_entries(s, m) is Err,
    ensures
        sfnt_entries(s, n) == sfnt_entries(s, m),
    decreases n,
{
    if m < n {
        lemma_sfnt_entries_err_stands(s, m, (n - 1) as nat);
    }
}

// ---------------------------------------------------------------------------
// Table order

/// `t` inserted into `sorted` after every table whose tag is not greater.
pub open spec fn insert_by_tag(sorted: Seq<TableModel>, t: TableModel) -> Seq<TableModel>
    decreases sorted.len(),
{
    if sorted.len() == 0 {
        seq![t]
    } else if tag_number(sorted.last().tag) <= tag_number(t.tag) {
        sorted.push(t)
    } else {
        insert_by_tag(sorted.drop_last(), t).push(sorted.last())
    }
}

/// The tables in ascending tag order, equal tags keeping their relative order.
pub open spec fn sort_by_tag(ts: Seq<TableModel>) -> Seq<TableModel>
    decreases ts.len(),
{
    if ts.len() == 0 {
        Seq::empty()
    } else {
        insert_by_tag(sort_by_tag(ts.drop_last()), ts.last())
    }
}

/// The tables are in ascending tag order.
pub open spec fn is_sorted_by_tag(ts: Seq<TableModel>) -> bool {
    forall|i: int, j: int| 0 <= i < j < ts.len() ==> tag_number(ts[i].tag) <= tag_number(ts[j].tag)
}

proof fn lemma_insert_by_tag(sorted: Seq<TableModel>, t: TableModel)
    ensures
        insert_by_tag(sorted, t).len() == sorted.len() + 1,
        insert_by_tag(sorted, t).to_multiset() == sorted.to_multiset().insert(t),
        is_sorted_by_tag(sorted) ==> is_sorted_by_tag(insert_by_tag(sorted, t)),
    decreases sorted.len(),
{
    broadcast use vstd::seq_lib::group_to_multiset_ensures;
    if sorted.len() > 0 && tag_number(sorted.last().tag) > tag_number(t.tag) {
        let rest = sorted.drop_last();
        lemma_insert_by_tag(rest, t);
        assert(sorted =~= rest.push(sorted.last()));
        let r = insert_by_tag(rest, t);
        if is_sorted_by_tag(sorted) {
            assert forall|i: int, j: int| 0 <= i < j < r.len() + 1 implies
                tag_number(r.push(sorted.last())[i].tag) <= tag_number(r.push(sorted.last())[j].tag) by {
                if j == r.len() {
                    // Every element of r is either t or an element of rest.
                    assert(r.to_multiset().count(r[i]) > 0);
                    assert(rest.to_multiset().insert(t).count(r[i]) > 0);
                    if r[i] != t {
                        assert(rest.to_multiset().count(r[i]) > 0);
                        assert(rest.contains(r[i]));
                        let k = choose|k: int| 0 <= k < rest.len() && rest[k] == r[i];
                        assert(sorted[k] == rest[k]);
                    }
                }
            }
        }
    } else if sorted.len() > 0 {
        assert(sorted.push(t).drop_last() =~= sorted);
    }
}

/// Sorting keeps the tables (as a multiset) and puts them in tag order.
pub proof fn lemma_sort_by_tag(ts: Seq<TableModel>)
    ensures
        sort_by_tag(ts).len() == ts.len(),
        sort_by_tag(ts).to_multiset() == ts.to_multiset(),
        is_sorted_by_tag(sort_by_tag(ts)),
    decreases ts.len(),
{
    broadcast use vstd::seq_lib::group_to_multiset_ensures;
    if ts.len() > 0 {
        lemma_sort_by_tag(ts.drop_last());
        lemma_insert_by_tag(sort_by_tag(ts.drop_last()), ts.last());
        assert(ts =~= ts.drop_last().push(ts.last()));
    }
}

/// A copy of a table.
pub fn copy_table(t: &Table) -> (c: Table)
    ensures
        c@ == t@,
{
    Table { tag: t.tag, data: copy_bytes(t.data.as_slice()) }
}

/// Copies of `tables` in ascending tag order; equal tags keep their order.
pub fn sorted_by_tag(tables: &Vec<Table>) -> (r: Vec<Table>)
    ensures
        tables_view(r@) == sort_by_tag(tables_view(tables@)),
{
    let ghost ts = tables_view(tables@);
    let mut res: Vec<Table> = Vec::new();
    assert(tables_view(res@) =~= sort_by_tag(ts.subrange(0, 0)));
    let mut i: usize = 0;
    while i < tables.len()
        invariant
            i <= tables@.len(),
            ts == tables_view(tables@),
            tables_view(res@) == sort_by_tag(ts.subrange(0, i as int)),
        decreases tables@.len() - i,
    {
        let c = copy_table(&tables[i]);
        let key = tag_value(&c.tag);
        let ghost r0 = tables_view(res@);
        let mut p: usize = res.len();
        assert(r0.subrange(0, p as int) =~= r0);
        assert(insert_by_tag(r0, c@) + r0.subrange(p as int, r0.len() as int) =~= insert_by_tag(r0, c@));
        while p > 0 && tag_value(&res[p - 1].tag) > key
            invariant
                p <= res@.len(),
                r0 == tables_view(res@),
                key == tag_number(c@.tag),
                insert_by_tag(r0, c@) == insert_by_tag(r0.subrange(0, p as int), c@) + r0.subrange(p as int, r0.len() as int),
            decreases p,
        {
            let ghost pre = r0.subrange(0, p as int);
            assert(pre.drop_last() =~= r0.subrange(0, p - 1));
            assert(pre.last() == r0[p - 1]);
            assert(r0.subrange(p - 1, r0.len() as int) =~= seq![r0[p - 1]] + r0.subrange(p as int, r0.len() as int));
            assert(insert_by_tag(pre, c@) == insert_by_tag(r0.subrange(0, p - 1), c@).push(r0[p - 1]));
            assert(insert_by_tag(r0.subrange(0, p - 1), c@).push(r0[p - 1]) + r0.subrange(p as int, r0.len() as int)
                =~= insert_by_tag(r0.subrange(0, p - 1), c@) + r0.subrange(p - 1, r0.len() as int));
            p = p - 1;
        }
        proof {
            let pre = r0.subrange(0, p as int);
            if p > 0 {
                assert(pre.last() == r0[p - 1]);
                assert(insert_by_tag(pre, c@) == pre.push(c@));
            } else {
                assert(insert_by_tag(pre, c@) == seq![c@]);
            }
        }
        let ghost before = res@;
        res.insert(p, c);
        assert(tables_view(res@) =~= insert_by_tag(r0, c@)) by {
            assert(res@ == before.insert(p as int, c));
            assert(insert_by_tag(r0, c@) =~= r0.subrange(0, p as int).push(c@) + r0.subrange(p as int, r0.len() as int));
        }
        assert(ts.subrange(0, i + 1).drop_last() =~= ts.subrange(0, i as int));
        assert(ts.subrange(0, i + 1).last() == tables@[i as int]@);
        i = i + 1;
    }
    assert(ts.subrange(0, tables@.len() as int) =~= ts);
    res
}

// ---------------------------------------------------------------------------
// Writing a bare sfnt

/// floor(log2(n)), and 0 for n = 0.
pub open spec fn floor_log2(n: nat) -> nat
    decreases n,
{
    if n < 2 { 0 } else { 1 + floor_log2(n / 2) }
}

/// 2^e.
pub open spec fn pow2(e: nat) -> nat
    decreases e,
{
    if e == 0 { 1 } else { 2 * pow2((e - 1) as nat) }
}

proof fn lemma_pow2_mono(a: nat, b: nat)
    requires
        a <= b,
    ensures
        pow2(a) <= pow2(b),
    decreases b,
{
    lemma_pow2_pos(b);
    if a < b {
        lemma_pow2_mono(a, (b - 1) as nat);
        lemma_pow2_pos((b - 1) as nat);
    }
}

proof fn lemma_pow2_pos(e: nat)
    ensures
        pow2(e) >= 1,
    decreases e,
{
    if e > 0 {
        lemma_pow2_pos((e - 1) as nat);
    }
}

/// `2^floor(log2 n)` is the largest power of two not above `n`.
pub proof fn lemma_floor_log2_bounds(n: nat)
    requires
        n >= 1,
    ensures
        pow2(floor_log2(n)) <= n < 2 * pow2(floor_log2(n)),
        floor_log2(n) < n,
    decreases n,
{
    if n >= 2 {
        lemma_floor_log2_bounds(n / 2);
        assert(pow2(floor_log2(n)) == 2 * pow2(floor_log2(n / 2)));
    }
}

/// The twelve-byte sfnt header for `n` tables: flavor, table count and the
/// binary-search parameters.
#[verifier::opaque]
pub open spec fn sfnt_header(flavor: u32, n: nat) -> Seq<u8> {
    let selector = floor_log2(n);
    let range = pow2(selector) * 16;
    let shift: int = if n * 16 >= range { n * 16 - range } else { 0 };
    u32_be(flavor) + u16_be(n as u16) + u16_be(range as u16) + u16_be(selector as u16) + u16_be(shift as u16)
}

/// The header is twelve bytes long.
pub proof fn lemma_sfnt_header_len(flavor: u32, n: nat)
    ensures
        sfnt_header(flavor, n).len() == 12,
{
    reveal(sfnt_header);
}

/// Where table `i` starts in the sfnt form of `ts`.
pub open spec fn table_offset(ts: Seq<TableModel>, i: int) -> int {
    12 + 16 * ts.len() + sum_padded(ts, i as nat)
}

/// Directory entry `i`: tag, checksum, offset and length.
pub open spec fn dir_entry(ts: Seq<TableModel>, i: int) -> Seq<u8> {
    ts[i].tag + u32_be(table_checksum_of(ts[i].tag, ts[i].data)) + u32_be(table_offset(ts, i) as u32)
        + u32_be(ts[i].data.len() as u32)
}

/// The first `n` directory entries.
pub open spec fn dir_bytes(ts: Seq<TableModel>, n: nat) -> Seq<u8>
    decreases n,
{
    if n == 0 { Seq::empty() } else { dir_bytes(ts, (n - 1) as nat) + dir_entry(ts, n - 1) }
}

/// `n` zero bytes.
pub open spec fn zeros(n: int) -> Seq<u8> {
    Seq::new(n as nat, |_i: int| 0u8)
}

/// The data of the first `n` tables, each zero-padded to four bytes.
pub open spec fn body_bytes(ts: Seq<TableModel>, n: nat) -> Seq<u8>
    decreases n,
{
    if n == 0 {
        Seq::empty()
    } else {
        body_bytes(ts, (n - 1) as nat) + ts[n - 1].data + zeros(round4(ts[n - 1].data.len() as int) - ts[n - 1].data.len())
    }
}

/// The index of the last `head` table among the first `n`.
pub open spec fn last_head(ts: Seq<TableModel>, n: nat) -> Option<int>
    decreases n,
{
    if n == 0 {
        None
    } else if tag_number(ts[n - 1].tag) == HEAD_TAG_NUMBER {
        Some(n - 1)
    } else {
        last_head(ts, (n - 1) as nat)
    }
}

/// The last `head` found is in range and is a `head`.
pub proof fn lemma_last_head_range(ts: Seq<TableModel>, n: nat)
    ensures
        last_head(ts, n) matches Some(h) ==> 0 <= h < n && tag_number(ts[h].tag) == HEAD_TAG_NUMBER,
    decreases n,
{
    if n > 0 {
        lemma_last_head_range(ts, (n - 1) as nat);
    }
}

/// `s` with `field` replaced by `CHECKSUM_MAGIC` minus the checksum of `s`
/// with that field zeroed, when the field lies inside `s`.
pub open spec fn patch_adjustment(s: Seq<u8>, field: int) -> Seq<u8> {
    if 0 <= field && field + 4 <= s.len() {
        let z = zero4(s, field);
        let adjustment = ((CHECKSUM_MAGIC - checksum_of(z) + 0x1_0000_0000) % 0x1_0000_0000) as u32;
        z.subrange(0, field) + u32_be(adjustment) + z.subrange(field + 4, z.len() as int)
    } else {
        s
    }
}

/// The sfnt form of already-sorted tables, before `checkSumAdjustment` is set.
pub open spec fn sfnt_unpatched(flavor: u32, ts: Seq<TableModel>) -> Seq<u8> {
    sfnt_header(flavor, ts.len()) + dir_bytes(ts, ts.len()) + body_bytes(ts, ts.len())
}

/// The bytes `to_sfnt` writes for a font: tables in tag order, every checksum
/// recomputed, and `head.checkSumAdjustment` set over the finished file.
pub open spec fn sfnt_bytes(font: FontModel) -> Seq<u8> {
    sfnt_of_sorted(font.flavor, sort_by_tag(font.tables))
}

/// The sfnt form of tables already in the order they are written.
pub open spec fn sfnt_of_sorted(flavor: u32, ts: Seq<TableModel>) -> Seq<u8> {
    let pre = sfnt_unpatched(flavor, ts);
    match last_head(ts, ts.len()) {
        None => pre,
        Some(h) => patch_adjustment(pre, table_offset(ts, h) + HEAD_ADJUSTMENT_OFFSET),
    }
}

/// A font `to_sfnt` can write: its size fits in memory and its table count
/// keeps the header arithmetic within 32 bits.
pub open spec fn sfnt_writable(font: FontModel) -> bool {
    &&& sfnt_size_of(font.tables) <= usize::MAX
    &&& font.tables.len() < 0x1000_0000
}

proof fn lemma_sum_padded_insert(sorted: Seq<TableModel>, t: TableModel)
    ensures
        sum_padded(insert_by_tag(sorted, t), (sorted.len() + 1) as nat) == sum_padded(sorted, sorted.len()) + round4(t.data.len() as int),
    decreases sorted.len(),
{
    lemma_insert_by_tag(sorted, t);
    let goal = insert_by_tag(sorted, t);
    if sorted.len() == 0 {
        assert(goal == seq![t]);
        assert(sum_padded(goal, 1) == sum_padded(goal, 0) + round4(goal[0].data.len() as int));
    } else if tag_number(sorted.last().tag) > tag_number(t.tag) {
        let rest = sorted.drop_last();
        lemma_sum_padded_insert(rest, t);
        lemma_insert_by_tag(rest, t);
        let r = insert_by_tag(rest, t);
        let rp = r.push(sorted.last());
        assert(goal == rp);
        assert(rp.subrange(0, r.len() as int) =~= r.subrange(0, r.len() as int));
        lemma_sum_padded_prefix(rp, r, r.len() as nat);
        assert(sorted.subrange(0, rest.len() as int) =~= rest.subrange(0, rest.len() as int));
        lemma_sum_padded_prefix(sorted, rest, rest.len() as nat);
        assert(r.len() == sorted.len());
        assert(rp[r.len() as int] == sorted.last());
        assert(sum_padded(rp, (r.len() + 1) as nat) == sum_padded(rp, r.len() as nat) + round4(sorted.last().data.len() as int));
        assert(sum_padded(sorted, sorted.len()) == sum_padded(sorted, rest.len()) + round4(sorted.last().data.len() as int));
    } else {
        let sp = sorted.push(t);
        assert(goal == sp);
        assert(sp[sorted.len() as int] == t);
        assert(sp.subrange(0, sorted.len() as int) =~= sorted.subrange(0, sorted.len() as int));
        lemma_sum_padded_prefix(sp, sorted, sorted.len() as nat);
        assert(sum_padded(sp, (sorted.len() + 1) as nat) == sum_padded(sp, sorted.len()) + round4(t.data.len() as int));
    }
}

/// `sum_padded` over a prefix only sees the prefix.
proof fn lemma_sum_padded_prefix(a: Seq<TableModel>, b: Seq<TableModel>, n: nat)
    requires
        n <= a.len(),
        n <= b.len(),
        a.subrange(0, n as int) == b.subrange(0, n as int),
    ensures
        sum_padded(a, n) == sum_padded(b, n),
    decreases n,
{
    if n > 0 {
        assert(a[n - 1] == a.subrange(0, n as int)[n - 1]);
        assert(b[n - 1] == b.subrange(0, n as int)[n - 1]);
        assert(a.subrange(0, n - 1) =~= a.subrange(0, n as int).subrange(0, n - 1));
        assert(b.subrange(0, n - 1) =~= b.subrange(0, n as int).subrange(0, n - 1));
        lemma_sum_padded_prefix(a, b, (n - 1) as nat);
    }
}

/// Sorting does not change the sfnt size.
pub proof fn lemma_sort_keeps_size(ts: Seq<TableModel>)
    ensures
        sort_by_tag(ts).len() == ts.len(),
        sfnt_size_of(sort_by_tag(ts)) == sfnt_size_of(ts),
    decreases ts.len(),
{
    lemma_sort_by_tag(ts);
    if ts.len() > 0 {
        let rest = ts.drop_last();
        lemma_sort_keeps_size(rest);
        lemma_sort_by_tag(rest);
        lemma_sum_padded_insert(sort_by_tag(rest), ts.last());
        assert(ts.subrange(0, rest.len() as int) =~= rest.subrange(0, rest.len() as int));
        lemma_sum_padded_prefix(ts, rest, rest.len() as nat);
    }
}

/// Every table `sort_by_tag` returns is one of the tables it was given.
pub proof fn lemma_sort_members(ts: Seq<TableModel>)
    ensures
        forall|i: int| 0 <= i < sort_by_tag(ts).len() ==> ts.contains(#[trigger] sort_by_tag(ts)[i]),
{
    broadcast use vstd::seq_lib::group_to_multiset_ensures;
    lemma_sort_by_tag(ts);
    let r = sort_by_tag(ts);
    assert forall|i: int| 0 <= i < r.len() implies ts.contains(#[trigger] r[i]) by {
        assert(r.to_multiset().count(r[i]) > 0);
        assert(ts.to_multiset().count(r[i]) > 0);
    }
}

proof fn lemma_insert_keeps_distinct(sorted: Seq<TableModel>, t: TableModel)
    requires
        distinct_tags(sorted),
        forall|i: int| 0 <= i < sorted.len() ==> #[trigger] sorted[i].tag != t.tag,
    ensures
        distinct_tags(insert_by_tag(sorted, t)),
    decreases sorted.len(),
{
    broadcast use vstd::seq_lib::group_to_multiset_ensures;
    if sorted.len() > 0 && tag_number(sorted.last().tag) > tag_number(t.tag) {
        let rest = sorted.drop_last();
        let last = sorted.last();
        assert forall|i: int| 0 <= i < rest.len() implies #[trigger] rest[i].tag != t.tag by {
            assert(rest[i] == sorted[i]);
        }
        lemma_insert_keeps_distinct(rest, t);
        lemma_insert_by_tag(rest, t);
        let r = insert_by_tag(rest, t);
        assert forall|i: int| 0 <= i < r.len() implies #[trigger] r[i].tag != last.tag by {
            assert(r.to_multiset().count(r[i]) > 0);
            if r[i] != t {
                assert(rest.to_multiset().count(r[i]) > 0);
                let k = choose|k: int| 0 <= k < rest.len() && rest[k] == r[i];
                assert(sorted[k] == rest[k]);
            } else {
                assert(sorted[sorted.len() - 1] == last);
            }
        }
        assert(insert_by_tag(sorted, t) == r.push(last));
    } else if sorted.len() > 0 {
        assert(insert_by_tag(sorted, t) == sorted.push(t));
    }
}

/// Sorting keeps the tags distinct.
pub proof fn lemma_sort_keeps_distinct(ts: Seq<TableModel>)
    requires
        distinct_tags(ts),
    ensures
        distinct_tags(sort_by_tag(ts)),
    decreases ts.len(),
{
    if ts.len() > 0 {
        let rest = ts.drop_last();
        let last = ts.last();
        assert forall|i: int, j: int| 0 <= i < j < rest.len() implies rest[i].tag != rest[j].tag by {
            assert(rest[i] == ts[i] && rest[j] == ts[j]);
        }
        lemma_sort_keeps_distinct(rest);
        lemma_sort_members(rest);
        let r = sort_by_tag(rest);
        assert forall|i: int| 0 <= i < r.len() implies #[trigger] r[i].tag != last.tag by {
            assert(rest.contains(r[i]));
            let k = choose|k: int| 0 <= k < rest.len() && rest[k] == r[i];
            assert(ts[k] == rest[k]);
        }
        lemma_insert_keeps_distinct(r, last);
    }
}

/// Bytes of table data, padding left out.
pub open spec fn data_total(ts: Seq<TableModel>) -> int
    decreases ts.len(),
{
    if ts.len() == 0 { 0 } else { data_total(ts.drop_last()) + ts.last().data.len() }
}

proof fn lemma_insert_data_total(sorted: Seq<TableModel>, t: TableModel)
    ensures
        data_total(insert_by_tag(sorted, t)) == data_total(sorted) + t.data.len(),
    decreases sorted.len(),
{
    if sorted.len() == 0 {
        assert(seq![t].drop_last() =~= Seq::<TableModel>::empty());
        assert(data_total(Seq::<TableModel>::empty()) == 0);
        assert(seq![t].last() == t);
        assert(insert_by_tag(sorted, t) == seq![t]);
        assert(sorted =~= Seq::<TableModel>::empty());
    } else if tag_number(sorted.last().tag) > tag_number(t.tag) {
        let rest = sorted.drop_last();
        lemma_insert_data_total(rest, t);
        let rp = insert_by_tag(rest, t).push(sorted.last());
        assert(rp.drop_last() =~= insert_by_tag(rest, t));
    } else {
        assert(sorted.push(t).drop_last() =~= sorted);
    }
}

/// Sorting keeps the amount of table data.
pub proof fn lemma_sort_keeps_data_total(ts: Seq<TableModel>)
    ensures
        data_total(sort_by_tag(ts)) == data_total(ts),
    decreases ts.len(),
{
    if ts.len() > 0 {
        lemma_sort_keeps_data_total(ts.drop_last());
        lemma_insert_data_total(sort_by_tag(ts.drop_last()), ts.last());
    }
}

/// Every tag in `ts` is four bytes long.
pub open spec fn four_byte_tags(ts: Seq<TableModel>) -> bool {
    forall|i: int| 0 <= i < ts.len() ==> #[trigger] ts[i].tag.len() == 4
}

/// Each directory entry takes sixteen bytes.
pub proof fn lemma_dir_bytes_len(ts: Seq<TableModel>, n: nat)
    requires
        n <= ts.len(),
        four_byte_tags(ts),
    ensures
        dir_bytes(ts, n).len() == 16 * n,
    decreases n,
{
    if n > 0 {
        lemma_dir_bytes_len(ts, (n - 1) as nat);
        assert(ts[n - 1].tag.len() == 4);
    }
}

/// Padding a four-aligned position by the table length is the same as
/// padding the length.
pub proof fn lemma_padding_from_aligned(start: int, len: int)
    requires
        0 <= start,
        0 <= len,
        start % 4 == 0,
        start + len <= usize::MAX - 3,
    ensures
        round4(start + len) - (start + len) == round4(len) - len,
        padded(len) == round4(len),
        padded(start + len) == round4(start + len),
        round4(len) >= len,
        round4(len) - len < 4,
        (start + round4(len)) % 4 == 0,
{
    let l = len + 3;
    let q = l / 4;
    let r = l % 4;
    vstd::arithmetic::div_mod::lemma_fundamental_div_mod(l, 4);
    vstd::arithmetic::div_mod::lemma_mod_bound(l, 4);
    let s = start / 4;
    vstd::arithmetic::div_mod::lemma_fundamental_div_mod(start, 4);
    assert(start == 4 * s);
    assert(start + l == 4 * (s + q) + r);
    vstd::arithmetic::div_mod::lemma_div_multiples_vanish_fancy(s + q, r, 4);
    assert(round4(len) == q * 4);
    assert(round4(start + len) == (s + q) * 4);
    assert(start + round4(len) == (s + q) * 4);
    vstd::arithmetic::div_mod::lemma_mod_multiples_basic(s + q, 4);
}

/// The views of `tables` carry four-byte tags.
pub proof fn lemma_tables_four_byte_tags(tables: Seq<Table>)
    ensures
        four_byte_tags(tables_view(tables)),
{
    assert forall|i: int| 0 <= i < tables_view(tables).len() implies #[trigger] tables_view(tables)[i].tag.len() == 4 by {
        assert(tables_view(tables)[i].tag == tables[i].tag@);
    }
}

/// The binary-search parameters for `n` tables: floor(log2(n)) and the
/// largest power of two not above `n` (1 when `n` is zero).
fn search_params(n: usize) -> (r: (u16, u32))
    requires
        n < 0x1000_0000,
    ensures
        r.0 == floor_log2(n as nat),
        r.1 == pow2(floor_log2(n as nat)),
        n > 0 ==> r.1 <= n,
        n == 0 ==> r.1 == 1,
{
    let mut selector: u16 = 0;
    let mut range: u32 = 1;
    let mut m: usize = n;
    while m >= 2
        invariant
            n < 0x1000_0000,
            m <= n,
            n == 0 || m >= 1,
            floor_log2(m as nat) + selector == floor_log2(n as nat),
            range == pow2(selector as nat),
            n == 0 || pow2(selector as nat) * m <= n,
            selector <= 28,
        decreases m,
    {
        let ghost p = pow2(selector as nat);
        proof {
            lemma_pow2_pos(selector as nat);
            assert(p * (m / 2) * 2 <= p * m) by (nonlinear_arith)
                requires
                    m >= 2,
                    p >= 1,
            ;
            assert(p * 2 <= p * m) by (nonlinear_arith)
                requires
                    m >= 2,
                    p >= 1,
            ;
            assert(floor_log2(m as nat) == 1 + floor_log2((m / 2) as nat));
            assert(pow2((selector + 1) as nat) == 2 * p);
            assert(pow2((selector + 1) as nat) * (m / 2) == p * (m / 2) * 2) by (nonlinear_arith)
                requires
                    pow2((selector + 1) as nat) == 2 * p,
            ;
            assert(pow2((selector + 1) as nat) <= pow2((selector + 1) as nat) * (m / 2)) by (nonlinear_arith)
                requires
                    m / 2 >= 1,
                    pow2((selector + 1) as nat) >= 1,
            ;
            if selector + 1 > 28 {
                lemma_pow2_mono(29, (selector + 1) as nat);
                reveal_with_fuel(pow2, 30);
                assert(pow2(29) == 0x2000_0000);
            }
        }
        m = m / 2;
        selector = selector + 1;
        range = range * 2;
    }
    proof {
        lemma_pow2_pos(selector as nat);
        if n > 0 {
            assert(pow2(selector as nat) <= n) by (nonlinear_arith)
                requires
                    pow2(selector as nat) * m <= n,
                    m >= 1,
            ;
        }
    }
    (selector, range)
}

/// Write the sfnt form of tables already in tag order.
fn write_sorted(flavor: u32, tables: &Vec<Table>) -> (out: Vec<u8>)
    requires
        sfnt_size_of(tables_view(tables@)) <= usize::MAX,
        tables@.len() < 0x1000_0000,
        four_byte_tags(tables_view(tables@)),
    ensures
        out@ == sfnt_of_sorted(flavor, tables_view(tables@)),
{
    let ghost ts = tables_view(tables@);
    let n = tables.len();
    let mut out: Vec<u8> = Vec::new();
    write_header(&mut out, flavor, n);
    let ghost header = sfnt_header(flavor, n as nat);
    assert(out@ =~= header);
    proof { lemma_sfnt_header_len(flavor, n as nat); }
    let head_data_offset = write_directory(&mut out, &tables);
    proof { lemma_dir_bytes_len(ts, n as nat); }
    assert(out@.len() == table_offset(ts, 0));
    write_bodies(&mut out, &tables);
    assert(out@ =~= sfnt_unpatched(flavor, ts));
    let ghost pre = out@;
    // checkSumAdjustment is defined over the finished file, so it is patched last.
    if let Some(head_at) = head_data_offset {
        proof {
            lemma_last_head_range(ts, n as nat);
            let h = last_head(ts, n as nat)->Some_0;
            lemma_sum_padded_mono(ts, h as nat, n as nat);
            assert(head_at == table_offset(ts, h));
        }
        patch_checksum_adjustment(&mut out, head_at);
    }
    out
}

/// Write the sfnt header for `n` tables.
fn write_header(out: &mut Vec<u8>, flavor: u32, n: usize)
    requires
        n < 0x1000_0000,
    ensures
        final(out)@ == old(out)@ + sfnt_header(flavor, n as nat),
{
    let ghost start = out@;
    let (selector, range) = search_params(n);
    let search_range = range * 16;
    let n32 = n as u32;
    assert(n32 == n);
    let range_shift = (n32 * 16).saturating_sub(search_range);
    push_u32(out, flavor);
    push_u16(out, n as u16);
    push_u16(out, search_range as u16);
    push_u16(out, selector);
    push_u16(out, range_shift as u16);
    reveal(sfnt_header);
    assert(out@ =~= start + sfnt_header(flavor, n as nat));
}

/// Write the table directory of already-sorted tables; report where the last
/// `head` table's data will start.
fn write_directory(out: &mut Vec<u8>, tables: &Vec<Table>) -> (head_at: Option<usize>)
    requires
        sfnt_size_of(tables_view(tables@)) <= usize::MAX,
        four_byte_tags(tables_view(tables@)),
    ensures
        final(out)@ == old(out)@ + dir_bytes(tables_view(tables@), tables@.len()),
        head_at == match last_head(tables_view(tables@), tables@.len()) {
            Some(h) => Some(table_offset(tables_view(tables@), h) as usize),
            None => None::<usize>,
        },
{
    let ghost ts = tables_view(tables@);
    let ghost start = out@;
    let n = tables.len();
    proof { lemma_sum_padded_mono(ts, 0, ts.len()); }
    let mut offset: usize = 12 + 16 * n;
    let mut head_data_offset: Option<usize> = None;
    let mut i: usize = 0;
    while i < n
        invariant
            n == tables@.len(),
            ts == tables_view(tables@),
            12 + 16 * ts.len() + sum_padded(ts, ts.len()) <= usize::MAX,
            i <= n,
            out@ == start + dir_bytes(ts, i as nat),
            offset == table_offset(ts, i as int),
            head_data_offset == match last_head(ts, i as nat) {
                Some(h) => Some(table_offset(ts, h) as usize),
                None => None::<usize>,
            },
        decreases n - i,
    {
        let t = &tables[i];
        proof {
            lemma_sum_padded_mono(ts, (i + 1) as nat, ts.len());
            lemma_sum_padded_mono(ts, 0, i as nat);
            lemma_round4(t.data@.len() as int);
        }
        let ghost before = out@;
        push_bytes(out, &t.tag);
        push_u32(out, table_checksum(&t.tag, t.data.as_slice()));
        push_u32(out, offset as u32);
        push_u32(out, t.data.len() as u32);
        assert(out@ =~= before + dir_entry(ts, i as int));
        assert(out@ =~= start + dir_bytes(ts, (i + 1) as nat));
        if tag_value(&t.tag) == HEAD_TAG_NUMBER {
            head_data_offset = Some(offset);
        }
        offset = offset + align4(t.data.len());
        i = i + 1;
    }
    head_data_offset
}

/// Write the data of already-sorted tables, each padded to four bytes.
#[verifier::rlimit(30)]
fn write_bodies(out: &mut Vec<u8>, tables: &Vec<Table>)
    requires
        sfnt_size_of(tables_view(tables@)) <= usize::MAX,
        old(out)@.len() == table_offset(tables_view(tables@), 0),
    ensures
        final(out)@ == old(out)@ + body_bytes(tables_view(tables@), tables@.len()),
{
    let ghost ts = tables_view(tables@);
    let ghost start = out@;
    let n = tables.len();
    proof { lemma_sum_padded_mono(ts, 0, ts.len()); }
    assert(start + body_bytes(ts, 0) =~= start);
    let mut i: usize = 0;
    while i < n
        invariant
            n == tables@.len(),
            ts == tables_view(tables@),
            12 + 16 * ts.len() + sum_padded(ts, ts.len()) <= usize::MAX,
            i <= n,
            out@ == start + body_bytes(ts, i as nat),
            out@.len() == table_offset(ts, i as int),
            out@.len() % 4 == 0,
        decreases n - i,
    {
        let t = &tables[i];
        proof { lemma_sum_padded_mono(ts, (i + 1) as nat, ts.len()); }
        let ghost before = out@;
        let ghost len = t.data@.len() as int;
        push_bytes(out, t.data.as_slice());
        let cur = out.len();
        proof { lemma_padding_from_aligned(before.len() as int, len); }
        push_zeros(out, align4(cur) - cur);
        assert(ts[i as int].data == t.data@);
        assert(body_bytes(ts, (i + 1) as nat) == body_bytes(ts, i as nat) + t.data@ + zeros(round4(len) - len));
        assert(out@ =~= start + body_bytes(ts, (i + 1) as nat));
        i = i + 1;
    }
}

/// Set `checkSumAdjustment` of the `head` table whose data starts at `head_at`.
fn patch_checksum_adjustment(out: &mut Vec<u8>, head_at: usize)
    ensures
        final(out)@ == patch_adjustment(old(out)@, head_at + HEAD_ADJUSTMENT_OFFSET),
{
    let len = out.len();
    if head_at > usize::MAX - HEAD_ADJUSTMENT_OFFSET {
        return;
    }
    let field = head_at + HEAD_ADJUSTMENT_OFFSET;
    if field <= out.len() && out.len() - field >= 4 {
        let ghost pre = out@;
        out.set(field, 0);
        out.set(field + 1, 0);
        out.set(field + 2, 0);
        out.set(field + 3, 0);
        let ghost z = out@;
        assert(z =~= zero4(pre, field as int));
        let sum = checksum(out.as_slice());
        let adjustment = CHECKSUM_MAGIC.wrapping_sub(sum);
        assert(adjustment == ((CHECKSUM_MAGIC - checksum_of(z) + 0x1_0000_0000) % 0x1_0000_0000) as u32);
        let mut bytes: Vec<u8> = Vec::new();
        push_u32(&mut bytes, adjustment);
        assert(bytes@ == u32_be(adjustment));
        out.set(field, bytes[0]);
        out.set(field + 1, bytes[1]);
        out.set(field + 2, bytes[2]);
        out.set(field + 3, bytes[3]);
        assert(out@ =~= z.subrange(0, field as int) + u32_be(adjustment) + z.subrange(field + 4, z.len() as int));
    }
}

impl Font {
    /// Validate a flavor read from any container.
    pub fn check_flavor(flavor: u32) -> (r: Result<()>)
        ensures
            match r {
                Ok(_) => flavor_check(flavor) is Ok,
                Err(e) => flavor_check(flavor) == Err::<(), ErrorModel>(e@),
            },
    {
        if flavor == FLAVOR_TRUETYPE || flavor == FLAVOR_CFF || flavor == FLAVOR_TRUE {
            Ok(())
        } else if flavor == MAGIC_TTCF {
            Err(FontError::FontCollection)
        } else {
            Err(FontError::UnknownFlavor { flavor })
        }
    }

    /// The first table carrying `tag`.
    pub fn table(&self, tag: &[u8; 4]) -> (r: Option<&Table>)
        ensures
            match r {
                Some(t) => exists|i: int|
                    0 <= i < self.tables@.len() && self.tables@[i] == *t && t.tag@ == tag@
                        && forall|j: int| 0 <= j < i ==> #[trigger] self.tables@[j].tag@ != tag@,
                None => forall|j: int| 0 <= j < self.tables@.len() ==> #[trigger] self.tables@[j].tag@ != tag@,
            },
    {
        let want = tag_value(tag);
        let mut i: usize = 0;
        while i < self.tables.len()
            invariant
                i <= self.tables@.len(),
                want == tag_number(tag@),
                forall|j: int| 0 <= j < i ==> #[trigger] self.tables@[j].tag@ != tag@,
            decreases self.tables@.len() - i,
        {
            let t = &self.tables[i];
            if tag_value(&t.tag) == want {
                proof { crate::bytes::lemma_be32_bytes(t.tag@); crate::bytes::lemma_be32_bytes(tag@); }
                return Some(t);
            }
            proof { crate::bytes::lemma_be32_bytes(t.tag@); crate::bytes::lemma_be32_bytes(tag@); }
            i = i + 1;
        }
        None
    }

    /// Reject a directory that names the same table twice; downstream code
    /// assumes tags are unique.
    pub fn reject_duplicate_tags(tables: &[Table]) -> (r: Result<()>)
        ensures
            match r {
                Ok(_) => duplicate_check(tables_view(tables@), tables@.len()) is Ok,
                Err(e) => duplicate_check(tables_view(tables@), tables@.len()) == Err::<(), ErrorModel>(e@),
            },
    {
        let ghost ts = tables_view(tables@);
        let mut i: usize = 0;
        while i < tables.len()
            invariant
                i <= tables@.len(),
                ts == tables_view(tables@),
                duplicate_check(ts, i as nat) is Ok,
            decreases tables@.len() - i,
        {
            let key = tag_value(&tables[i].tag);
            let mut j: usize = 0;
            while j < i
                invariant
                    i < tables@.len(),
                    j <= i,
                    ts == tables_view(tables@),
                    key == tag_number(ts[i as int].tag),
                    duplicate_check(ts, i as nat) is Ok,
                    forall|k: int| 0 <= k < j ==> #[trigger] ts[k].tag != ts[i as int].tag,
                decreases i - j,
            {
                proof { crate::bytes::lemma_be32_bytes(ts[j as int].tag); crate::bytes::lemma_be32_bytes(ts[i as int].tag); }
                if tag_value(&tables[j].tag) == key {
                    assert(tag_seen_before(ts, i as int));
                    assert(duplicate_check(ts, (i + 1) as nat) == Err::<(), ErrorModel>(ErrorModel::DuplicateTable { tag: ts[i as int].tag }));
                    assert(ts[i as int].tag == tables@[i as int].tag@);
                    proof { lemma_duplicate_check_err_stands(ts, (i + 1) as nat, tables@.len()); }
                    return Err(FontError::DuplicateTable { tag: tables[i].tag });
                }
                j = j + 1;
            }
            assert(!tag_seen_before(ts, i as int));
            i = i + 1;
        }
        Ok(())
    }

    /// Parse a bare TTF/OTF.
    pub fn parse_sfnt(input: &[u8]) -> (r: Result<Font>)
        ensures
            font_result(r) == parse_sfnt_spec(input@),
    {
        let ghost s = input@;
        let mut r = Reader::new(input);
        let flavor = r.u32("sfnt version")?;
        Self::check_flavor(flavor)?;
        let num_tables = r.u16("table count")?;
        if num_tables == 0 {
            return Err(FontError::BadTableCount { count: num_tables });
        }
        r.skip(6, "sfnt search parameters")?;
        let file_len = input.len();

        let mut tables: Vec<Table> = Vec::new();
        assert(tables_view(tables@) =~= Seq::<TableModel>::empty());
        let mut i: u16 = 0;
        while i < num_tables
            invariant
                r.data() == s,
                s == input@,
                file_len == s.len(),
                r.pos() == 12 + 16 * i,
                r.wf(),
                i <= num_tables,
                num_tables == be16(s, 4),
                num_tables != 0,
                s.len() >= 12,
                flavor == be32(s, 0),
                flavor_check(flavor) is Ok,
                sfnt_entries(s, i as nat) == Ok::<Seq<TableModel>, ErrorModel>(tables_view(tables@)),
            decreases num_tables - i,
        {
            proof { lemma_sfnt_entries_len(s, i as nat); }
            let tag = match r.tag("table directory entry") {
                Ok(t) => t,
                Err(e) => {
                    proof { lemma_sfnt_entries_err_stands(s, (i + 1) as nat, num_tables as nat); }
                    return Err(e);
                },
            };
            let _checksum = match r.u32("table checksum") {
                Ok(v) => v,
                Err(e) => {
                    proof { lemma_sfnt_entries_err_stands(s, (i + 1) as nat, num_tables as nat); }
                    return Err(e);
                },
            };
            let offset = match r.u32("table offset") {
                Ok(v) => v,
                Err(e) => {
                    proof { lemma_sfnt_entries_err_stands(s, (i + 1) as nat, num_tables as nat); }
                    return Err(e);
                },
            };
            let length = match r.u32("table length") {
                Ok(v) => v,
                Err(e) => {
                    proof { lemma_sfnt_entries_err_stands(s, (i + 1) as nat, num_tables as nat); }
                    return Err(e);
                },
            };
            let start = offset as usize;
            let in_bounds = match start.checked_add(length as usize) {
                Some(end) => end <= file_len,
                None => false,
            };
            if !in_bounds {
                proof { lemma_sfnt_entries_err_stands(s, (i + 1) as nat, num_tables as nat); }
                return Err(FontError::TableOutOfBounds { tag, offset, length, file_len });
            }
            let end = start + length as usize;
            let data = copy_bytes(&input[start..end]);
            let ghost before = tables@;
            tables.push(Table { tag, data });
            assert(tables_view(tables@) =~= tables_view(before).push(tables@[i as int]@));
            i = i + 1;
        }
        proof { lemma_sfnt_entries_len(s, num_tables as nat); }
        Self::reject_duplicate_tags(tables.as_slice())?;
        Ok(Font { flavor, tables })
    }

    /// Serialise to a bare TTF/OTF, recomputing every checksum.
    pub fn to_sfnt(&self) -> (out: Vec<u8>)
        requires
            sfnt_writable(self@),
        ensures
            out@ == sfnt_bytes(self@),
            out@.len() == sfnt_size_of(self@.tables),
            // The binary-search fields: searchRange is sixteen times the
            // largest power of two not above the table count.
            1 <= self@.tables.len() < 4096 ==> {
                let p = pow2(be16(out@, 8) as nat) as int;
                &&& p <= self@.tables.len() < 2 * p
                &&& be16(out@, 6) == 16 * p
                &&& be16(out@, 10) == 16 * self@.tables.len() - 16 * p
            },
    {
        // The directory must be sorted by tag; table data follows in the same order.
        let tables = sorted_by_tag(&self.tables);
        proof {
            lemma_sort_keeps_size(self@.tables);
            lemma_tables_four_byte_tags(tables@);
        }
        proof {
            lemma_tables_four_byte_tags(self.tables@);
            crate::round_trip::lemma_sfnt_length(self@);
            if self@.tables.len() < 4096 {
                crate::round_trip::lemma_sfnt_search_fields(self@);
            }
        }
        write_sorted(self.flavor, &tables)
    }

    /// Size this font occupies once written as sfnt, which WOFF headers declare.
    pub fn sfnt_size(&self) -> (n: usize)
        requires
            sfnt_size_of(self@.tables) <= usize::MAX,
        ensures
            n == sfnt_size_of(self@.tables),
    {
        sfnt_size_for(&self.tables)
    }
}

/// Size the sfnt form of these tables occupies.
pub fn sfnt_size_for(tables: &Vec<Table>) -> (n: usize)
    requires
        sfnt_size_of(tables_view(tables@)) <= usize::MAX,
    ensures
        n == sfnt_size_of(tables_view(tables@)),
{
    let ghost ts = tables_view(tables@);
    proof { lemma_sum_padded_mono(ts, 0, ts.len()); }
    let mut sum: usize = 0;
    let mut i: usize = 0;
    while i < tables.len()
        invariant
            i <= tables@.len(),
            ts == tables_view(tables@),
            sum == sum_padded(ts, i as nat),
            12 + 16 * ts.len() + sum_padded(ts, ts.len()) <= usize::MAX,
        decreases tables@.len() - i,
    {
        proof {
            lemma_sum_padded_mono(ts, (i + 1) as nat, ts.len());
            lemma_sum_padded_mono(ts, 0, i as nat);
            lemma_round4(tables@[i as int].data@.len() as int);
        }
        sum = sum + align4(tables[i].data.len());
        i = i + 1;
    }
    12 + 16 * tables.len() + sum
}

} // verus!
