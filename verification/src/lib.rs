//! Kombussy: a font container codec for OpenType, WOFF and WOFF2.
//!
//! Every supported container decodes into [`Font`], and every container is
//! written back out from that same type, so conversion is always
//! `decode -> Font -> encode` with no format-specific special cases.

pub mod base128;
pub mod bytes;
pub mod error;
pub mod glyf_transform;
pub mod message;
pub mod read;
pub mod round_trip;
pub mod sfnt;
pub mod tags;
pub mod woff1;
pub mod woff2;
pub mod woff_round_trip;

pub use error::{FontError, Result};
pub use sfnt::{Font, Table};

use crate::bytes::{be32, lemma_be32_roundtrip, u32_be};
use crate::error::{truncated, ErrorModel};
use crate::round_trip::{same_content, sfnt_round_trips};
use crate::sfnt::{
    flavor_check, font_result, parse_sfnt_spec, sfnt_bytes, sfnt_size_of, sfnt_writable, sort_by_tag, sum_padded, FontModel,
    FLAVOR_CFF, FLAVOR_TRUE, FLAVOR_TRUETYPE,
};
use crate::tags::tag_value;
use crate::woff1::{is_woff1_spec, woff1_bytes, woff1_decode_spec, woff1_round_trips, woff1_writable};
use crate::woff2::{bytes_result, is_woff2_spec, woff2_decode_spec, woff2_encode_spec, woff2_round_trips, woff2_writable};
use vstd::string::StringSliceAdditionalSpecFns;
use vstd::prelude::*;

verus! {

/// The container formats this crate can read and write.
#[derive(Debug, Clone, Copy, PartialEq, Eq, Structural)]
pub enum Format {
    /// Bare `sfnt`: `.ttf` or `.otf`, depending on the outline flavor.
    Sfnt,
    Woff1,
    Woff2,
}

impl Format {
    /// The file extension a converted font should be given. OTF and TTF share a
    /// container, so the outline flavor decides between them.
    pub fn extension(self, flavor: u32) -> (r: &'static str)
        ensures
            r@ == match self {
                Format::Sfnt => if flavor == FLAVOR_CFF { "otf"@ } else { "ttf"@ },
                Format::Woff1 => "woff"@,
                Format::Woff2 => "woff2"@,
            },
    {
        match self {
            Format::Sfnt if flavor == FLAVOR_CFF => "otf",
            Format::Sfnt => "ttf",
            Format::Woff1 => "woff",
            Format::Woff2 => "woff2",
        }
    }

    /// The media type of the container.
    pub fn mime_type(self) -> (r: &'static str)
        ensures
            r@ == match self {
                Format::Sfnt => "font/otf"@,
                Format::Woff1 => "font/woff"@,
                Format::Woff2 => "font/woff2"@,
            },
    {
        match self {
            Format::Sfnt => "font/otf",
            Format::Woff1 => "font/woff",
            Format::Woff2 => "font/woff2",
        }
    }
}

/// The format a target name asks for: `ttf`, `otf` or `sfnt`; `woff` or
/// `woff1`; `woff2`. The name is taken as its UTF-8 bytes.
pub open spec fn format_named(name: Seq<u8>) -> Option<Format> {
    if name == seq![0x74u8, 0x74, 0x66] || name == seq![0x6Fu8, 0x74, 0x66] || name == seq![0x73u8, 0x66, 0x6E, 0x74] {
        Some(Format::Sfnt)
    } else if name == seq![0x77u8, 0x6F, 0x66, 0x66] || name == seq![0x77u8, 0x6F, 0x66, 0x66, 0x31] {
        Some(Format::Woff1)
    } else if name == seq![0x77u8, 0x6F, 0x66, 0x66, 0x32] {
        Some(Format::Woff2)
    } else {
        None
    }
}

/// Whether `b` holds exactly the bytes of `want`.
fn bytes_are(b: &[u8], want: &[u8]) -> (r: bool)
    ensures
        r == (b@ == want@),
{
    if b.len() != want.len() {
        return false;
    }
    let mut i: usize = 0;
    while i < b.len()
        invariant
            b@.len() == want@.len(),
            i <= b@.len(),
            forall|k: int| 0 <= k < i ==> b@[k] == want@[k],
        decreases b@.len() - i,
    {
        if b[i] != want[i] {
            return false;
        }
        i = i + 1;
    }
    assert(b@ =~= want@);
    true
}

impl Format {
    /// The format a target name asks for (see [`format_named`]).
    pub fn from_name(name: &str) -> (r: Option<Format>)
        ensures
            r == format_named(name.spec_bytes()),
    {
        let b = name.as_bytes();
        let ttf: [u8; 3] = [0x74, 0x74, 0x66];
        let otf: [u8; 3] = [0x6F, 0x74, 0x66];
        let sfnt: [u8; 4] = [0x73, 0x66, 0x6E, 0x74];
        let woff: [u8; 4] = [0x77, 0x6F, 0x66, 0x66];
        let woff1: [u8; 5] = [0x77, 0x6F, 0x66, 0x66, 0x31];
        let woff2: [u8; 5] = [0x77, 0x6F, 0x66, 0x66, 0x32];
        assert(ttf@ =~= seq![0x74u8, 0x74, 0x66]);
        assert(otf@ =~= seq![0x6Fu8, 0x74, 0x66]);
        assert(sfnt@ =~= seq![0x73u8, 0x66, 0x6E, 0x74]);
        assert(woff@ =~= seq![0x77u8, 0x6F, 0x66, 0x66]);
        assert(woff1@ =~= seq![0x77u8, 0x6F, 0x66, 0x66, 0x31]);
        assert(woff2@ =~= seq![0x77u8, 0x6F, 0x66, 0x66, 0x32]);
        if bytes_are(b, ttf.as_slice()) || bytes_are(b, otf.as_slice()) || bytes_are(b, sfnt.as_slice()) {
            Some(Format::Sfnt)
        } else if bytes_are(b, woff.as_slice()) || bytes_are(b, woff1.as_slice()) {
            Some(Format::Woff1)
        } else if bytes_are(b, woff2.as_slice()) {
            Some(Format::Woff2)
        } else {
            None
        }
    }
}

/// Which container `s` holds, judged by its leading magic bytes.
pub open spec fn detect_spec(s: Seq<u8>) -> core::result::Result<Format, ErrorModel> {
    if is_woff1_spec(s) {
        Ok(Format::Woff1)
    } else if is_woff2_spec(s) {
        Ok(Format::Woff2)
    } else if s.len() < 4 {
        Err(truncated(4, s.len() as int, "container magic"))
    } else {
        let v = be32(s, 0);
        if v == FLAVOR_TRUETYPE || v == FLAVOR_CFF || v == FLAVOR_TRUE {
            Ok(Format::Sfnt)
        } else {
            Err(ErrorModel::UnknownContainer { magic: s.subrange(0, 4) })
        }
    }
}

/// The model of a format result.
pub open spec fn format_result(r: Result<Format>) -> core::result::Result<Format, ErrorModel> {
    match r {
        Ok(f) => Ok(f),
        Err(e) => Err(e@),
    }
}

/// What decoding `s`, whatever container it holds, gives.
pub open spec fn decode_spec(s: Seq<u8>) -> core::result::Result<FontModel, ErrorModel> {
    match detect_spec(s) {
        Err(e) => Err(e),
        Ok(Format::Sfnt) => parse_sfnt_spec(s),
        Ok(Format::Woff1) => woff1_decode_spec(s),
        Ok(Format::Woff2) => woff2_decode_spec(s),
    }
}

/// What encoding `font` in `target` gives.
pub open spec fn encode_spec(font: FontModel, target: Format) -> core::result::Result<Seq<u8>, ErrorModel> {
    match target {
        Format::Sfnt => Ok(sfnt_bytes(font)),
        Format::Woff1 => Ok(woff1_bytes(font)),
        Format::Woff2 => woff2_encode_spec(font),
    }
}

/// A font whose `target` form can be laid out in memory: the sizes that the
/// writer adds up fit in `usize`.
pub open spec fn encodable(font: FontModel, target: Format) -> bool {
    match target {
        Format::Sfnt => sfnt_writable(font),
        Format::Woff1 => woff1_writable(font),
        Format::Woff2 => woff2_writable(font),
    }
}

/// The conditions under which the `target` form of a font reads back.
pub open spec fn round_trips(font: FontModel, target: Format) -> bool {
    match target {
        Format::Sfnt => sfnt_round_trips(font),
        Format::Woff1 => woff1_round_trips(font),
        Format::Woff2 => woff2_round_trips(font),
    }
}

/// `back` holds the content of `font`: its flavor, and its tables in tag
/// order, each with the same content.
pub open spec fn holds_content_of(back: FontModel, font: FontModel) -> bool {
    &&& back.flavor == font.flavor
    &&& back.tables.len() == font.tables.len()
    &&& forall|i: int| 0 <= i < back.tables.len() ==> #[trigger] same_content(back.tables[i], sort_by_tag(font.tables)[i])
}

/// What converting `s` to `target` gives.
pub open spec fn convert_spec(s: Seq<u8>, target: Format) -> core::result::Result<Seq<u8>, ErrorModel> {
    match decode_spec(s) {
        Err(e) => Err(e),
        Ok(font) => encode_spec(font, target),
    }
}

/// Whether the font that `s` decodes to, if any, can be written as `target`.
pub open spec fn convertible(s: Seq<u8>, target: Format) -> bool {
    decode_spec(s) matches Ok(font) ==> encodable(font, target)
}

/// Identify a container from its leading magic bytes.
pub fn detect(input: &[u8]) -> (r: Result<Format>)
    ensures
        format_result(r) == detect_spec(input@),
{
    if woff1::is_woff1(input) {
        return Ok(Format::Woff1);
    }
    if woff2::is_woff2(input) {
        return Ok(Format::Woff2);
    }
    if input.len() < 4 {
        return Err(FontError::Truncated { needed: 4, available: input.len(), while_reading: "container magic" });
    }
    let magic: [u8; 4] = [input[0], input[1], input[2], input[3]];
    assert(magic@ =~= input@.subrange(0, 4));
    let v = tag_value(&magic);
    if v == FLAVOR_TRUETYPE || v == FLAVOR_CFF || v == FLAVOR_TRUE {
        Ok(Format::Sfnt)
    } else {
        Err(FontError::UnknownContainer { magic })
    }
}

/// Decode any supported container into the shared [`Font`] model.
pub fn decode(input: &[u8]) -> (r: Result<Font>)
    ensures
        font_result(r) == decode_spec(input@),
{
    match detect(input)? {
        Format::Sfnt => Font::parse_sfnt(input),
        Format::Woff1 => woff1::decode(input),
        Format::Woff2 => woff2::decode(input),
    }
}

/// Write a [`Font`] out in the requested container.
pub fn encode(font: &Font, target: Format) -> (r: Result<Vec<u8>>)
    requires
        encodable(font@, target),
    ensures
        bytes_result(r) == encode_spec(font@, target),
        // The output is recognised as the container it was written as.
        r matches Ok(v) ==> (flavor_check(font.flavor) is Ok ==> detect_spec(v@) == Ok::<Format, ErrorModel>(target)),
        // Decoding the output gives the content back.
        r matches Ok(v) ==> (round_trips(font@, target) && v@.len() <= u32::MAX ==> (decode_spec(v@) matches Ok(back)
            && holds_content_of(back, font@))),
{
    let r = match target {
        Format::Sfnt => Ok(font.to_sfnt()),
        Format::Woff1 => Ok(woff1::encode(font)),
        Format::Woff2 => woff2::encode(font),
    };
    proof {
        if r is Ok {
            let v = r->Ok_0@;
            if flavor_check(font.flavor) is Ok {
                lemma_detect_written(font@, target, v);
            }
            if round_trips(font@, target) && v.len() <= u32::MAX {
                lemma_content_read_back(font@, target, v);
            }
        }
    }
    r
}

proof fn lemma_magics_differ()
    ensures
        u32_be(crate::woff1::WOFF1_MAGIC) != u32_be(crate::woff2::WOFF2_MAGIC),
        forall|f: u32| flavor_check(f) is Ok ==> u32_be(f) != u32_be(crate::woff1::WOFF1_MAGIC) && u32_be(f) != u32_be(
            crate::woff2::WOFF2_MAGIC,
        ),
{
    lemma_be32_roundtrip(crate::woff1::WOFF1_MAGIC);
    lemma_be32_roundtrip(crate::woff2::WOFF2_MAGIC);
    assert forall|f: u32| flavor_check(f) is Ok implies u32_be(f) != u32_be(crate::woff1::WOFF1_MAGIC) && u32_be(f)
        != u32_be(crate::woff2::WOFF2_MAGIC) by {
        lemma_be32_roundtrip(f);
    }
}

/// A file's first four bytes decide what it is detected as.
proof fn lemma_detect_by_magic(v: Seq<u8>, magic: u32)
    requires
        v.len() >= 4,
        v.subrange(0, 4) == u32_be(magic),
        magic == crate::woff1::WOFF1_MAGIC || magic == crate::woff2::WOFF2_MAGIC || flavor_check(magic) is Ok,
    ensures
        detect_spec(v) == Ok::<Format, ErrorModel>(
            if magic == crate::woff1::WOFF1_MAGIC {
                Format::Woff1
            } else if magic == crate::woff2::WOFF2_MAGIC {
                Format::Woff2
            } else {
                Format::Sfnt
            },
        ),
{
    lemma_magics_differ();
    lemma_be32_roundtrip(magic);
    assert(u32_be(magic).subrange(0, 4) =~= u32_be(magic));
    crate::bytes::lemma_be32_window(v, u32_be(magic), 0, 0);
}

proof fn lemma_woff1_magic(font: FontModel)
    ensures
        woff1_bytes(font).len() >= 4,
        woff1_bytes(font).subrange(0, 4) == u32_be(crate::woff1::WOFF1_MAGIC),
{
    let ts = sort_by_tag(font.tables);
    let header = crate::woff1::woff1_header(font.flavor, ts, sfnt_size_of(font.tables));
    assert(woff1_bytes(font).subrange(0, 4) =~= header.subrange(0, 4));
    assert(header.subrange(0, 4) =~= u32_be(crate::woff1::WOFF1_MAGIC));
}

proof fn lemma_woff2_magic(font: FontModel, v: Seq<u8>)
    requires
        woff2_encode_spec(font) == Ok::<Seq<u8>, ErrorModel>(v),
    ensures
        v.len() >= 4,
        v.subrange(0, 4) == u32_be(crate::woff2::WOFF2_MAGIC),
{
    let ts = crate::woff2::woff2_tables_out(font);
    let dir = crate::woff2::woff2_dir(ts, ts.len());
    let c = crate::woff2::brotli_encoded(
        crate::woff2::woff2_block(ts, ts.len()),
        crate::woff2::BROTLI_BUFFER,
        crate::woff2::BROTLI_QUALITY,
        crate::woff2::BROTLI_WINDOW_BITS,
    )->Some_0;
    let header = crate::woff2::woff2_header(
        font.flavor,
        ts.len(),
        sfnt_size_of(ts),
        crate::woff2::HEADER_LEN + dir.len() + c.len(),
        c.len() as int,
    );
    assert(v == header + dir + c);
    assert(v.subrange(0, 4) =~= header.subrange(0, 4));
    assert(header.subrange(0, 4) =~= u32_be(crate::woff2::WOFF2_MAGIC));
}

/// What `encode` wrote is detected as `target`.
proof fn lemma_detect_written(font: FontModel, target: Format, v: Seq<u8>)
    requires
        encode_spec(font, target) == Ok::<Seq<u8>, ErrorModel>(v),
        flavor_check(font.flavor) is Ok,
    ensures
        detect_spec(v) == Ok::<Format, ErrorModel>(target),
{
    lemma_magics_differ();
    match target {
        Format::Sfnt => {
            crate::round_trip::lemma_sfnt_starts_with_flavor(font);
            lemma_be32_roundtrip(font.flavor);
            lemma_detect_by_magic(v, font.flavor);
        },
        Format::Woff1 => {
            lemma_woff1_magic(font);
            lemma_detect_by_magic(v, crate::woff1::WOFF1_MAGIC);
        },
        Format::Woff2 => {
            lemma_woff2_magic(font, v);
            lemma_detect_by_magic(v, crate::woff2::WOFF2_MAGIC);
        },
    }
}

/// Decoding what `encode` wrote gives the content back.
proof fn lemma_content_read_back(font: FontModel, target: Format, v: Seq<u8>)
    requires
        encode_spec(font, target) == Ok::<Seq<u8>, ErrorModel>(v),
        round_trips(font, target),
        v.len() <= u32::MAX,
        match target {
            Format::Sfnt => true,
            Format::Woff1 => woff1_decode_spec(v) == Ok::<FontModel, ErrorModel>(
                FontModel { flavor: font.flavor, tables: sort_by_tag(font.tables) },
            ),
            Format::Woff2 => woff2_decode_spec(v) == Ok::<FontModel, ErrorModel>(
                FontModel { flavor: font.flavor, tables: crate::woff2::woff2_tables_out(font) },
            ),
        },
    ensures
        decode_spec(v) matches Ok(back) && holds_content_of(back, font),
{
    let flavor_ok = match target {
        Format::Sfnt => flavor_check(font.flavor) is Ok,
        Format::Woff1 => flavor_check(font.flavor) is Ok,
        Format::Woff2 => flavor_check(font.flavor) is Ok,
    };
    assert(flavor_ok);
    lemma_detect_written(font, target, v);
    crate::sfnt::lemma_sort_by_tag(font.tables);
    let ts = sort_by_tag(font.tables);
    match target {
        Format::Sfnt => {
            crate::round_trip::lemma_sfnt_round_trip(font);
            let back = parse_sfnt_spec(v)->Ok_0;
            assert forall|i: int| 0 <= i < back.tables.len() implies #[trigger] same_content(back.tables[i], ts[i]) by {
                crate::round_trip::lemma_adjustment_is_content(back.tables[i], ts[i]);
            }
        },
        Format::Woff1 => {
            assert forall|i: int| 0 <= i < ts.len() implies #[trigger] same_content(ts[i], ts[i]) by {}
        },
        Format::Woff2 => {
            crate::woff_round_trip::lemma_mark_is_content(ts);
        },
    }
}

/// Convert between any two supported containers in one call.
pub fn convert(input: &[u8], target: Format) -> (r: Result<Vec<u8>>)
    requires
        convertible(input@, target),
    ensures
        bytes_result(r) == convert_spec(input@, target),
{
    let font = decode(input)?;
    encode(&font, target)
}

/// Whether `font` can be written as `target` (see [`encodable`]).
pub fn fits(font: &Font, target: Format) -> (b: bool)
    ensures
        b == encodable(font@, target),
{
    let ghost ts = font@.tables;
    let n = font.tables.len();
    proof { crate::sfnt::lemma_sum_padded_mono(ts, 0, n as nat); }
    // The sfnt size, added up with every step checked.
    let mut size: usize = match n.checked_mul(16) {
        Some(d) => match d.checked_add(12) {
            Some(s) => s,
            None => return false,
        },
        None => return false,
    };
    let mut i: usize = 0;
    while i < n
        invariant
            n == font.tables@.len(),
            ts == font@.tables,
            i <= n,
            16 * n + 12 <= usize::MAX,
            size == 12 + 16 * n + sum_padded(ts, i as nat),
        decreases n - i,
    {
        assert(ts[i as int] == font.tables@[i as int]@);
        let len = font.tables[i].data.len();
        proof {
            crate::sfnt::lemma_sum_padded_mono(ts, (i + 1) as nat, n as nat);
            crate::sfnt::lemma_sum_padded_mono(ts, 0, i as nat);
            crate::sfnt::lemma_round4(len as int);
        }
        if len > usize::MAX - 3 {
            return false;
        }
        let padded = crate::sfnt::align4(len);
        if padded > usize::MAX - size {
            return false;
        }
        size = size + padded;
        i = i + 1;
    }
    match target {
        Format::Sfnt => n < 0x1000_0000,
        Format::Woff2 => true,
        Format::Woff1 => size <= usize::MAX - 32 - 4 * n,
    }
}

/// Convert between any two containers, but only where the decoded font can be
/// written as `target`; `None` when it cannot.
pub fn try_convert(input: &[u8], target: Format) -> (r: Option<Result<Vec<u8>>>)
    ensures
        match r {
            None => decode_spec(input@) matches Ok(font) && !encodable(font, target),
            Some(x) => convertible(input@, target) && bytes_result(x) == convert_spec(input@, target),
        },
{
    let font = match decode(input) {
        Ok(font) => font,
        Err(e) => return Some(Err(e)),
    };
    if fits(&font, target) {
        Some(encode(&font, target))
    } else {
        None
    }
}

} // verus!
