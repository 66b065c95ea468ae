//! Reconstruction of the WOFF2 `glyf`/`loca` transform.
//!
//! The transform replaces `glyf` with seven parallel substreams and a triplet
//! coordinate encoding, so recovering a font means rebuilding the outlines
//! rather than decompressing bytes. The transform is lossless for outlines,
//! not for bytes: the original glyph's flag repetition and coordinate widths
//! are discarded, so a rebuilt glyph is written in plain form.

use crate::bytes::{be16, be32, copy_bytes, push_bytes, push_u16, push_u32, push_zeros, u16_be, u32_be};
use crate::error::{ErrorModel, FontError, Result};
use crate::read::{read_u16_at, read_u32_at, read_u8_at, take_at, Reader};
use crate::sfnt::{align4, padded, zeros};
use crate::tags::tag_from_value;
use vstd::prelude::*;

verus! {

/// The tag 'glyf' as a number.
pub const GLYF_TAG_NUMBER: u32 = 0x676c_7966;
/// Bytes before the first substream: version, glyph count, index format and
/// seven substream sizes.
pub const TRANSFORM_HEADER_LEN: usize = 36;

// Composite glyph component flags, from the OpenType `glyf` table.
pub const ARG_1_AND_2_ARE_WORDS: u16 = 0x0001;
pub const WE_HAVE_A_SCALE: u16 = 0x0008;
pub const MORE_COMPONENTS: u16 = 0x0020;
pub const WE_HAVE_AN_X_AND_Y_SCALE: u16 = 0x0040;
pub const WE_HAVE_A_TWO_BY_TWO: u16 = 0x0080;
pub const WE_HAVE_INSTRUCTIONS: u16 = 0x0100;

// Simple glyph point flags, from the OpenType `glyf` table.
pub const FLAG_ON_CURVE: u8 = 0x01;
pub const FLAG_X_SHORT: u8 = 0x02;
pub const FLAG_Y_SHORT: u8 = 0x04;
pub const FLAG_X_SAME_OR_POSITIVE: u8 = 0x10;
pub const FLAG_Y_SAME_OR_POSITIVE: u8 = 0x20;

/// The rebuilt tables.
pub struct Reconstructed {
    pub glyf: Vec<u8>,
    pub loca: Vec<u8>,
}

/// A decoded outline point in absolute font units.
#[derive(Clone, Copy)]
pub struct Point {
    pub x: i32,
    pub y: i32,
    pub on_curve: bool,
}

/// The error every malformed transformed-`glyf` structure reports.
pub open spec fn glyf_err(detail: &'static str) -> ErrorModel {
    ErrorModel::Decompress { tag: Some(u32_be(GLYF_TAG_NUMBER)), detail }
}

fn err(detail: &'static str) -> (e: FontError)
    ensures
        e@ == glyf_err(detail),
{
    FontError::Decompress { tag: Some(tag_from_value(GLYF_TAG_NUMBER)), detail }
}

// ---------------------------------------------------------------------------
// 255UInt16

/// Reading a WOFF2 `255UInt16` at `pos` of `s`: small values in one byte, two
/// escape codes for the next two ranges and a third for a full 16-bit value.
pub open spec fn read_255_at(s: Seq<u8>, pos: int) -> core::result::Result<(u16, int), ErrorModel> {
    match read_u8_at(s, pos, "255UInt16 code") {
        Err(e) => Err(e),
        Ok((code, p)) => if code == 253 {
            read_u16_at(s, p, "255UInt16 word")
        } else if code == 255 {
            match read_u8_at(s, p, "255UInt16 byte") {
                Err(e) => Err(e),
                Ok((b, q)) => Ok(((b as int + 253) as u16, q)),
            }
        } else if code == 254 {
            match read_u8_at(s, p, "255UInt16 byte") {
                Err(e) => Err(e),
                Ok((b, q)) => Ok(((b as int + 506) as u16, q)),
            }
        } else {
            Ok((code as u16, p))
        },
    }
}

/// Read a `255UInt16` at the cursor.
pub fn read_255_u16(r: &mut Reader<'_>) -> (res: Result<u16>)
    ensures
        final(r).data() == old(r).data(),
        match res {
            Ok(v) => read_255_at(old(r).data(), old(r).pos()) == Ok::<(u16, int), ErrorModel>((v, final(r).pos())),
            Err(e) => read_255_at(old(r).data(), old(r).pos()) == Err::<(u16, int), ErrorModel>(e@),
        },
{
    let code = r.u8("255UInt16 code")?;
    if code == 253 {
        r.u16("255UInt16 word")
    } else if code == 255 {
        let b = r.u8("255UInt16 byte")?;
        Ok(b as u16 + 253)
    } else if code == 254 {
        let b = r.u8("255UInt16 byte")?;
        Ok(b as u16 + 506)
    } else {
        Ok(code as u16)
    }
}

// ---------------------------------------------------------------------------
// Triplets

/// `value` with the sign the low bit of `bit` selects (set: positive).
pub open spec fn with_sign(bit: u8, value: int) -> int {
    if bit % 2 == 1 { value } else { -value }
}

/// Byte `i` of a triplet's data, zero past its end.
pub open spec fn triplet_byte(data: Seq<u8>, i: int) -> int {
    if 0 <= i < data.len() { data[i] as int } else { 0 }
}

/// The delta pair a triplet encodes. The bracket boundaries are normative.
pub open spec fn triplet_delta(flag: u8, data: Seq<u8>) -> (int, int) {
    let b0 = triplet_byte(data, 0);
    let b1 = triplet_byte(data, 1);
    let b2 = triplet_byte(data, 2);
    let b3 = triplet_byte(data, 3);
    let f = flag as int;
    if flag < 10 {
        (0, with_sign(flag, (f - f % 2) * 128 + b0))
    } else if flag < 20 {
        (with_sign(flag, ((f - 10) - (f - 10) % 2) * 128 + b0), 0)
    } else if flag < 84 {
        let c = f - 20;
        (with_sign(flag, 1 + (c / 16) * 16 + b0 / 16), with_sign(flag / 2, 1 + ((c / 4) % 4) * 16 + b0 % 16))
    } else if flag < 120 {
        let c = f - 84;
        (with_sign(flag, 1 + (c / 12) * 256 + b0), with_sign(flag / 2, 1 + ((c % 12) / 4) * 256 + b1))
    } else if flag < 124 {
        (with_sign(flag, b0 * 16 + b1 / 16), with_sign(flag / 2, (b1 % 16) * 256 + b2))
    } else {
        (with_sign(flag, b0 * 256 + b1), with_sign(flag / 2, b2 * 256 + b3))
    }
}

/// How many data bytes the triplet for this flag consumes.
pub open spec fn triplet_len(flag: u8) -> int {
    if flag <= 83 { 1 } else if flag <= 119 { 2 } else if flag <= 123 { 3 } else { 4 }
}

fn sign(bit: u8, value: i32) -> (r: i32)
    requires
        -0x20000 <= value <= 0x20000,
    ensures
        r == with_sign(bit, value as int),
{
    if bit % 2 == 1 { value } else { -value }
}

fn data_byte(data: &[u8], i: usize) -> (b: i32)
    ensures
        b == triplet_byte(data@, i as int),
        0 <= b < 256,
{
    if i < data.len() { data[i] as i32 } else { 0 }
}

/// The delta pair encoded by a triplet's flag and data bytes.
pub fn decode_triplet(flag: u8, data: &[u8]) -> (r: (i32, i32))
    ensures
        r.0 as int == triplet_delta(flag, data@).0,
        r.1 as int == triplet_delta(flag, data@).1,
{
    let b0 = data_byte(data, 0);
    let b1 = data_byte(data, 1);
    let b2 = data_byte(data, 2);
    let b3 = data_byte(data, 3);
    let f = flag as i32;
    if flag < 10 {
        (0, sign(flag, (f - f % 2) * 128 + b0))
    } else if flag < 20 {
        (sign(flag, ((f - 10) - (f - 10) % 2) * 128 + b0), 0)
    } else if flag < 84 {
        let c = f - 20;
        (sign(flag, 1 + (c / 16) * 16 + b0 / 16), sign(flag / 2, 1 + ((c / 4) % 4) * 16 + b0 % 16))
    } else if flag < 120 {
        let c = f - 84;
        (sign(flag, 1 + (c / 12) * 256 + b0), sign(flag / 2, 1 + ((c % 12) / 4) * 256 + b1))
    } else if flag < 124 {
        (sign(flag, b0 * 16 + b1 / 16), sign(flag / 2, (b1 % 16) * 256 + b2))
    } else {
        (sign(flag, b0 * 256 + b1), sign(flag / 2, b2 * 256 + b3))
    }
}

/// How many data bytes the triplet for this flag consumes.
pub fn triplet_byte_count(flag: u8) -> (n: usize)
    ensures
        n == triplet_len(flag),
{
    if flag <= 83 {
        1
    } else if flag <= 119 {
        2
    } else if flag <= 123 {
        3
    } else {
        4
    }
}

// ---------------------------------------------------------------------------
// Bounding-box bitmap

/// Whether the bitmap marks glyph `glyph_index` as carrying an explicit bbox:
/// one bit per glyph, most significant bit first.
pub open spec fn bbox_bit(bitmap: Seq<u8>, glyph_index: u16) -> bool {
    let byte = glyph_index as int / 8;
    let bit = (7 - glyph_index % 8) as u8;
    0 <= byte < bitmap.len() && (bitmap[byte] >> bit) & 1u8 == 1u8
}

/// Whether glyph `glyph_index` has an explicit bounding box.
pub fn has_bbox(bitmap: &[u8], glyph_index: u16) -> (b: bool)
    ensures
        b == bbox_bit(bitmap@, glyph_index),
{
    let byte = (glyph_index / 8) as usize;
    let bit = (7 - glyph_index % 8) as u8;
    if byte < bitmap.len() {
        (bitmap[byte] >> bit) & 1u8 == 1u8
    } else {
        false
    }
}

// ---------------------------------------------------------------------------
// Composite glyphs

/// Bytes of arguments a component with these flags carries.
pub open spec fn component_args_len(flags: u16) -> int {
    if flags & ARG_1_AND_2_ARE_WORDS != 0 { 4 } else { 2 }
}

/// Bytes of transform a component with these flags carries.
pub open spec fn component_scale_len(flags: u16) -> int {
    if flags & WE_HAVE_A_SCALE != 0 {
        2
    } else if flags & WE_HAVE_AN_X_AND_Y_SCALE != 0 {
        4
    } else if flags & WE_HAVE_A_TWO_BY_TWO != 0 {
        8
    } else {
        0
    }
}

/// Scanning composite components from `pos` of `s`, with `have` recording
/// whether an earlier component asked for instructions: where the last
/// component ends and whether any asked for instructions, or the error.
pub open spec fn scan_components(s: Seq<u8>, pos: int, have: bool) -> core::result::Result<(int, bool), ErrorModel>
    decreases s.len() - pos,
{
    match read_u16_at(s, pos, "composite component flags") {
        Err(e) => Err(e),
        Ok((flags, p1)) => match take_at(s, p1, 2, "composite glyph index") {
            Err(e) => Err(e),
            Ok((_, p2)) => match take_at(s, p2, component_args_len(flags), "composite arguments") {
                Err(e) => Err(e),
                Ok((_, p3)) => {
                    let scale = component_scale_len(flags);
                    let scaled = if scale == 2 {
                        take_at(s, p3, 2, "composite scale")
                    } else if scale == 4 {
                        take_at(s, p3, 4, "composite x/y scale")
                    } else if scale == 8 {
                        take_at(s, p3, 8, "composite 2x2 transform")
                    } else {
                        Ok((Seq::empty(), p3))
                    };
                    match scaled {
                        Err(e) => Err(e),
                        Ok((_, p4)) => {
                            let h = have || flags & WE_HAVE_INSTRUCTIONS != 0;
                            if flags & MORE_COMPONENTS == 0 {
                                Ok((p4, h))
                            } else if p4 > pos && p4 <= s.len() {
                                scan_components(s, p4, h)
                            } else {
                                Err(glyf_err("composite component data out of range"))
                            }
                        },
                    }
                },
            },
        },
    }
}

/// Measure a composite glyph's component data, which is already in final form
/// and only needs copying: its length and whether any component asks for
/// instructions.
pub fn composite_length(r: &mut Reader<'_>) -> (res: Result<(usize, bool)>)
    requires
        old(r).wf(),
    ensures
        final(r).data() == old(r).data(),
        match res {
            Ok((len, have)) => scan_components(old(r).data(), old(r).pos(), false)
                == Ok::<(int, bool), ErrorModel>((final(r).pos(), have)) && len == final(r).pos() - old(r).pos()
                && final(r).wf(),
            Err(e) => scan_components(old(r).data(), old(r).pos(), false) == Err::<(int, bool), ErrorModel>(e@),
        },
{
    let ghost s = r.data();
    let ghost p0 = r.pos();
    let start = r.position();
    let mut have_instructions = false;
    loop
        invariant
            r.data() == s,
            s == old(r).data(),
            p0 == old(r).pos(),
            start == p0,
            r.wf(),
            p0 <= r.pos(),
            scan_components(s, r.pos(), have_instructions) == scan_components(s, p0, false),
        decreases s.len() - r.pos(),
    {
        let ghost here = r.pos();
        let flags = r.u16("composite component flags")?;
        r.skip(2, "composite glyph index")?;
        r.skip(if flags & ARG_1_AND_2_ARE_WORDS != 0 { 4 } else { 2 }, "composite arguments")?;
        if flags & WE_HAVE_A_SCALE != 0 {
            r.skip(2, "composite scale")?;
        } else if flags & WE_HAVE_AN_X_AND_Y_SCALE != 0 {
            r.skip(4, "composite x/y scale")?;
        } else if flags & WE_HAVE_A_TWO_BY_TWO != 0 {
            r.skip(8, "composite 2x2 transform")?;
        }
        have_instructions = have_instructions || flags & WE_HAVE_INSTRUCTIONS != 0;
        if flags & MORE_COMPONENTS == 0 {
            return Ok((r.position() - start, have_instructions));
        }
    }
}

// ---------------------------------------------------------------------------
// Substreams

/// The substreams of a transformed `glyf` table.
pub struct StreamsModel {
    pub n_contour: Seq<u8>,
    pub n_points: Seq<u8>,
    pub flags: Seq<u8>,
    pub glyph: Seq<u8>,
    pub composite: Seq<u8>,
    pub bbox_bitmap: Seq<u8>,
    pub bbox_values: Seq<u8>,
    pub instruction: Seq<u8>,
}

/// Cutting a substream of `len` bytes at `start` of `input`.
pub open spec fn substream_at(input: Seq<u8>, start: int, len: u32) -> core::result::Result<(Seq<u8>, int), ErrorModel> {
    take_at(input, start, len as int, "glyf transform substream")
}

/// Bytes of the bbox presence bitmap for `num_glyphs` glyphs.
pub open spec fn bitmap_len(num_glyphs: u16) -> int {
    (num_glyphs as int + 7) / 8
}

/// Splitting a transformed `glyf` table into its seven substreams.
pub open spec fn split_spec(input: Seq<u8>, num_glyphs: u16, sizes: Seq<u32>) -> core::result::Result<StreamsModel, ErrorModel> {
    let p0 = TRANSFORM_HEADER_LEN as int;
    match substream_at(input, p0, sizes[0]) {
        Err(e) => Err(e),
        Ok((n_contour, p1)) => match substream_at(input, p1, sizes[1]) {
            Err(e) => Err(e),
            Ok((n_points, p2)) => match substream_at(input, p2, sizes[2]) {
                Err(e) => Err(e),
                Ok((flags, p3)) => match substream_at(input, p3, sizes[3]) {
                    Err(e) => Err(e),
                    Ok((glyph, p4)) => match substream_at(input, p4, sizes[4]) {
                        Err(e) => Err(e),
                        Ok((composite, p5)) => match substream_at(input, p5, sizes[5]) {
                            Err(e) => Err(e),
                            Ok((bbox, p6)) => match substream_at(input, p6, sizes[6]) {
                                Err(e) => Err(e),
                                Ok((instruction, _)) => if bitmap_len(num_glyphs) > bbox.len() {
                                    Err(glyf_err("bbox bitmap is truncated"))
                                } else {
                                    Ok(StreamsModel {
                                        n_contour,
                                        n_points,
                                        flags,
                                        glyph,
                                        composite,
                                        bbox_bitmap: bbox.subrange(0, bitmap_len(num_glyphs)),
                                        bbox_values: bbox.subrange(bitmap_len(num_glyphs), bbox.len() as int),
                                        instruction,
                                    })
                                },
                            },
                        },
                    },
                },
            },
        },
    }
}

/// The substreams of a transformed `glyf` table, each with its own cursor.
pub struct Substreams<'a> {
    pub n_contour: Reader<'a>,
    pub n_points: Reader<'a>,
    pub flags: Reader<'a>,
    pub glyph: Reader<'a>,
    pub composite: Reader<'a>,
    pub bbox_bitmap: &'a [u8],
    pub bbox_values: Reader<'a>,
    pub instruction: Reader<'a>,
}

/// Where each substream cursor stands.
pub struct Cursor {
    pub n_contour: int,
    pub n_points: int,
    pub flags: int,
    pub glyph: int,
    pub composite: int,
    pub bbox_values: int,
    pub instruction: int,
}

impl<'a> Substreams<'a> {
    /// The substreams' contents.
    pub open spec fn model(&self) -> StreamsModel {
        StreamsModel {
            n_contour: self.n_contour.data(),
            n_points: self.n_points.data(),
            flags: self.flags.data(),
            glyph: self.glyph.data(),
            composite: self.composite.data(),
            bbox_bitmap: self.bbox_bitmap@,
            bbox_values: self.bbox_values.data(),
            instruction: self.instruction.data(),
        }
    }

    /// The substreams' cursors.
    pub open spec fn cursor(&self) -> Cursor {
        Cursor {
            n_contour: self.n_contour.pos(),
            n_points: self.n_points.pos(),
            flags: self.flags.pos(),
            glyph: self.glyph.pos(),
            composite: self.composite.pos(),
            bbox_values: self.bbox_values.pos(),
            instruction: self.instruction.pos(),
        }
    }

    /// Every cursor lies inside its substream.
    pub open spec fn wf(&self) -> bool {
        &&& self.n_contour.wf()
        &&& self.n_points.wf()
        &&& self.flags.wf()
        &&& self.glyph.wf()
        &&& self.composite.wf()
        &&& self.bbox_values.wf()
        &&& self.instruction.wf()
    }
}

/// The cursor at the start of every substream.
pub open spec fn start_cursor() -> Cursor {
    Cursor { n_contour: 0, n_points: 0, flags: 0, glyph: 0, composite: 0, bbox_values: 0, instruction: 0 }
}

fn substream<'a>(input: &'a [u8], offset: &mut usize, len: u32) -> (r: Result<&'a [u8]>)
    ensures
        match r {
            Ok(s) => substream_at(input@, *old(offset) as int, len) == Ok::<(Seq<u8>, int), ErrorModel>((s@, *final(offset) as int))
                && *final(offset) <= input@.len(),
            Err(e) => substream_at(input@, *old(offset) as int, len) == Err::<(Seq<u8>, int), ErrorModel>(e@),
        },
{
    let start = *offset;
    let n = input.len();
    let end = match start.checked_add(len as usize) {
        Some(end) => end,
        None => {
            return Err(FontError::Truncated {
                needed: len as usize,
                available: n.saturating_sub(start),
                while_reading: "glyf transform substream",
            });
        },
    };
    if end > n {
        return Err(FontError::Truncated {
            needed: len as usize,
            available: n.saturating_sub(start),
            while_reading: "glyf transform substream",
        });
    }
    *offset = end;
    Ok(&input[start..end])
}

/// Split the transformed table into its seven substreams, bounds-checked.
pub fn split<'a>(input: &'a [u8], num_glyphs: u16, sizes: [u32; 7]) -> (r: Result<Substreams<'a>>)
    ensures
        match r {
            Ok(s) => split_spec(input@, num_glyphs, sizes@) == Ok::<StreamsModel, ErrorModel>(s.model())
                && s.cursor() == start_cursor() && s.wf(),
            Err(e) => split_spec(input@, num_glyphs, sizes@) == Err::<StreamsModel, ErrorModel>(e@),
        },
{
    let mut offset = TRANSFORM_HEADER_LEN;
    let n_contour = substream(input, &mut offset, sizes[0])?;
    let n_points = substream(input, &mut offset, sizes[1])?;
    let flags = substream(input, &mut offset, sizes[2])?;
    let glyph = substream(input, &mut offset, sizes[3])?;
    let composite = substream(input, &mut offset, sizes[4])?;
    let bbox = substream(input, &mut offset, sizes[5])?;
    let instruction = substream(input, &mut offset, sizes[6])?;

    // The bbox substream opens with one presence bit per glyph, then the
    // explicit bounding boxes for the glyphs whose bit is set.
    let bitmap_len = (num_glyphs as usize + 7) / 8;
    if bitmap_len > bbox.len() {
        return Err(err("bbox bitmap is truncated"));
    }
    let bbox_bitmap = &bbox[0..bitmap_len];
    let bbox_values = &bbox[bitmap_len..bbox.len()];

    Ok(Substreams {
        n_contour: Reader::new(n_contour),
        n_points: Reader::new(n_points),
        flags: Reader::new(flags),
        glyph: Reader::new(glyph),
        composite: Reader::new(composite),
        bbox_bitmap,
        bbox_values: Reader::new(bbox_values),
        instruction: Reader::new(instruction),
    })
}

// ---------------------------------------------------------------------------
// Writing simple glyphs

/// The two big-endian bytes of a signed 16-bit value.
pub open spec fn i16_be(v: i16) -> Seq<u8> {
    u16_be(v as u16)
}

/// The coordinate change from the previous point (the origin before the
/// first), with 32-bit wrapping.
pub open spec fn point_dx(points: Seq<Point>, i: int) -> i32 {
    let prev: i32 = if i == 0 { 0 } else { points[i - 1].x };
    vstd::wrapping::i32_specs::wrapping_sub(points[i].x, prev)
}

/// The y change from the previous point (from zero for the first).
pub open spec fn point_dy(points: Seq<Point>, i: int) -> i32 {
    let prev: i32 = if i == 0 { 0 } else { points[i - 1].y };
    vstd::wrapping::i32_specs::wrapping_sub(points[i].y, prev)
}

/// The flag bits for one coordinate change: zero is "same", a change of at
/// most 255 is "short" with its sign in `same_or_positive`, anything else is a
/// full 16-bit value.
pub open spec fn delta_flag(d: i32, short: u8, same_or_positive: u8) -> int {
    if d == 0 {
        same_or_positive as int
    } else if -255 <= d <= 255 {
        short + if d > 0 { same_or_positive as int } else { 0 }
    } else {
        0
    }
}

/// The bytes one coordinate change takes in the x or y array.
pub open spec fn delta_bytes(d: i32) -> Seq<u8> {
    if d == 0 {
        Seq::empty()
    } else if -255 <= d <= 255 {
        seq![(if d < 0 { -(d as int) } else { d as int }) as u8]
    } else {
        i16_be(d as i16)
    }
}

/// The flag byte of point `i`.
pub open spec fn point_flag(points: Seq<Point>, i: int) -> u8 {
    ((if points[i].on_curve { FLAG_ON_CURVE as int } else { 0 })
        + delta_flag(point_dx(points, i), FLAG_X_SHORT, FLAG_X_SAME_OR_POSITIVE)
        + delta_flag(point_dy(points, i), FLAG_Y_SHORT, FLAG_Y_SAME_OR_POSITIVE)) as u8
}

/// The flag bytes of the first `n` points.
pub open spec fn flag_bytes(points: Seq<Point>, n: nat) -> Seq<u8>
    decreases n,
{
    if n == 0 { Seq::empty() } else { flag_bytes(points, (n - 1) as nat).push(point_flag(points, n - 1)) }
}

/// The x array for the first `n` points.
pub open spec fn x_bytes(points: Seq<Point>, n: nat) -> Seq<u8>
    decreases n,
{
    if n == 0 { Seq::empty() } else { x_bytes(points, (n - 1) as nat) + delta_bytes(point_dx(points, n - 1)) }
}

/// The y array for the first `n` points.
pub open spec fn y_bytes(points: Seq<Point>, n: nat) -> Seq<u8>
    decreases n,
{
    if n == 0 { Seq::empty() } else { y_bytes(points, (n - 1) as nat) + delta_bytes(point_dy(points, n - 1)) }
}

/// The contour end points, big-endian.
pub open spec fn ends_bytes(ends: Seq<u16>, n: nat) -> Seq<u8>
    decreases n,
{
    if n == 0 { Seq::empty() } else { ends_bytes(ends, (n - 1) as nat) + u16_be(ends[n - 1]) }
}

/// A simple glyph in plain `glyf` form: contour count, bounding box, contour
/// ends, instructions, then one flag per point and the x and y arrays. Flag
/// repetition is not used.
pub open spec fn simple_glyph_bytes(points: Seq<Point>, ends: Seq<u16>, instructions: Seq<u8>, bbox: Seq<i16>) -> Seq<u8> {
    i16_be(ends.len() as i16) + i16_be(bbox[0]) + i16_be(bbox[1]) + i16_be(bbox[2]) + i16_be(bbox[3])
        + ends_bytes(ends, ends.len()) + u16_be(instructions.len() as u16) + instructions
        + flag_bytes(points, points.len()) + x_bytes(points, points.len()) + y_bytes(points, points.len())
}

fn push_delta(out: &mut Vec<u8>, d: i32)
    ensures
        final(out)@ == old(out)@ + delta_bytes(d),
{
    if d == 0 {
        assert(old(out)@ + delta_bytes(d) =~= old(out)@);
    } else if -255 <= d && d <= 255 {
        let a = if d < 0 { -d } else { d };
        out.push(a as u8);
        assert(final(out)@ =~= old(out)@ + delta_bytes(d));
    } else {
        push_u16(out, (d as i16) as u16);
    }
}

fn flag_for(d: i32, short: u8, same_or_positive: u8) -> (f: u8)
    requires
        short == FLAG_X_SHORT || short == FLAG_Y_SHORT,
        same_or_positive == FLAG_X_SAME_OR_POSITIVE || same_or_positive == FLAG_Y_SAME_OR_POSITIVE,
    ensures
        f == delta_flag(d, short, same_or_positive),
{
    if d == 0 {
        same_or_positive
    } else if -255 <= d && d <= 255 {
        if d > 0 { short + same_or_positive } else { short }
    } else {
        0
    }
}

/// Emit a simple glyph in standard `glyf` form. Flag repetition is not used;
/// the output is a valid, plainly encoded glyph rather than a minimal one.
pub fn write_simple_glyph(out: &mut Vec<u8>, points: &[Point], ends: &[u16], instructions: &[u8], bbox: [i16; 4])
    ensures
        final(out)@ == old(out)@ + simple_glyph_bytes(points@, ends@, instructions@, bbox@),
{
    let ghost start = out@;
    push_u16(out, (ends.len() as i16) as u16);
    push_u16(out, bbox[0] as u16);
    push_u16(out, bbox[1] as u16);
    push_u16(out, bbox[2] as u16);
    push_u16(out, bbox[3] as u16);
    let ghost head = out@;
    let mut k: usize = 0;
    assert(out@ =~= head + ends_bytes(ends@, 0));
    while k < ends.len()
        invariant
            k <= ends@.len(),
            out@ == head + ends_bytes(ends@, k as nat),
        decreases ends@.len() - k,
    {
        push_u16(out, ends[k]);
        k = k + 1;
        assert(out@ =~= head + ends_bytes(ends@, k as nat));
    }
    push_u16(out, instructions.len() as u16);
    push_bytes(out, instructions);
    let ghost before_points = out@;

    let ghost pts = points@;
    let mut flags: Vec<u8> = Vec::new();
    let mut xs: Vec<u8> = Vec::new();
    let mut ys: Vec<u8> = Vec::new();
    let mut prev_x: i32 = 0;
    let mut prev_y: i32 = 0;
    let mut i: usize = 0;
    while i < points.len()
        invariant
            pts == points@,
            i <= pts.len(),
            flags@ == flag_bytes(pts, i as nat),
            xs@ == x_bytes(pts, i as nat),
            ys@ == y_bytes(pts, i as nat),
            prev_x == (if i == 0 { 0i32 } else { pts[i - 1].x }),
            prev_y == (if i == 0 { 0i32 } else { pts[i - 1].y }),
        decreases pts.len() - i,
    {
        let p = points[i];
        let dx = p.x.wrapping_sub(prev_x);
        let dy = p.y.wrapping_sub(prev_y);
        assert(dx == point_dx(pts, i as int));
        assert(dy == point_dy(pts, i as int));
        let on = if p.on_curve { FLAG_ON_CURVE } else { 0 };
        let fx = flag_for(dx, FLAG_X_SHORT, FLAG_X_SAME_OR_POSITIVE);
        let fy = flag_for(dy, FLAG_Y_SHORT, FLAG_Y_SAME_OR_POSITIVE);
        flags.push(on + fx + fy);
        push_delta(&mut xs, dx);
        push_delta(&mut ys, dy);
        prev_x = p.x;
        prev_y = p.y;
        i = i + 1;
    }
    push_bytes(out, flags.as_slice());
    push_bytes(out, xs.as_slice());
    push_bytes(out, ys.as_slice());
    assert(out@ =~= start + simple_glyph_bytes(points@, ends@, instructions@, bbox@));
}

// ---------------------------------------------------------------------------
// Rebuilding glyphs

/// Reading the point counts of contours `k..count` from `pos` of `s`, with
/// `total` points so far and `ends` the end-point indices so far.
pub open spec fn read_ends_from(s: Seq<u8>, pos: int, k: nat, count: nat, total: int, ends: Seq<u16>)
    -> core::result::Result<(int, int, Seq<u16>), ErrorModel>
    decreases count - k,
{
    if k >= count {
        Ok((pos, total, ends))
    } else {
        match read_255_at(s, pos) {
            Err(e) => Err(e),
            Ok((n, p)) => {
                let t = total + n;
                if t > 0xffff {
                    Err(glyf_err("glyph declares more points than a glyf table can address"))
                } else {
                    read_ends_from(s, p, k + 1, count, t, ends.push(if t == 0 { 0xffffu16 } else { (t - 1) as u16 }))
                }
            },
        }
    }
}

/// Reading points `k..n`: each takes a flag byte from `flags` and a triplet
/// from `glyph`, and moves the pen from (`x`, `y`).
pub open spec fn read_points_from(
    flags: Seq<u8>,
    fpos: int,
    glyph: Seq<u8>,
    gpos: int,
    k: nat,
    n: nat,
    x: i32,
    y: i32,
    pts: Seq<Point>,
) -> core::result::Result<(int, int, Seq<Point>), ErrorModel>
    decreases n - k,
{
    if k >= n {
        Ok((fpos, gpos, pts))
    } else {
        match read_u8_at(flags, fpos, "glyf point flag") {
            Err(e) => Err(e),
            Ok((flag_byte, fp)) => {
                let flag = flag_byte % 128;
                match take_at(glyph, gpos, triplet_len(flag), "glyf triplet") {
                    Err(e) => Err(e),
                    Ok((data, gp)) => {
                        let d = triplet_delta(flag, data);
                        let nx = vstd::wrapping::i32_specs::wrapping_add(x, d.0 as i32);
                        let ny = vstd::wrapping::i32_specs::wrapping_add(y, d.1 as i32);
                        read_points_from(
                            flags,
                            fp,
                            glyph,
                            gp,
                            k + 1,
                            n,
                            nx,
                            ny,
                            pts.push(Point { x: nx, y: ny, on_curve: flag_byte < 128 }),
                        )
                    },
                }
            },
        }
    }
}

/// Reading an explicit bounding box: four big-endian values.
pub open spec fn read_bbox_at(s: Seq<u8>, pos: int, ctx: &'static str) -> core::result::Result<(Seq<i16>, int), ErrorModel> {
    match read_u16_at(s, pos, ctx) {
        Err(e) => Err(e),
        Ok((a, p1)) => match read_u16_at(s, p1, ctx) {
            Err(e) => Err(e),
            Ok((b, p2)) => match read_u16_at(s, p2, ctx) {
                Err(e) => Err(e),
                Ok((c, p3)) => match read_u16_at(s, p3, ctx) {
                    Err(e) => Err(e),
                    Ok((d, p4)) => Ok((seq![a as i16, b as i16, c as i16, d as i16], p4)),
                },
            },
        },
    }
}

/// The least x among the first `n` points (`n` >= 1).
pub open spec fn min_x(pts: Seq<Point>, n: nat) -> i32
    decreases n,
{
    if n <= 1 { pts[0].x } else if pts[n - 1].x < min_x(pts, (n - 1) as nat) { pts[n - 1].x } else { min_x(pts, (n - 1) as nat) }
}

/// The greatest x among the first `n` points (`n` >= 1).
pub open spec fn max_x(pts: Seq<Point>, n: nat) -> i32
    decreases n,
{
    if n <= 1 { pts[0].x } else if pts[n - 1].x > max_x(pts, (n - 1) as nat) { pts[n - 1].x } else { max_x(pts, (n - 1) as nat) }
}

/// The least y among the first `n` points (`n` >= 1).
pub open spec fn min_y(pts: Seq<Point>, n: nat) -> i32
    decreases n,
{
    if n <= 1 { pts[0].y } else if pts[n - 1].y < min_y(pts, (n - 1) as nat) { pts[n - 1].y } else { min_y(pts, (n - 1) as nat) }
}

/// The greatest y among the first `n` points (`n` >= 1).
pub open spec fn max_y(pts: Seq<Point>, n: nat) -> i32
    decreases n,
{
    if n <= 1 { pts[0].y } else if pts[n - 1].y > max_y(pts, (n - 1) as nat) { pts[n - 1].y } else { max_y(pts, (n - 1) as nat) }
}

/// The bounding box of the points (all zero when there are none), each bound
/// truncated to 16 bits.
pub open spec fn computed_bbox(pts: Seq<Point>) -> Seq<i16> {
    if pts.len() == 0 {
        seq![0i16, 0i16, 0i16, 0i16]
    } else {
        seq![
            min_x(pts, pts.len()) as i16,
            min_y(pts, pts.len()) as i16,
            max_x(pts, pts.len()) as i16,
            max_y(pts, pts.len()) as i16,
        ]
    }
}

/// `g` zero-padded to a multiple of four bytes.
pub open spec fn pad4(g: Seq<u8>) -> Seq<u8> {
    g + zeros((4 - g.len() % 4) % 4)
}

/// Rebuilding simple glyph `gi` with `contours` contours from the cursor `c`,
/// appending to `glyf`.
pub open spec fn simple_step(st: StreamsModel, c: Cursor, gi: u16, contours: nat, glyf: Seq<u8>)
    -> core::result::Result<(Cursor, Seq<u8>), ErrorModel>
{
    match read_ends_from(st.n_points, c.n_points, 0, contours, 0, Seq::empty()) {
        Err(e) => Err(e),
        Ok((np, total, ends)) => match read_points_from(st.flags, c.flags, st.glyph, c.glyph, 0, total as nat, 0, 0, Seq::empty()) {
            Err(e) => Err(e),
            Ok((fp, gp, pts)) => match read_255_at(st.glyph, gp) {
                Err(e) => Err(e),
                Ok((ilen, gp2)) => match take_at(st.instruction, c.instruction, ilen as int, "glyf instructions") {
                    Err(e) => Err(e),
                    Ok((instructions, ip)) => {
                        let boxed = if bbox_bit(st.bbox_bitmap, gi) {
                            read_bbox_at(st.bbox_values, c.bbox_values, "glyph bbox")
                        } else {
                            Ok((computed_bbox(pts), c.bbox_values))
                        };
                        match boxed {
                            Err(e) => Err(e),
                            Ok((bbox, bp)) => Ok((
                                Cursor {
                                    n_contour: c.n_contour,
                                    n_points: np,
                                    flags: fp,
                                    glyph: gp2,
                                    composite: c.composite,
                                    bbox_values: bp,
                                    instruction: ip,
                                },
                                pad4(glyf + simple_glyph_bytes(pts, ends, instructions, bbox)),
                            )),
                        }
                    },
                },
            },
        },
    }
}

/// Rebuilding composite glyph `gi` from the cursor `c`, appending to `glyf`:
/// component data is already final, only the bbox and instructions move.
pub open spec fn composite_step(st: StreamsModel, c: Cursor, gi: u16, glyf: Seq<u8>)
    -> core::result::Result<(Cursor, Seq<u8>), ErrorModel>
{
    match scan_components(st.composite, c.composite, false) {
        Err(e) => Err(e),
        Ok((cend, have)) => if !bbox_bit(st.bbox_bitmap, gi) {
            Err(glyf_err("composite glyph is missing its required bounding box"))
        } else {
            match read_bbox_at(st.bbox_values, c.bbox_values, "composite bbox") {
                Err(e) => Err(e),
                Ok((bbox, bp)) => {
                    let base = glyf + i16_be(-1i16) + i16_be(bbox[0]) + i16_be(bbox[1]) + i16_be(bbox[2]) + i16_be(bbox[3])
                        + st.composite.subrange(c.composite, cend);
                    let tail = if have {
                        match read_255_at(st.glyph, c.glyph) {
                            Err(e) => Err(e),
                            Ok((n, gp)) => match take_at(st.instruction, c.instruction, n as int, "composite instructions") {
                                Err(e) => Err(e),
                                Ok((ins, ip)) => Ok((u16_be(n) + ins, gp, ip)),
                            },
                        }
                    } else {
                        Ok((Seq::empty(), c.glyph, c.instruction))
                    };
                    match tail {
                        Err(e) => Err(e),
                        Ok((t, gp, ip)) => Ok((
                            Cursor {
                                n_contour: c.n_contour,
                                n_points: c.n_points,
                                flags: c.flags,
                                glyph: gp,
                                composite: cend,
                                bbox_values: bp,
                                instruction: ip,
                            },
                            pad4(base + t),
                        )),
                    }
                },
            }
        },
    }
}

/// Rebuilding glyph `gi`: its contour count chooses empty, composite or simple.
#[verifier::opaque]
pub open spec fn glyph_step(st: StreamsModel, c: Cursor, gi: u16, glyf: Seq<u8>)
    -> core::result::Result<(Cursor, Seq<u8>), ErrorModel>
{
    match read_u16_at(st.n_contour, c.n_contour, "glyf contour count") {
        Err(e) => Err(e),
        Ok((raw, p)) => {
            let c1 = Cursor {
                n_contour: p,
                n_points: c.n_points,
                flags: c.flags,
                glyph: c.glyph,
                composite: c.composite,
                bbox_values: c.bbox_values,
                instruction: c.instruction,
            };
            let n_contours = raw as i16;
            if n_contours == 0 {
                Ok((c1, glyf))
            } else if n_contours < 0 {
                composite_step(st, c1, gi, glyf)
            } else {
                simple_step(st, c1, gi, n_contours as nat, glyf)
            }
        },
    }
}

/// Rebuilding the first `n` glyphs: the cursor, the `glyf` bytes and the
/// offsets (one more than glyphs), or the first error.
pub open spec fn glyphs_upto(st: StreamsModel, n: nat) -> core::result::Result<(Cursor, Seq<u8>, Seq<u32>), ErrorModel>
    decreases n,
{
    if n == 0 {
        Ok((start_cursor(), Seq::empty(), seq![0u32]))
    } else {
        match glyphs_upto(st, (n - 1) as nat) {
            Err(e) => Err(e),
            Ok((c, g, offsets)) => match glyph_step(st, c, (n - 1) as u16, g) {
                Err(e) => Err(e),
                Ok((c2, g2)) => Ok((c2, g2, offsets.push(g2.len() as u32))),
            },
        }
    }
}

/// Read the point counts of `count` contours: the contour end-point indices
/// and the total number of points.
fn read_contour_ends(r: &mut Reader<'_>, count: usize) -> (res: Result<(Vec<u16>, usize)>)
    requires
        old(r).wf(),
    ensures
        final(r).data() == old(r).data(),
        match res {
            Ok((ends, total)) => read_ends_from(old(r).data(), old(r).pos(), 0, count as nat, 0, Seq::empty())
                == Ok::<(int, int, Seq<u16>), ErrorModel>((final(r).pos(), total as int, ends@)) && final(r).wf()
                && total <= 0xffff,
            Err(e) => read_ends_from(old(r).data(), old(r).pos(), 0, count as nat, 0, Seq::empty())
                == Err::<(int, int, Seq<u16>), ErrorModel>(e@),
        },
{
    let ghost s = r.data();
    let ghost p0 = r.pos();
    let mut ends: Vec<u16> = Vec::new();
    let mut total: usize = 0;
    let mut k: usize = 0;
    while k < count
        invariant
            r.data() == s,
            s == old(r).data(),
            p0 == old(r).pos(),
            r.wf(),
            k <= count,
            total <= 0xffff,
            read_ends_from(s, r.pos(), k as nat, count as nat, total as int, ends@)
                == read_ends_from(s, p0, 0, count as nat, 0, Seq::empty()),
        decreases count - k,
    {
        let ghost here = r.pos();
        let n = read_255_u16(r)? as usize;
        total = total + n;
        if total > 0xffff {
            return Err(err("glyph declares more points than a glyf table can address"));
        }
        ends.push((total as u16).wrapping_sub(1));
        k = k + 1;
    }
    Ok((ends, total))
}

/// Read `n` points, each a flag byte and a triplet, accumulating coordinates.
fn read_points(flags: &mut Reader<'_>, glyph: &mut Reader<'_>, n: usize) -> (res: Result<Vec<Point>>)
    requires
        old(flags).wf(),
        old(glyph).wf(),
    ensures
        final(flags).data() == old(flags).data(),
        final(glyph).data() == old(glyph).data(),
        match res {
            Ok(pts) => read_points_from(old(flags).data(), old(flags).pos(), old(glyph).data(), old(glyph).pos(), 0, n as nat, 0, 0, Seq::empty())
                == Ok::<(int, int, Seq<Point>), ErrorModel>((final(flags).pos(), final(glyph).pos(), pts@))
                && final(flags).wf() && final(glyph).wf(),
            Err(e) => read_points_from(old(flags).data(), old(flags).pos(), old(glyph).data(), old(glyph).pos(), 0, n as nat, 0, 0, Seq::empty())
                == Err::<(int, int, Seq<Point>), ErrorModel>(e@),
        },
{
    let ghost fs = flags.data();
    let ghost gs = glyph.data();
    let ghost f0 = flags.pos();
    let ghost g0 = glyph.pos();
    let mut points: Vec<Point> = Vec::new();
    let mut x: i32 = 0;
    let mut y: i32 = 0;
    let mut k: usize = 0;
    while k < n
        invariant
            flags.data() == fs,
            glyph.data() == gs,
            fs == old(flags).data(),
            gs == old(glyph).data(),
            f0 == old(flags).pos(),
            g0 == old(glyph).pos(),
            flags.wf(),
            glyph.wf(),
            k <= n,
            read_points_from(fs, flags.pos(), gs, glyph.pos(), k as nat, n as nat, x, y, points@)
                == read_points_from(fs, f0, gs, g0, 0, n as nat, 0, 0, Seq::empty()),
        decreases n - k,
    {
        let flag_byte = flags.u8("glyf point flag")?;
        let on_curve = flag_byte < 128;
        let flag = flag_byte % 128;
        let data = glyph.take_bytes(triplet_byte_count(flag), "glyf triplet")?;
        let (dx, dy) = decode_triplet(flag, data);
        x = x.wrapping_add(dx);
        y = y.wrapping_add(dy);
        points.push(Point { x, y, on_curve });
        k = k + 1;
    }
    Ok(points)
}

/// Read an explicit bounding box.
fn read_bbox(r: &mut Reader<'_>, ctx: &'static str) -> (res: Result<[i16; 4]>)
    requires
        old(r).wf(),
    ensures
        final(r).data() == old(r).data(),
        match res {
            Ok(b) => read_bbox_at(old(r).data(), old(r).pos(), ctx) == Ok::<(Seq<i16>, int), ErrorModel>((b@, final(r).pos()))
                && final(r).wf(),
            Err(e) => read_bbox_at(old(r).data(), old(r).pos(), ctx) == Err::<(Seq<i16>, int), ErrorModel>(e@),
        },
{
    let a = r.u16(ctx)? as i16;
    let b = r.u16(ctx)? as i16;
    let c = r.u16(ctx)? as i16;
    let d = r.u16(ctx)? as i16;
    let bbox = [a, b, c, d];
    assert(bbox@ =~= seq![a, b, c, d]);
    Ok(bbox)
}

/// The bounding box of `points`, each bound truncated to 16 bits; all zero
/// when there are no points.
fn bbox_of(points: &Vec<Point>) -> (b: [i16; 4])
    ensures
        b@ == computed_bbox(points@),
{
    if points.len() == 0 {
        let b = [0i16, 0i16, 0i16, 0i16];
        assert(b@ =~= computed_bbox(points@));
        return b;
    }
    let ghost pts = points@;
    let mut lo_x = points[0].x;
    let mut lo_y = points[0].y;
    let mut hi_x = points[0].x;
    let mut hi_y = points[0].y;
    let mut i: usize = 1;
    while i < points.len()
        invariant
            pts == points@,
            1 <= i <= pts.len(),
            lo_x == min_x(pts, i as nat),
            lo_y == min_y(pts, i as nat),
            hi_x == max_x(pts, i as nat),
            hi_y == max_y(pts, i as nat),
        decreases pts.len() - i,
    {
        let p = points[i];
        if p.x < lo_x { lo_x = p.x; }
        if p.y < lo_y { lo_y = p.y; }
        if p.x > hi_x { hi_x = p.x; }
        if p.y > hi_y { hi_y = p.y; }
        i = i + 1;
    }
    let b = [lo_x as i16, lo_y as i16, hi_x as i16, hi_y as i16];
    assert(b@ =~= computed_bbox(points@));
    b
}

/// Pad `glyf` with zeros to a multiple of four bytes.
fn pad_glyf(glyf: &mut Vec<u8>)
    ensures
        final(glyf)@ == pad4(old(glyf)@),
{
    let len = glyf.len();
    push_zeros(glyf, (4 - len % 4) % 4);
}

/// Rebuild a simple glyph with `contours` contours.
fn simple_glyph(s: &mut Substreams<'_>, glyph_index: u16, contours: usize, glyf: &mut Vec<u8>) -> (res: Result<()>)
    requires
        old(s).wf(),
    ensures
        final(s).model() == old(s).model(),
        match res {
            Ok(_) => simple_step(old(s).model(), old(s).cursor(), glyph_index, contours as nat, old(glyf)@)
                == Ok::<(Cursor, Seq<u8>), ErrorModel>((final(s).cursor(), final(glyf)@)) && final(s).wf(),
            Err(e) => simple_step(old(s).model(), old(s).cursor(), glyph_index, contours as nat, old(glyf)@)
                == Err::<(Cursor, Seq<u8>), ErrorModel>(e@),
        },
{
    let (ends, total_points) = read_contour_ends(&mut s.n_points, contours)?;
    let points = read_points(&mut s.flags, &mut s.glyph, total_points)?;
    let instruction_len = read_255_u16(&mut s.glyph)? as usize;
    let instructions = copy_bytes(s.instruction.take_bytes(instruction_len, "glyf instructions")?);

    // An explicit bbox overrides the computed one; otherwise derive it.
    let bbox = if has_bbox(s.bbox_bitmap, glyph_index) {
        read_bbox(&mut s.bbox_values, "glyph bbox")?
    } else {
        bbox_of(&points)
    };

    write_simple_glyph(glyf, points.as_slice(), ends.as_slice(), instructions.as_slice(), bbox);
    pad_glyf(glyf);
    Ok(())
}

/// Rebuild a composite glyph: component data is already final, only the
/// bounding box and instructions move.
fn composite_glyph(s: &mut Substreams<'_>, glyph_index: u16, glyf: &mut Vec<u8>) -> (res: Result<()>)
    requires
        old(s).wf(),
    ensures
        final(s).model() == old(s).model(),
        match res {
            Ok(_) => composite_step(old(s).model(), old(s).cursor(), glyph_index, old(glyf)@)
                == Ok::<(Cursor, Seq<u8>), ErrorModel>((final(s).cursor(), final(glyf)@)) && final(s).wf(),
            Err(e) => composite_step(old(s).model(), old(s).cursor(), glyph_index, old(glyf)@)
                == Err::<(Cursor, Seq<u8>), ErrorModel>(e@),
        },
{
    let data_start = s.composite.position();
    let (len, have_instructions) = composite_length(&mut s.composite)?;
    if !has_bbox(s.bbox_bitmap, glyph_index) {
        return Err(err("composite glyph is missing its required bounding box"));
    }
    let bbox = read_bbox(&mut s.bbox_values, "composite bbox")?;
    let ghost g0 = glyf@;
    push_u16(glyf, (-1i16) as u16);
    push_u16(glyf, bbox[0] as u16);
    push_u16(glyf, bbox[1] as u16);
    push_u16(glyf, bbox[2] as u16);
    push_u16(glyf, bbox[3] as u16);
    let component_bytes = match s.composite.slice_at(data_start, len) {
        Some(b) => b,
        None => {
            return Err(err("composite component data out of range"));
        },
    };
    push_bytes(glyf, component_bytes);
    let ghost base = glyf@;
    assert(base =~= g0 + i16_be(-1i16) + i16_be(bbox@[0]) + i16_be(bbox@[1]) + i16_be(bbox@[2]) + i16_be(bbox@[3])
        + s.composite.data().subrange(data_start as int, data_start + len));

    if have_instructions {
        let instruction_len = read_255_u16(&mut s.glyph)?;
        let instructions = s.instruction.take_bytes(instruction_len as usize, "composite instructions")?;
        push_u16(glyf, instruction_len);
        push_bytes(glyf, instructions);
        assert(glyf@ =~= base + (u16_be(instruction_len) + instructions@));
    } else {
        assert(glyf@ =~= base + Seq::<u8>::empty());
    }
    pad_glyf(glyf);
    Ok(())
}

/// Rebuild glyph `glyph_index`, appending it to `glyf`.
fn rebuild_glyph(s: &mut Substreams<'_>, glyph_index: u16, glyf: &mut Vec<u8>) -> (res: Result<()>)
    requires
        old(s).wf(),
    ensures
        final(s).model() == old(s).model(),
        match res {
            Ok(_) => glyph_step(old(s).model(), old(s).cursor(), glyph_index, old(glyf)@)
                == Ok::<(Cursor, Seq<u8>), ErrorModel>((final(s).cursor(), final(glyf)@)) && final(s).wf(),
            Err(e) => glyph_step(old(s).model(), old(s).cursor(), glyph_index, old(glyf)@)
                == Err::<(Cursor, Seq<u8>), ErrorModel>(e@),
        },
{
    reveal(glyph_step);
    let n_contours = s.n_contour.u16("glyf contour count")? as i16;
    if n_contours == 0 {
        // An empty glyph occupies no bytes; loca simply repeats the offset.
        return Ok(());
    }
    if n_contours < 0 {
        composite_glyph(s, glyph_index, glyf)
    } else {
        simple_glyph(s, glyph_index, n_contours as usize, glyf)
    }
}

// ---------------------------------------------------------------------------
// The whole table

/// `loca` in the short format for the first `n` offsets: each halved, or the
/// error for an offset that cannot be halved into 16 bits.
pub open spec fn short_loca(offsets: Seq<u32>, n: nat) -> core::result::Result<Seq<u8>, ErrorModel>
    decreases n,
{
    if n == 0 {
        Ok(Seq::empty())
    } else {
        match short_loca(offsets, (n - 1) as nat) {
            Err(e) => Err(e),
            Ok(b) => {
                let o = offsets[n - 1];
                if o % 2 != 0 || o / 2 > 0xffff {
                    Err(glyf_err("glyph offset cannot be expressed in the short loca format"))
                } else {
                    Ok(b + u16_be((o / 2) as u16))
                }
            },
        }
    }
}

/// `loca` in the long format for the first `n` offsets.
pub open spec fn long_loca(offsets: Seq<u32>, n: nat) -> Seq<u8>
    decreases n,
{
    if n == 0 { Seq::empty() } else { long_loca(offsets, (n - 1) as nat) + u32_be(offsets[n - 1]) }
}

/// The seven substream sizes of the transform header.
pub open spec fn header_sizes(input: Seq<u8>) -> Seq<u32> {
    Seq::new(7, |k: int| be32(input, 8 + 4 * k))
}

/// What rebuilding `glyf` and `loca` from a transformed `glyf` table gives.
pub open spec fn reconstruct_spec(input: Seq<u8>) -> core::result::Result<(Seq<u8>, Seq<u8>), ErrorModel> {
    match read_u32_at(input, 0, "glyf transform version") {
        Err(e) => Err(e),
        Ok((version, _)) => if version != 0 {
            Err(ErrorModel::UnsupportedTransform { tag: u32_be(GLYF_TAG_NUMBER), version: version as u8 })
        } else {
            match read_u16_at(input, 4, "glyf transform numGlyphs") {
                Err(e) => Err(e),
                Ok((num_glyphs, _)) => match read_u16_at(input, 6, "glyf transform indexFormat") {
                    Err(e) => Err(e),
                    Ok((index_format, _)) => if input.len() < TRANSFORM_HEADER_LEN {
                        Err(crate::error::truncated(4, input.len() - (8 + 4 * ((input.len() - 8) / 4)), "glyf transform substream size"))
                    } else {
                        match split_spec(input, num_glyphs, header_sizes(input)) {
                            Err(e) => Err(e),
                            Ok(st) => match glyphs_upto(st, num_glyphs as nat) {
                                Err(e) => Err(e),
                                Ok((_, glyf, offsets)) => if index_format == 0 {
                                    match short_loca(offsets, offsets.len()) {
                                        Err(e) => Err(e),
                                        Ok(loca) => Ok((glyf, loca)),
                                    }
                                } else {
                                    Ok((glyf, long_loca(offsets, offsets.len())))
                                },
                            },
                        }
                    },
                },
            }
        },
    }
}

proof fn lemma_glyphs_upto_err_stands(st: StreamsModel, m: nat, n: nat)
    requires
        m <= n,
        glyphs_upto(st, m) is Err,
    ensures
        glyphs_upto(st, n) == glyphs_upto(st, m),
    decreases n,
{
    if m < n {
        lemma_glyphs_upto_err_stands(st, m, (n - 1) as nat);
    }
}

proof fn lemma_glyphs_upto_len(st: StreamsModel, n: nat)
    ensures
        glyphs_upto(st, n) matches Ok((_, _, offsets)) ==> offsets.len() == n + 1,
    decreases n,
{
    if n > 0 {
        lemma_glyphs_upto_len(st, (n - 1) as nat);
    }
}

proof fn lemma_short_loca_err_stands(offsets: Seq<u32>, m: nat, n: nat)
    requires
        m <= n,
        short_loca(offsets, m) is Err,
    ensures
        short_loca(offsets, n) == short_loca(offsets, m),
    decreases n,
{
    if m < n {
        lemma_short_loca_err_stands(offsets, m, (n - 1) as nat);
    }
}

/// Write `loca` in the width the transform header selected.
fn write_loca(offsets: &Vec<u32>, index_format: u16) -> (res: Result<Vec<u8>>)
    ensures
        index_format == 0 ==> match res {
            Ok(loca) => short_loca(offsets@, offsets@.len()) == Ok::<Seq<u8>, ErrorModel>(loca@),
            Err(e) => short_loca(offsets@, offsets@.len()) == Err::<Seq<u8>, ErrorModel>(e@),
        },
        index_format != 0 ==> match res {
            Ok(loca) => loca@ == long_loca(offsets@, offsets@.len()),
            Err(_) => false,
        },
{
    let mut loca: Vec<u8> = Vec::new();
    let mut i: usize = 0;
    if index_format == 0 {
        while i < offsets.len()
            invariant
                index_format == 0,
                i <= offsets@.len(),
                short_loca(offsets@, i as nat) == Ok::<Seq<u8>, ErrorModel>(loca@),
            decreases offsets@.len() - i,
        {
            let offset = offsets[i];
            if offset % 2 != 0 || offset / 2 > 0xffff {
                proof { lemma_short_loca_err_stands(offsets@, (i + 1) as nat, offsets@.len()); }
                return Err(err("glyph offset cannot be expressed in the short loca format"));
            }
            push_u16(&mut loca, (offset / 2) as u16);
            i = i + 1;
        }
    } else {
        while i < offsets.len()
            invariant
                index_format != 0,
                i <= offsets@.len(),
                long_loca(offsets@, i as nat) == loca@,
            decreases offsets@.len() - i,
        {
            push_u32(&mut loca, offsets[i]);
            i = i + 1;
        }
    }
    Ok(loca)
}

/// Rebuild `glyf` and `loca` from a transformed `glyf` table.
pub fn reconstruct(input: &[u8]) -> (res: Result<Reconstructed>)
    ensures
        match res {
            Ok(r) => reconstruct_spec(input@) == Ok::<(Seq<u8>, Seq<u8>), ErrorModel>((r.glyf@, r.loca@)),
            Err(e) => reconstruct_spec(input@) == Err::<(Seq<u8>, Seq<u8>), ErrorModel>(e@),
        },
{
    let mut header = Reader::new(input);
    let version = header.u32("glyf transform version")?;
    if version != 0 {
        return Err(FontError::UnsupportedTransform { tag: tag_from_value(GLYF_TAG_NUMBER), version: version as u8 });
    }
    let num_glyphs = header.u16("glyf transform numGlyphs")?;
    let index_format = header.u16("glyf transform indexFormat")?;
    let mut sizes_read: Vec<u32> = Vec::new();
    let mut k: usize = 0;
    while k < 7
        invariant
            header.data() == input@,
            header.wf(),
            header.pos() == 8 + 4 * k,
            k <= 7,
            input@.len() >= 8,
            be32(input@, 0) == 0,
            num_glyphs == crate::bytes::be16(input@, 4),
            index_format == crate::bytes::be16(input@, 6),
            sizes_read@.len() == k,
            forall|j: int| 0 <= j < k ==> sizes_read@[j] == be32(input@, 8 + 4 * j),
        decreases 7 - k,
    {
        let size = match header.u32("glyf transform substream size") {
            Ok(v) => v,
            Err(e) => {
                assert(input@.len() < 8 + 4 * k + 4);
                assert((input@.len() - 8) / 4 == k);
                return Err(e);
            },
        };
        sizes_read.push(size);
        k = k + 1;
    }
    let sizes = [sizes_read[0], sizes_read[1], sizes_read[2], sizes_read[3], sizes_read[4], sizes_read[5], sizes_read[6]];
    assert(sizes@ =~= header_sizes(input@));
    let mut s = split(input, num_glyphs, sizes)?;
    let ghost st = s.model();

    let mut glyf: Vec<u8> = Vec::new();
    let mut offsets: Vec<u32> = Vec::new();
    offsets.push(0u32);
    assert(offsets@ =~= seq![0u32]);
    let mut glyph_index: u16 = 0;
    while glyph_index < num_glyphs
        invariant
            s.model() == st,
            s.wf(),
            input@.len() >= TRANSFORM_HEADER_LEN,
            be32(input@, 0) == 0,
            num_glyphs == crate::bytes::be16(input@, 4),
            index_format == crate::bytes::be16(input@, 6),
            split_spec(input@, num_glyphs, header_sizes(input@)) == Ok::<StreamsModel, ErrorModel>(st),
            glyph_index <= num_glyphs,
            glyphs_upto(st, glyph_index as nat) == Ok::<(Cursor, Seq<u8>, Seq<u32>), ErrorModel>((s.cursor(), glyf@, offsets@)),
        decreases num_glyphs - glyph_index,
    {
        match rebuild_glyph(&mut s, glyph_index, &mut glyf) {
            Ok(_) => {},
            Err(e) => {
                proof { lemma_glyphs_upto_err_stands(st, (glyph_index + 1) as nat, num_glyphs as nat); }
                return Err(e);
            },
        }
        offsets.push(glyf.len() as u32);
        glyph_index = glyph_index + 1;
    }
    proof { lemma_glyphs_upto_len(st, num_glyphs as nat); }

    // `loca` stores the offsets in the width the transform header selected.
    let loca = write_loca(&offsets, index_format)?;
    Ok(Reconstructed { glyf, loca })
}


proof fn lemma_glyphs_upto_offsets(st: StreamsModel, n: nat)
    ensures
        glyphs_upto(st, n) matches Ok((_, _, offsets)) ==> offsets.len() == n + 1,
    decreases n,
{
    if n > 0 {
        lemma_glyphs_upto_offsets(st, (n - 1) as nat);
    }
}

proof fn lemma_loca_lengths(offsets: Seq<u32>, n: nat)
    ensures
        long_loca(offsets, n).len() == 4 * n,
        short_loca(offsets, n) matches Ok(b) ==> b.len() == 2 * n,
    decreases n,
{
    if n > 0 {
        lemma_loca_lengths(offsets, (n - 1) as nat);
    }
}

/// A rebuilt `loca` holds one offset per glyph plus a terminator, in the
/// width the transform header selected: two bytes each for index format 0,
/// four otherwise.
pub proof fn lemma_loca_holds_every_glyph(input: Seq<u8>)
    ensures
        reconstruct_spec(input) matches Ok((_, loca)) ==> loca.len() == (be16(input, 4) + 1) * (if be16(input, 6) == 0 {
            2int
        } else {
            4int
        }),
{
    if input.len() >= TRANSFORM_HEADER_LEN {
        let n = be16(input, 4);
        if let Ok(st) = split_spec(input, n, header_sizes(input)) {
            lemma_glyphs_upto_offsets(st, n as nat);
            if let Ok((_, _, offsets)) = glyphs_upto(st, n as nat) {
                lemma_loca_lengths(offsets, offsets.len());
            }
        }
    }
}

// ---------------------------------------------------------------------------
// Where `loca` points

/// Padding to four bytes keeps what was padded as a prefix.
proof fn lemma_pad4_extends(y: Seq<u8>)
    ensures
        y.len() <= pad4(y).len(),
        forall|i: int| 0 <= i < y.len() ==> #[trigger] pad4(y)[i] == y[i],
{
}

/// Rebuilding one glyph only appends to `glyf`.
proof fn lemma_glyph_step_extends(st: StreamsModel, c: Cursor, gi: u16, glyf: Seq<u8>)
    ensures
        glyph_step(st, c, gi, glyf) matches Ok((_, g)) ==> glyf.len() <= g.len()
            && forall|i: int| 0 <= i < glyf.len() ==> #[trigger] g[i] == glyf[i],
{
    reveal(glyph_step);
    assert forall|y: Seq<u8>| #![trigger pad4(y)] y.len() <= pad4(y).len()
        && forall|i: int| 0 <= i < y.len() ==> #[trigger] pad4(y)[i] == y[i] by {
        lemma_pad4_extends(y);
    }
}

/// The glyph data the first `k` glyphs of a transformed table rebuild to.
pub open spec fn rebuilt_glyphs(input: Seq<u8>, k: nat) -> Seq<u8> {
    match split_spec(input, be16(input, 4), header_sizes(input)) {
        Ok(st) => match glyphs_upto(st, k) {
            Ok((_, g, _)) => g,
            Err(_) => Seq::empty(),
        },
        Err(_) => Seq::empty(),
    }
}

/// Each recorded offset is the length of the glyph data rebuilt so far, and
/// what the first `k` glyphs rebuild stays a prefix of what all of them do.
proof fn lemma_glyphs_upto_offsets_are_starts(st: StreamsModel, n: nat)
    ensures
        glyphs_upto(st, n) matches Ok((_, g, offsets)) ==> {
            &&& offsets.len() == n + 1
            &&& forall|k: nat| #![trigger glyphs_upto(st, k)] k <= n ==> (glyphs_upto(st, k) matches Ok((_, gk, _)) && {
                &&& gk.len() <= g.len()
                &&& offsets[k as int] == gk.len() as u32
                &&& forall|i: int| 0 <= i < gk.len() ==> #[trigger] g[i] == gk[i]
            })
        },
    decreases n,
{
    if n > 0 {
        let p = (n - 1) as nat;
        lemma_glyphs_upto_offsets_are_starts(st, p);
        if let Ok((c, g, offsets)) = glyphs_upto(st, p) {
            lemma_glyph_step_extends(st, c, p as u16, g);
            if let Ok((_, g2, offsets2)) = glyphs_upto(st, n) {
                assert forall|k: nat| #![trigger glyphs_upto(st, k)] k <= n implies (glyphs_upto(st, k) matches Ok((_, gk, _)) && {
                    &&& gk.len() <= g2.len()
                    &&& offsets2[k as int] == gk.len() as u32
                    &&& forall|i: int| 0 <= i < gk.len() ==> #[trigger] g2[i] == gk[i]
                }) by {
                    if k < n {
                        assert(glyphs_upto(st, k) is Ok);
                        let gk = glyphs_upto(st, k)->Ok_0.1;
                        assert forall|i: int| 0 <= i < gk.len() implies #[trigger] g2[i] == gk[i] by {
                            assert(g[i] == gk[i]);
                        }
                    }
                }
            }
        }
    }
}

/// Reading entry `k` of the long `loca` gives offset `k`.
proof fn lemma_long_loca_entry(offsets: Seq<u32>, m: nat, k: int)
    requires
        0 <= k < m <= offsets.len(),
    ensures
        be32(long_loca(offsets, m), 4 * k) == offsets[k],
    decreases m,
{
    let p = (m - 1) as nat;
    let l = long_loca(offsets, p);
    lemma_loca_lengths(offsets, p);
    let w = u32_be(offsets[p as int]);
    let s = l + w;
    if k == p {
        crate::bytes::lemma_be32_roundtrip(offsets[k]);
        assert(s[4 * k] == w[0] && s[4 * k + 1] == w[1] && s[4 * k + 2] == w[2] && s[4 * k + 3] == w[3]);
    } else {
        lemma_long_loca_entry(offsets, p, k);
        assert(s[4 * k] == l[4 * k] && s[4 * k + 1] == l[4 * k + 1] && s[4 * k + 2] == l[4 * k + 2] && s[4 * k + 3]
            == l[4 * k + 3]);
    }
}

/// Reading entry `k` of the short `loca` and doubling it gives offset `k`.
proof fn lemma_short_loca_entry(offsets: Seq<u32>, m: nat, k: int)
    requires
        0 <= k < m <= offsets.len(),
        short_loca(offsets, m) is Ok,
    ensures
        2 * be16(short_loca(offsets, m)->Ok_0, 2 * k) == offsets[k],
    decreases m,
{
    let p = (m - 1) as nat;
    if short_loca(offsets, p) is Err {
        lemma_short_loca_err_stands(offsets, p, m);
    }
    let l = short_loca(offsets, p)->Ok_0;
    lemma_loca_lengths(offsets, p);
    let o = offsets[p as int];
    let w = u16_be((o / 2) as u16);
    let s = l + w;
    assert(short_loca(offsets, m)->Ok_0 == s);
    if k == p {
        crate::bytes::lemma_be16_roundtrip((o / 2) as u16);
        assert(s[2 * k] == w[0] && s[2 * k + 1] == w[1]);
    } else {
        lemma_short_loca_entry(offsets, p, k);
        assert(s[2 * k] == l[2 * k] && s[2 * k + 1] == l[2 * k + 1]);
    }
}

/// What a rebuilt `loca` says: its entry `k` (a big-endian `u32` in the long
/// format, a `u16` counting two-byte units in the short one) is where glyph
/// `k` starts in the rebuilt `glyf`, namely the length of the data the
/// glyphs before it rebuild to, which `glyf` begins with; the last entry is
/// the length of `glyf`. Offsets are 32-bit, so `glyf` is taken to fit them.
pub proof fn lemma_loca_points_at_glyphs(input: Seq<u8>, k: nat)
    requires
        reconstruct_spec(input) is Ok,
        reconstruct_spec(input)->Ok_0.0.len() <= u32::MAX,
        k <= be16(input, 4),
    ensures
        ({
            let (glyf, loca) = reconstruct_spec(input)->Ok_0;
            let before = rebuilt_glyphs(input, k);
            &&& before.len() <= glyf.len()
            &&& glyf.subrange(0, before.len() as int) == before
            &&& k == be16(input, 4) ==> before == glyf
            &&& be16(input, 6) == 0 ==> 2 * be16(loca, 2 * k as int) == before.len()
            &&& be16(input, 6) != 0 ==> be32(loca, 4 * k as int) == before.len()
        }),
{
    let n = be16(input, 4);
    let st = split_spec(input, n, header_sizes(input))->Ok_0;
    let (glyf, loca) = reconstruct_spec(input)->Ok_0;
    assert(split_spec(input, n, header_sizes(input)) is Ok);
    assert(glyphs_upto(st, n as nat) is Ok);
    let offsets = glyphs_upto(st, n as nat)->Ok_0.2;
    assert(glyphs_upto(st, n as nat)->Ok_0.1 == glyf);
    lemma_glyphs_upto_offsets_are_starts(st, n as nat);
    assert(glyphs_upto(st, k) is Ok);
    let before = glyphs_upto(st, k)->Ok_0.1;
    assert(rebuilt_glyphs(input, k) == before);
    assert(offsets[k as int] == before.len() as u32);
    assert(glyf.subrange(0, before.len() as int) =~= before);
    if k == n {
        assert(glyphs_upto(st, k) == glyphs_upto(st, n as nat));
    }
    if be16(input, 6) == 0 {
        assert(short_loca(offsets, offsets.len()) is Ok);
        lemma_short_loca_entry(offsets, offsets.len(), k as int);
    } else {
        lemma_long_loca_entry(offsets, offsets.len(), k as int);
    }
}

// ---------------------------------------------------------------------------
// Triplets as the WOFF2 encoder writes them

/// The sign bit a triplet flag carries for `v`: set for zero and up.
pub open spec fn sign_bit(v: int) -> int {
    if v >= 0 { 1 } else { 0 }
}

/// The magnitude of `v`.
pub open spec fn magnitude(v: int) -> int {
    if v >= 0 { v } else { -v }
}

/// The flag byte and data bytes the WOFF2 encoder writes for the point
/// delta `(dx, dy)`: the first bracket of the format's triplet table whose
/// ranges hold both magnitudes, the sign of `dx` in flag bit 0 and, in the
/// brackets that carry both deltas, the sign of `dy` in bit 1.
pub open spec fn triplet_encoding(dx: int, dy: int) -> (u8, Seq<u8>) {
    let ax = magnitude(dx);
    let ay = magnitude(dy);
    let xs = sign_bit(dx);
    let ys = sign_bit(dy);
    if dx == 0 && ay < 1280 {
        ((2 * (ay / 256) + ys) as u8, seq![(ay % 256) as u8])
    } else if dy == 0 && ax < 1280 {
        ((10 + 2 * (ax / 256) + xs) as u8, seq![(ax % 256) as u8])
    } else if ax <= 64 && ay <= 64 {
        ((20 + 16 * ((ax - 1) / 16) + 4 * ((ay - 1) / 16) + xs + 2 * ys) as u8, seq![
            (16 * ((ax - 1) % 16) + (ay - 1) % 16) as u8,
        ])
    } else if ax <= 768 && ay <= 768 {
        ((84 + 12 * ((ax - 1) / 256) + 4 * ((ay - 1) / 256) + xs + 2 * ys) as u8, seq![
            ((ax - 1) % 256) as u8,
            ((ay - 1) % 256) as u8,
        ])
    } else if ax < 4096 && ay < 4096 {
        ((120 + xs + 2 * ys) as u8, seq![(ax / 16) as u8, (16 * (ax % 16) + ay / 256) as u8, (ay % 256) as u8])
    } else {
        ((124 + xs + 2 * ys) as u8, seq![(ax / 256) as u8, (ax % 256) as u8, (ay / 256) as u8, (ay % 256) as u8])
    }
}

proof fn lemma_div_mod_of(q: int, r: int, d: int)
    requires
        0 < d,
        0 <= r < d,
    ensures
        (d * q + r) / d == q,
        (d * q + r) % d == r,
{
    vstd::arithmetic::div_mod::lemma_div_multiples_vanish_fancy(q, r, d);
    vstd::arithmetic::div_mod::lemma_fundamental_div_mod(d * q + r, d);
}

proof fn lemma_split_div_mod(v: int, d: int)
    requires
        0 < d,
        0 <= v,
    ensures
        v == d * (v / d) + v % d,
        0 <= v % d < d,
        0 <= v / d,
{
    vstd::arithmetic::div_mod::lemma_fundamental_div_mod(v, d);
    vstd::arithmetic::div_mod::lemma_mod_bound(v, d);
    vstd::arithmetic::div_mod::lemma_div_pos_is_pos(v, d);
}

/// The sign a flag bit gives a magnitude restores the delta.
proof fn lemma_signed(v: int, bit: u8)
    requires
        bit % 2 == sign_bit(v),
    ensures
        with_sign(bit, magnitude(v)) == v,
{
}

proof fn lemma_triplet_y_only(dy: int)
    requires
        magnitude(dy) < 1280,
    ensures
        triplet_delta(triplet_encoding(0, dy).0, triplet_encoding(0, dy).1) == (0int, dy),
        triplet_encoding(0, dy).1.len() == triplet_len(triplet_encoding(0, dy).0),
{
    let ay = magnitude(dy);
    let ys = sign_bit(dy);
    let (flag, data) = triplet_encoding(0, dy);
    lemma_split_div_mod(ay, 256);
    let h = ay / 256;
    assert(h < 5);
    lemma_div_mod_of(h, ys, 2);
    assert(flag as int == 2 * h + ys);
    assert(flag % 2 == ys);
    assert(triplet_byte(data, 0) == ay % 256);
    lemma_signed(dy, flag);
}

proof fn lemma_triplet_x_only(dx: int)
    requires
        dx != 0,
        magnitude(dx) < 1280,
    ensures
        triplet_delta(triplet_encoding(dx, 0).0, triplet_encoding(dx, 0).1) == (dx, 0int),
        triplet_encoding(dx, 0).1.len() == triplet_len(triplet_encoding(dx, 0).0),
{
    let ax = magnitude(dx);
    let xs = sign_bit(dx);
    let (flag, data) = triplet_encoding(dx, 0);
    lemma_split_div_mod(ax, 256);
    let h = ax / 256;
    assert(h < 5);
    lemma_div_mod_of(h, xs, 2);
    lemma_div_mod_of(h + 5, xs, 2);
    assert(flag as int == 10 + 2 * h + xs);
    assert(flag % 2 == xs);
    assert(triplet_byte(data, 0) == ax % 256);
    lemma_signed(dx, flag);
}

proof fn lemma_triplet_nibbles(dx: int, dy: int)
    requires
        dx != 0,
        dy != 0,
        magnitude(dx) <= 64,
        magnitude(dy) <= 64,
    ensures
        triplet_delta(triplet_encoding(dx, dy).0, triplet_encoding(dx, dy).1) == (dx, dy),
        triplet_encoding(dx, dy).1.len() == triplet_len(triplet_encoding(dx, dy).0),
{
    let ax = magnitude(dx);
    let ay = magnitude(dy);
    let xs = sign_bit(dx);
    let ys = sign_bit(dy);
    let (flag, data) = triplet_encoding(dx, dy);
    lemma_split_div_mod(ax - 1, 16);
    lemma_split_div_mod(ay - 1, 16);
    let p = (ax - 1) / 16;
    let q = (ay - 1) / 16;
    let lo = (ay - 1) % 16;
    let hi = (ax - 1) % 16;
    assert(p < 4 && q < 4);
    let c = 16 * p + 4 * q + xs + 2 * ys;
    assert(flag as int == 20 + c);
    lemma_div_mod_of(p, 4 * q + xs + 2 * ys, 16);
    lemma_div_mod_of(4 * p + q, xs + 2 * ys, 4);
    lemma_div_mod_of(p, q, 4);
    lemma_div_mod_of(10 + 8 * p + 2 * q + ys, xs, 2);
    lemma_div_mod_of(5 + 4 * p + q, ys, 2);
    assert(flag / 2 == 10 + 8 * p + 2 * q + ys);
    assert(c / 16 == p);
    assert((c / 4) % 4 == q);
    let b = 16 * hi + lo;
    lemma_div_mod_of(hi, lo, 16);
    assert(triplet_byte(data, 0) == b);
    lemma_signed(dx, flag);
    lemma_signed(dy, flag / 2);
}

proof fn lemma_triplet_bytes(dx: int, dy: int)
    requires
        dx != 0,
        dy != 0,
        !(magnitude(dx) <= 64 && magnitude(dy) <= 64),
        magnitude(dx) <= 768,
        magnitude(dy) <= 768,
    ensures
        triplet_delta(triplet_encoding(dx, dy).0, triplet_encoding(dx, dy).1) == (dx, dy),
        triplet_encoding(dx, dy).1.len() == triplet_len(triplet_encoding(dx, dy).0),
{
    let ax = magnitude(dx);
    let ay = magnitude(dy);
    let xs = sign_bit(dx);
    let ys = sign_bit(dy);
    let (flag, data) = triplet_encoding(dx, dy);
    lemma_split_div_mod(ax - 1, 256);
    lemma_split_div_mod(ay - 1, 256);
    let p = (ax - 1) / 256;
    let q = (ay - 1) / 256;
    assert(p < 3 && q < 3);
    let c = 12 * p + 4 * q + xs + 2 * ys;
    assert(flag as int == 84 + c);
    lemma_div_mod_of(p, 4 * q + xs + 2 * ys, 12);
    lemma_div_mod_of(q, xs + 2 * ys, 4);
    lemma_div_mod_of(42 + 6 * p + 2 * q + ys, xs, 2);
    lemma_div_mod_of(21 + 3 * p + q, ys, 2);
    assert(flag / 2 == 42 + 6 * p + 2 * q + ys);
    assert(c / 12 == p);
    assert((c % 12) / 4 == q);
    assert(triplet_byte(data, 0) == (ax - 1) % 256);
    assert(triplet_byte(data, 1) == (ay - 1) % 256);
    lemma_signed(dx, flag);
    lemma_signed(dy, flag / 2);
}

proof fn lemma_triplet_wide(dx: int, dy: int)
    requires
        !(dx == 0 && magnitude(dy) < 1280),
        !(dy == 0 && magnitude(dx) < 1280),
        !(magnitude(dx) <= 64 && magnitude(dy) <= 64),
        !(magnitude(dx) <= 768 && magnitude(dy) <= 768),
        magnitude(dx) < 4096,
        magnitude(dy) < 4096,
    ensures
        triplet_delta(triplet_encoding(dx, dy).0, triplet_encoding(dx, dy).1) == (dx, dy),
        triplet_encoding(dx, dy).1.len() == triplet_len(triplet_encoding(dx, dy).0),
{
    let ax = magnitude(dx);
    let ay = magnitude(dy);
    let xs = sign_bit(dx);
    let ys = sign_bit(dy);
    let (flag, data) = triplet_encoding(dx, dy);
    lemma_split_div_mod(ax, 16);
    lemma_split_div_mod(ay, 256);
    assert(ay / 256 < 16);
    assert(ax / 16 < 256);
    let b1 = 16 * (ax % 16) + ay / 256;
    lemma_div_mod_of(ax % 16, ay / 256, 16);
    assert(flag as int == 120 + xs + 2 * ys);
    lemma_div_mod_of(60 + ys, xs, 2);
    lemma_div_mod_of(30, ys, 2);
    assert(triplet_byte(data, 0) == ax / 16);
    assert(triplet_byte(data, 1) == b1);
    assert(triplet_byte(data, 2) == ay % 256);
    lemma_signed(dx, flag);
    lemma_signed(dy, flag / 2);
}

proof fn lemma_triplet_words(dx: int, dy: int)
    requires
        !(dx == 0 && magnitude(dy) < 1280),
        !(dy == 0 && magnitude(dx) < 1280),
        !(magnitude(dx) <= 64 && magnitude(dy) <= 64),
        !(magnitude(dx) <= 768 && magnitude(dy) <= 768),
        !(magnitude(dx) < 4096 && magnitude(dy) < 4096),
        magnitude(dx) < 65536,
        magnitude(dy) < 65536,
    ensures
        triplet_delta(triplet_encoding(dx, dy).0, triplet_encoding(dx, dy).1) == (dx, dy),
        triplet_encoding(dx, dy).1.len() == triplet_len(triplet_encoding(dx, dy).0),
{
    let ax = magnitude(dx);
    let ay = magnitude(dy);
    let xs = sign_bit(dx);
    let ys = sign_bit(dy);
    let (flag, data) = triplet_encoding(dx, dy);
    lemma_split_div_mod(ax, 256);
    lemma_split_div_mod(ay, 256);
    assert(flag as int == 124 + xs + 2 * ys);
    lemma_div_mod_of(62 + ys, xs, 2);
    lemma_div_mod_of(31, ys, 2);
    assert(triplet_byte(data, 0) == ax / 256);
    assert(triplet_byte(data, 1) == ax % 256);
    assert(triplet_byte(data, 2) == ay / 256);
    assert(triplet_byte(data, 3) == ay % 256);
    lemma_signed(dx, flag);
    lemma_signed(dy, flag / 2);
}

/// Decoding the triplet the WOFF2 encoder writes for a delta pair gives the
/// pair back, with exactly as many data bytes as the flag says: in every
/// bracket `x` comes from the leading bits and `y` from the trailing ones.
pub proof fn lemma_triplet_round_trip(dx: int, dy: int)
    requires
        magnitude(dx) < 65536,
        magnitude(dy) < 65536,
    ensures
        triplet_delta(triplet_encoding(dx, dy).0, triplet_encoding(dx, dy).1) == (dx, dy),
        triplet_encoding(dx, dy).1.len() == triplet_len(triplet_encoding(dx, dy).0),
{
    let ax = magnitude(dx);
    let ay = magnitude(dy);
    if dx == 0 && ay < 1280 {
        lemma_triplet_y_only(dy);
    } else if dy == 0 && ax < 1280 {
        lemma_triplet_x_only(dx);
    } else if ax <= 64 && ay <= 64 {
        lemma_triplet_nibbles(dx, dy);
    } else if ax <= 768 && ay <= 768 {
        lemma_triplet_bytes(dx, dy);
    } else if ax < 4096 && ay < 4096 {
        lemma_triplet_wide(dx, dy);
    } else {
        lemma_triplet_words(dx, dy);
    }
}

} // verus!
