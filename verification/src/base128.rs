//! WOFF2 `UIntBase128`: big-endian, seven bits per byte, the high bit set on
//! every byte but the last. Overlong and non-minimal encodings are rejected.

use crate::error::{truncated, ErrorModel, FontError, Result};
use crate::read::Reader;
use vstd::prelude::*;

verus! {

/// Most bytes a `UIntBase128` may occupy.
pub const MAX_BYTES: usize = 5;

/// How a `UIntBase128` read proceeds from its `i`-th byte at `pos + i`, with
/// `value` accumulated so far: the value and the position after it, or the error.
pub open spec fn b128_from(s: Seq<u8>, pos: int, i: int, value: u32) -> core::result::Result<(u32, int), ErrorModel>
    decreases 5 - i,
{
    if i >= 5 || i < 0 {
        Err(ErrorModel::BadBase128 { detail: "more than 5 bytes" })
    } else if pos + i + 1 > s.len() {
        Err(truncated(1, s.len() - (pos + i), "UIntBase128 value"))
    } else {
        let byte = s[pos + i];
        if i == 0 && byte == 0x80 {
            Err(ErrorModel::BadBase128 { detail: "leading zero group" })
        } else if value > 0x1ff_ffff {
            Err(ErrorModel::BadBase128 { detail: "value exceeds u32" })
        } else {
            let next = (value << 7u32) | ((byte & 0x7f) as u32);
            if byte & 0x80 == 0 {
                Ok((next, pos + i + 1))
            } else {
                b128_from(s, pos, i + 1, next)
            }
        }
    }
}

/// Reading a `UIntBase128` at `pos` of `s`.
pub open spec fn b128_read(s: Seq<u8>, pos: int) -> core::result::Result<(u32, int), ErrorModel> {
    b128_from(s, pos, 0, 0)
}

/// Number of seven-bit groups in the minimal encoding of `v`.
pub open spec fn b128_len(v: u32) -> nat {
    if v < 0x80 {
        1
    } else if v < 0x4000 {
        2
    } else if v < 0x20_0000 {
        3
    } else if v < 0x1000_0000 {
        4
    } else {
        5
    }
}

/// `v` without its `c` lowest seven-bit groups.
pub open spec fn b128_high(v: u32, c: u32) -> u32 {
    v >> (7 * c)
}

/// Seven-bit group `k` of `v`, counted from the least significant.
pub open spec fn b128_group(v: u32, k: u32) -> u8 {
    ((v >> (7 * k)) & 0x7f) as u8
}

/// The minimal encoding of `v`: its groups, most significant first, each but
/// the last with the high bit set.
pub open spec fn b128_encode(v: u32) -> Seq<u8> {
    Seq::new(
        b128_len(v),
        |j: int|
            if j + 1 < b128_len(v) {
                b128_group(v, (b128_len(v) - 1 - j) as u32) | 0x80
            } else {
                b128_group(v, (b128_len(v) - 1 - j) as u32)
            },
    )
}

/// Read a `UIntBase128` at the cursor.
pub fn read(r: &mut Reader<'_>) -> (res: Result<u32>)
    requires
        old(r).wf(),
    ensures
        final(r).data() == old(r).data(),
        match res {
            Ok(v) => b128_read(old(r).data(), old(r).pos()) == Ok::<(u32, int), ErrorModel>((v, final(r).pos()))
                && final(r).wf(),
            Err(e) => b128_read(old(r).data(), old(r).pos()) == Err::<(u32, int), ErrorModel>(e@),
        },
{
    let ghost s = r.data();
    let ghost pos0 = r.pos();
    let mut value: u32 = 0;
    let mut i: usize = 0;
    while i < MAX_BYTES
        invariant
            r.data() == s,
            s == old(r).data(),
            pos0 == old(r).pos(),
            r.wf(),
            0 <= i <= MAX_BYTES,
            r.pos() == pos0 + i,
            b128_from(s, pos0, i as int, value) == b128_read(s, pos0),
        decreases MAX_BYTES - i,
    {
        let byte = r.u8("UIntBase128 value")?;
        if i == 0 && byte == 0x80 {
            return Err(FontError::BadBase128 { detail: "leading zero group" });
        }
        assert(u32::MAX >> 7u32 == 0x1ff_ffff) by (bit_vector);
        if value > (u32::MAX >> 7u32) {
            return Err(FontError::BadBase128 { detail: "value exceeds u32" });
        }
        value = (value << 7u32) | ((byte & 0x7f) as u32);
        if byte & 0x80 == 0 {
            return Ok(value);
        }
        i = i + 1;
    }
    Err(FontError::BadBase128 { detail: "more than 5 bytes" })
}

/// Append the minimal `UIntBase128` encoding of `value`.
pub fn write(out: &mut Vec<u8>, value: u32)
    ensures
        final(out)@ == old(out)@ + b128_encode(value),
{
    let ghost start = out@;
    let ghost len = b128_len(value);
    proof { lemma_len_by_shifts(value); }
    // Count the seven-bit groups.
    let mut count: u32 = 1;
    let mut v = value >> 7u32;
    assert(v == b128_high(value, 1));
    while v != 0
        invariant
            1 <= count <= len,
            v == b128_high(value, count),
            (v == 0) == (count == len),
            len == b128_len(value),
            len <= 5,
            forall|c: u32| 1 <= c <= 5 ==> (#[trigger] b128_high(value, c) == 0) == (c >= b128_len(value)),
        decreases len - count,
    {
        assert(v >> 7u32 == value >> (7 * (count + 1))) by (bit_vector)
            requires
                v == value >> (7 * count),
                1 <= count <= 4,
        ;
        v = v >> 7u32;
        count = count + 1;
        assert(v == b128_high(value, count));
    }
    // Emit them most significant first.
    let mut i = count;
    while i > 0
        invariant
            i <= count,
            count == len,
            len == b128_len(value),
            len <= 5,
            out@ == start + b128_encode(value).subrange(0, (len - i) as int),
        decreases i,
    {
        i = i - 1;
        assert((value >> (7 * i)) & 0x7f <= 0x7f) by (bit_vector);
        let group = ((value >> (7 * i)) & 0x7f) as u8;
        assert(group == b128_group(value, i));
        let byte = if i == 0 { group } else { group | 0x80 };
        out.push(byte);
        assert(b128_encode(value)[(len - 1 - i) as int] == byte);
        assert(out@ =~= start + b128_encode(value).subrange(0, (len - i) as int));
    }
    assert(b128_encode(value).subrange(0, len as int) =~= b128_encode(value));
}

/// Shifting out whole groups leaves zero exactly when the value has no more groups.
proof fn lemma_len_by_shifts(value: u32)
    ensures
        b128_len(value) <= 5,
        forall|c: u32| 1 <= c <= 5 ==> (#[trigger] b128_high(value, c) == 0) == (c >= b128_len(value)),
{
    assert(((value >> 7u32) == 0) == (value < 0x80)) by (bit_vector);
    assert(((value >> 14u32) == 0) == (value < 0x4000)) by (bit_vector);
    assert(((value >> 21u32) == 0) == (value < 0x20_0000)) by (bit_vector);
    assert(((value >> 28u32) == 0) == (value < 0x1000_0000)) by (bit_vector);
    assert((value >> 35u32) == 0) by (bit_vector);
    assert forall|c: u32| 1 <= c <= 5 implies (#[trigger] b128_high(value, c) == 0) == (c >= b128_len(value)) by {
        if c == 1 {
        } else if c == 2 {
        } else if c == 3 {
        } else if c == 4 {
        } else {
        }
    }
}

/// Facts about one seven-bit step, shared by both directions of the round trip.
proof fn lemma_group_step(v: u32, c: u32)
    requires
        c <= 4,
    ensures
        b128_high(v, (c + 1) as u32) <= 0x1ff_ffff,
        b128_high(v, (c + 1) as u32) == b128_high(v, c) >> 7u32,
        (b128_high(v, (c + 1) as u32) << 7u32) | ((b128_high(v, c) & 0x7f) as u32) == b128_high(v, c),
        b128_group(v, c) == (b128_high(v, c) & 0x7f) as u8,
        b128_group(v, c) < 0x80,
        b128_high(v, (c + 1) as u32) == 0 ==> (b128_high(v, c) & 0x7f) == b128_high(v, c),
        (b128_high(v, c) & 0x7f) < 0x80,
{
    assert(((v >> (7 * (c + 1))) == 0 ==> ((v >> (7 * c)) & 0x7f) == (v >> (7 * c))) && (v >> (7 * (c + 1))) <= 0x1ff_ffff && (v >> (7 * (c + 1))) == (v >> (7 * c)) >> 7u32
        && ((v >> (7 * (c + 1))) << 7u32) | ((v >> (7 * c)) & 0x7f) == v >> (7 * c)
        && ((v >> (7 * c)) & 0x7f) < 0x80) by (bit_vector)
        requires
            c <= 4,
    ;
}

/// Byte-level facts about a group with and without the continuation bit.
proof fn lemma_byte_bits(g: u8, b: u8)
    ensures
        g < 0x80 ==> (g | 0x80) & 0x7f == g && (g | 0x80) & 0x80 != 0 && g & 0x7f == g && g & 0x80 == 0,
        0 < g < 0x80 ==> (g | 0x80) != 0x80,
        b == (b & 0x7f) | (if b & 0x80 == 0 { 0u8 } else { 0x80u8 }),
        (b & 0x7f) < 0x80,
{
    assert(g < 0x80 ==> (g | 0x80) & 0x7f == g && (g | 0x80) & 0x80 != 0 && g & 0x7f == g && g & 0x80 == 0)
        by (bit_vector);
    assert(0 < g < 0x80 ==> (g | 0x80) != 0x80) by (bit_vector);
    assert(b == (b & 0x7f) | (if b & 0x80 == 0 { 0u8 } else { 0x80u8 }) && (b & 0x7f) < 0x80) by (bit_vector);
}

proof fn lemma_read_encoded_from(s: Seq<u8>, pos: int, v: u32, i: int)
    requires
        0 <= pos,
        0 <= i < b128_len(v),
        pos + b128_len(v) <= s.len(),
        s.subrange(pos, pos + b128_len(v)) == b128_encode(v),
    ensures
        b128_from(s, pos, i, b128_high(v, (b128_len(v) - i) as u32)) == Ok::<(u32, int), ErrorModel>((v, pos + b128_len(v))),
    decreases b128_len(v) - i,
{
    let len = b128_len(v);
    lemma_len_by_shifts(v);
    let k = (len - 1 - i) as u32;
    lemma_group_step(v, k);
    let value = b128_high(v, (len - i) as u32);
    assert(s[pos + i] == b128_encode(v)[i]);
    let g = b128_group(v, k);
    lemma_byte_bits(g, 0);
    if i == 0 && len > 1 {
        // The top group of a multi-group value is not zero.
        assert(1 <= k <= 5 && k < b128_len(v));
        assert((b128_high(v, k) == 0) == (k >= b128_len(v)));
        assert(b128_high(v, k) != 0);
        assert(b128_high(v, (len - i) as u32) == 0);
        assert(b128_high(v, k) < 0x80);
        assert(g != 0);
    }
    let byte = s[pos + i];
    assert(value <= 0x1ff_ffff);
    assert((byte & 0x7f) == g);
    assert(((byte & 0x7f) as u32) == (b128_high(v, k) & 0x7f));
    let next = (value << 7u32) | ((byte & 0x7f) as u32);
    assert(next == b128_high(v, k));
    if i + 1 < len {
        assert(byte & 0x80 != 0);
        lemma_read_encoded_from(s, pos, v, i + 1);
        assert(b128_from(s, pos, i + 1, next) == Ok::<(u32, int), ErrorModel>((v, pos + b128_len(v))));
    } else {
        assert(byte & 0x80 == 0);
        assert(b128_high(v, 0) == v) by (bit_vector);
    }
}

/// Reading back what `write` wrote gives the value, and stops right after it.
pub proof fn lemma_read_write_roundtrip(s: Seq<u8>, pos: int, v: u32)
    requires
        0 <= pos,
        pos + b128_len(v) <= s.len(),
        s.subrange(pos, pos + b128_len(v)) == b128_encode(v),
    ensures
        b128_read(s, pos) == Ok::<(u32, int), ErrorModel>((v, pos + b128_len(v))),
{
    lemma_len_by_shifts(v);
    assert(b128_high(v, b128_len(v) as u32) == 0);
    lemma_read_encoded_from(s, pos, v, 0);
}


/// One read step: the value with one more group keeps the groups it had.
proof fn lemma_shift_in(acc: u32, x: u32, c: u32)
    requires
        acc <= 0x1ff_ffff,
        x < 0x80,
        c <= 4,
    ensures
        b128_high((acc << 7u32) | x, (c + 1) as u32) == b128_high(acc, c),
        ((acc << 7u32) | x) & 0x7f == x,
{
    assert(((acc << 7u32) | x) >> (7 * (c + 1)) == acc >> (7 * c) && ((acc << 7u32) | x) & 0x7f == x) by (bit_vector)
        requires
            acc <= 0x1ff_ffff,
            x < 0x80,
            c <= 4,
    ;
}

/// What is read from `pos + i` on, with `acc` holding the `i` groups read so
/// far (none for `i` zero, a nonzero top group otherwise), is the minimal
/// encoding of the value.
proof fn lemma_read_canonical_from(s: Seq<u8>, pos: int, i: int, acc: u32)
    requires
        0 <= pos,
        0 <= i <= 4,
        i == 0 ==> acc == 0,
        i >= 1 ==> b128_high(acc, (i - 1) as u32) != 0 && b128_high(acc, i as u32) == 0,
    ensures
        b128_from(s, pos, i, acc) matches Ok((v, p)) ==> {
            &&& p - pos == b128_len(v)
            &&& p <= s.len()
            &&& i < p - pos
            &&& b128_high(v, (p - pos - i) as u32) == acc
            &&& forall|j: int| i <= j < p - pos ==> s[pos + j] == #[trigger] b128_encode(v)[j]
        },
    decreases 5 - i,
{
    if pos + i + 1 <= s.len() {
        let byte = s[pos + i];
        if !(i == 0 && byte == 0x80) && acc <= 0x1ff_ffff {
            let x = (byte & 0x7f) as u32;
            let next = (acc << 7u32) | x;
            lemma_byte_bits(0, byte);
            assert(x < 0x80);
            lemma_shift_in(acc, x, i as u32);
            lemma_shift_in(acc, x, 0);
            if i >= 1 {
                lemma_shift_in(acc, x, (i - 1) as u32);
            }
            assert(b128_high(acc, 0) == acc) by (bit_vector);
            assert(b128_high(next, 0) == next) by (bit_vector);
            if i == 0 {
                assert(next == x) by (bit_vector)
                    requires
                        acc == 0,
                        next == (acc << 7u32) | x,
                ;
            }
            lemma_len_by_shifts(next);
            if byte & 0x80 == 0 {
                // The last group: the value has exactly i + 1 groups.
                assert(b128_high(next, (i + 1) as u32) == 0);
                if i >= 1 {
                    assert(b128_high(next, i as u32) != 0);
                }
                assert(b128_len(next) == i + 1);
                assert(b128_encode(next)[i] == b128_group(next, 0));
                assert(b128_group(next, 0) == (next & 0x7f) as u8) by (bit_vector);
                assert(byte & 0x80 == 0 ==> byte == (byte & 0x7f)) by (bit_vector);
            } else {
                // More groups follow; the one just read is nonzero if it is the first.
                if i == 0 {
                    assert(byte & 0x7f != 0) by (bit_vector)
                        requires
                            byte != 0x80u8,
                            byte & 0x80 != 0,
                    ;
                    assert(b128_high(next, 1) == 0) by (bit_vector)
                        requires
                            next < 0x80,
                    ;
                }
                if i + 1 <= 4 {
                    lemma_read_canonical_from(s, pos, i + 1, next);
                }
                if let Ok((v, p)) = b128_from(s, pos, i, acc) {
                    let len = p - pos;
                    lemma_len_by_shifts(v);
                    lemma_group_step(v, (len - i - 1) as u32);
                    assert(b128_high(v, (len - i) as u32) == b128_high(v, (len - i - 1) as u32) >> 7u32);
                    assert(b128_high(v, (len - i - 1) as u32) == next);
                    assert(next >> 7u32 == acc) by (bit_vector)
                        requires
                            next == (acc << 7u32) | x,
                            acc <= 0x1ff_ffff,
                            x < 0x80,
                    ;
                    assert(b128_encode(v)[i] == b128_group(v, (len - 1 - i) as u32) | 0x80);
                    assert(b128_group(v, (len - 1 - i) as u32) == (next & 0x7f) as u8);
                    assert(((next & 0x7f) as u8) | 0x80 == byte) by (bit_vector)
                        requires
                            next & 0x7f == (byte & 0x7f) as u32,
                            byte & 0x80 != 0,
                    ;
                }
            }
        }
    }
}

/// `read` accepts only the minimal encoding: the bytes it consumed are
/// exactly what `write` writes for the value it returned.
pub proof fn lemma_read_is_canonical(s: Seq<u8>, pos: int)
    requires
        0 <= pos,
    ensures
        b128_read(s, pos) matches Ok((v, p)) ==> p == pos + b128_len(v) && s.subrange(pos, p) == b128_encode(v),
{
    lemma_read_canonical_from(s, pos, 0, 0);
    if let Ok((v, p)) = b128_read(s, pos) {
        assert(s.subrange(pos, p) =~= b128_encode(v));
    }
}

} // verus!
