//! Big-endian integers as byte sequences, and the byte-level building blocks
//! that every container writer shares.

use vstd::prelude::*;

verus! {

/// The big-endian `u16` stored at `s[i..i + 2]`.
pub open spec fn be16(s: Seq<u8>, i: int) -> u16 {
    (s[i] as int * 256 + s[i + 1] as int) as u16
}

/// The big-endian `u32` stored at `s[i..i + 4]`.
pub open spec fn be32(s: Seq<u8>, i: int) -> u32 {
    (s[i] as int * 16777216 + s[i + 1] as int * 65536 + s[i + 2] as int * 256 + s[i + 3] as int) as u32
}

/// The two big-endian bytes of `v`.
pub open spec fn u16_be(v: u16) -> Seq<u8> {
    seq![(v / 256) as u8, (v % 256) as u8]
}

/// The four big-endian bytes of `v`.
pub open spec fn u32_be(v: u32) -> Seq<u8> {
    seq![(v / 16777216) as u8, ((v / 65536) % 256) as u8, ((v / 256) % 256) as u8, (v % 256) as u8]
}

/// Reading back what `u16_be` wrote gives the value.
pub proof fn lemma_be16_roundtrip(v: u16)
    ensures
        be16(u16_be(v), 0) == v,
        u16_be(v).len() == 2,
{
}

/// Reading back what `u32_be` wrote gives the value.
pub proof fn lemma_be32_roundtrip(v: u32)
    ensures
        be32(u32_be(v), 0) == v,
        u32_be(v).len() == 4,
{
}

/// Four bytes are the big-endian bytes of the number they spell.
pub proof fn lemma_be32_bytes(t: Seq<u8>)
    requires
        t.len() == 4,
    ensures
        u32_be(be32(t, 0)) == t,
{
    let v = be32(t, 0);
    assert(v / 16777216 == t[0] as int);
    assert((v / 65536) % 256 == t[1] as int);
    assert((v / 256) % 256 == t[2] as int);
    assert(v % 256 == t[3] as int);
    assert(u32_be(v) =~= t);
}

/// A big-endian read only looks at its own bytes.
pub proof fn lemma_be32_window(s: Seq<u8>, t: Seq<u8>, i: int, j: int)
    requires
        0 <= i,
        i + 4 <= s.len(),
        0 <= j,
        j + 4 <= t.len(),
        s.subrange(i, i + 4) == t.subrange(j, j + 4),
    ensures
        be32(s, i) == be32(t, j),
{
    assert(s[i] == s.subrange(i, i + 4)[0]);
    assert(s[i + 1] == s.subrange(i, i + 4)[1]);
    assert(s[i + 2] == s.subrange(i, i + 4)[2]);
    assert(s[i + 3] == s.subrange(i, i + 4)[3]);
    assert(t[j] == t.subrange(j, j + 4)[0]);
    assert(t[j + 1] == t.subrange(j, j + 4)[1]);
    assert(t[j + 2] == t.subrange(j, j + 4)[2]);
    assert(t[j + 3] == t.subrange(j, j + 4)[3]);
}

/// Append the big-endian bytes of `v`.
pub fn push_u16(out: &mut Vec<u8>, v: u16)
    ensures
        final(out)@ == old(out)@ + u16_be(v),
{
    out.push((v / 256) as u8);
    out.push((v % 256) as u8);
    assert(final(out)@ =~= old(out)@ + u16_be(v));
}

/// Append the big-endian bytes of `v`.
pub fn push_u32(out: &mut Vec<u8>, v: u32)
    ensures
        final(out)@ == old(out)@ + u32_be(v),
{
    out.push((v / 16777216) as u8);
    out.push(((v / 65536) % 256) as u8);
    out.push(((v / 256) % 256) as u8);
    out.push((v % 256) as u8);
    assert(final(out)@ =~= old(out)@ + u32_be(v));
}

/// Append every byte of `src`.
pub fn push_bytes(out: &mut Vec<u8>, src: &[u8])
    ensures
        final(out)@ == old(out)@ + src@,
{
    let ghost start = out@;
    let mut i: usize = 0;
    while i < src.len()
        invariant
            i <= src.len(),
            out@ == start + src@.subrange(0, i as int),
        decreases src.len() - i,
    {
        out.push(src[i]);
        i = i + 1;
        assert(out@ =~= start + src@.subrange(0, i as int));
    }
    assert(src@.subrange(0, src.len() as int) =~= src@);
}

/// Append `n` zero bytes.
pub fn push_zeros(out: &mut Vec<u8>, n: usize)
    ensures
        final(out)@ == old(out)@ + Seq::new(n as nat, |_i: int| 0u8),
{
    let ghost start = out@;
    let mut i: usize = 0;
    while i < n
        invariant
            i <= n,
            out@ == start + Seq::new(i as nat, |_i: int| 0u8),
        decreases n - i,
    {
        out.push(0u8);
        i = i + 1;
        assert(out@ =~= start + Seq::new(i as nat, |_i: int| 0u8));
    }
}

/// A fresh copy of `src`.
pub fn copy_bytes(src: &[u8]) -> (out: Vec<u8>)
    ensures
        out@ == src@,
{
    let mut out: Vec<u8> = Vec::new();
    push_bytes(&mut out, src);
    assert(out@ =~= src@);
    out
}

} // verus!
