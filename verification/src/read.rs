//! A bounds-checked cursor. Every read names what it was reading, so a
//! truncated file produces an actionable error instead of a panic.

use crate::bytes::{be16, be32};
use crate::error::{truncated, ErrorModel, FontError, Result};
use vstd::prelude::*;

verus! {

/// Reading a byte at `pos` of `s`: the byte and the next position, or the error.
pub open spec fn read_u8_at(s: Seq<u8>, pos: int, ctx: &'static str) -> core::result::Result<(u8, int), ErrorModel> {
    if pos + 1 > s.len() { Err(truncated(1, s.len() - pos, ctx)) } else { Ok((s[pos], pos + 1)) }
}

/// Reading a big-endian `u16` at `pos` of `s`.
pub open spec fn read_u16_at(s: Seq<u8>, pos: int, ctx: &'static str) -> core::result::Result<(u16, int), ErrorModel> {
    if pos + 2 > s.len() { Err(truncated(2, s.len() - pos, ctx)) } else { Ok((be16(s, pos), pos + 2)) }
}

/// Reading a big-endian `u32` at `pos` of `s`.
pub open spec fn read_u32_at(s: Seq<u8>, pos: int, ctx: &'static str) -> core::result::Result<(u32, int), ErrorModel> {
    if pos + 4 > s.len() { Err(truncated(4, s.len() - pos, ctx)) } else { Ok((be32(s, pos), pos + 4)) }
}

/// Taking `n` bytes at `pos` of `s`.
pub open spec fn take_at(s: Seq<u8>, pos: int, n: int, ctx: &'static str) -> core::result::Result<(Seq<u8>, int), ErrorModel> {
    if pos + n > s.len() { Err(truncated(n, s.len() - pos, ctx)) } else { Ok((s.subrange(pos, pos + n), pos + n)) }
}

/// A cursor over a byte slice.
pub struct Reader<'a> {
    data: &'a [u8],
    pos: usize,
}

impl<'a> Reader<'a> {
    /// The bytes being read.
    pub closed spec fn data(&self) -> Seq<u8> {
        self.data@
    }

    /// The cursor position.
    pub closed spec fn pos(&self) -> int {
        self.pos as int
    }

    /// The cursor lies inside the data.
    pub open spec fn wf(&self) -> bool {
        0 <= self.pos() <= self.data().len()
    }

    /// The bytes left after the cursor.
    pub open spec fn rest(&self) -> int {
        if self.data().len() >= self.pos() { self.data().len() - self.pos() } else { 0 }
    }

    /// What a read of `n` bytes does from here: the new position, or the error.
    pub open spec fn after(&self, n: int, ctx: &'static str) -> core::result::Result<int, crate::error::ErrorModel> {
        if self.pos() + n > self.data().len() {
            Err(truncated(n, self.rest(), ctx))
        } else {
            Ok(self.pos() + n)
        }
    }

    /// A reader at the start of `data`.
    pub fn new(data: &'a [u8]) -> (r: Self)
        ensures
            r.data() == data@,
            r.pos() == 0,
    {
        Reader { data, pos: 0 }
    }

    /// Where the cursor is.
    pub fn position(&self) -> (p: usize)
        ensures
            p == self.pos(),
    {
        self.pos
    }

    /// How many bytes are left after the cursor.
    pub fn remaining(&self) -> (n: usize)
        ensures
            n == self.rest(),
    {
        self.data.len().saturating_sub(self.pos)
    }

    /// Consume `n` bytes, or report what was being read when they ran out.
    fn take(&mut self, n: usize, while_reading: &'static str) -> (r: Result<&'a [u8]>)
        ensures
            final(self).data() == old(self).data(),
            match r {
                Ok(s) => old(self).after(n as int, while_reading) == Ok::<int, crate::error::ErrorModel>(final(self).pos())
                    && s@ == old(self).data().subrange(old(self).pos(), final(self).pos())
                    && final(self).wf(),
                Err(e) => old(self).after(n as int, while_reading) == Err::<int, crate::error::ErrorModel>(e@)
                    && final(self).pos() == old(self).pos(),
            },
    {
        let len = self.data.len();
        let end = match self.pos.checked_add(n) {
            Some(end) => end,
            None => {
                return Err(FontError::Truncated { needed: n, available: self.remaining(), while_reading });
            },
        };
        if end > len {
            return Err(FontError::Truncated { needed: n, available: self.remaining(), while_reading });
        }
        let slice = &self.data[self.pos..end];
        self.pos = end;
        Ok(slice)
    }

    /// Read one byte.
    pub fn u8(&mut self, ctx: &'static str) -> (r: Result<u8>)
        ensures
            final(self).data() == old(self).data(),
            match r {
                Ok(b) => read_u8_at(old(self).data(), old(self).pos(), ctx) == Ok::<(u8, int), ErrorModel>((b, final(self).pos())),
                Err(e) => read_u8_at(old(self).data(), old(self).pos(), ctx) == Err::<(u8, int), ErrorModel>(e@),
            },
            match r {
                Ok(b) => old(self).after(1, ctx) == Ok::<int, crate::error::ErrorModel>(final(self).pos())
                    && b == old(self).data()[old(self).pos()] && final(self).wf(),
                Err(e) => old(self).after(1, ctx) == Err::<int, crate::error::ErrorModel>(e@)
                    && final(self).pos() == old(self).pos(),
            },
    {
        let s = self.take(1, ctx)?;
        Ok(s[0])
    }

    /// Read a big-endian `u16`.
    pub fn u16(&mut self, ctx: &'static str) -> (r: Result<u16>)
        ensures
            final(self).data() == old(self).data(),
            match r {
                Ok(v) => read_u16_at(old(self).data(), old(self).pos(), ctx) == Ok::<(u16, int), ErrorModel>((v, final(self).pos())),
                Err(e) => read_u16_at(old(self).data(), old(self).pos(), ctx) == Err::<(u16, int), ErrorModel>(e@),
            },
            match r {
                Ok(v) => old(self).after(2, ctx) == Ok::<int, crate::error::ErrorModel>(final(self).pos())
                    && v == be16(old(self).data(), old(self).pos()) && final(self).wf(),
                Err(e) => old(self).after(2, ctx) == Err::<int, crate::error::ErrorModel>(e@)
                    && final(self).pos() == old(self).pos(),
            },
    {
        let s = self.take(2, ctx)?;
        Ok((s[0] as u16) * 256 + (s[1] as u16))
    }

    /// Read a big-endian `u32`.
    pub fn u32(&mut self, ctx: &'static str) -> (r: Result<u32>)
        ensures
            final(self).data() == old(self).data(),
            match r {
                Ok(v) => read_u32_at(old(self).data(), old(self).pos(), ctx) == Ok::<(u32, int), ErrorModel>((v, final(self).pos())),
                Err(e) => read_u32_at(old(self).data(), old(self).pos(), ctx) == Err::<(u32, int), ErrorModel>(e@),
            },
            match r {
                Ok(v) => old(self).after(4, ctx) == Ok::<int, crate::error::ErrorModel>(final(self).pos())
                    && v == be32(old(self).data(), old(self).pos()) && final(self).wf(),
                Err(e) => old(self).after(4, ctx) == Err::<int, crate::error::ErrorModel>(e@)
                    && final(self).pos() == old(self).pos(),
            },
    {
        let s = self.take(4, ctx)?;
        Ok((s[0] as u32) * 16777216 + (s[1] as u32) * 65536 + (s[2] as u32) * 256 + (s[3] as u32))
    }

    /// Read a four-byte table tag.
    pub fn tag(&mut self, ctx: &'static str) -> (r: Result<[u8; 4]>)
        ensures
            final(self).data() == old(self).data(),
            match r {
                Ok(t) => old(self).after(4, ctx) == Ok::<int, crate::error::ErrorModel>(final(self).pos())
                    && t@ == old(self).data().subrange(old(self).pos(), final(self).pos()) && final(self).wf(),
                Err(e) => old(self).after(4, ctx) == Err::<int, crate::error::ErrorModel>(e@)
                    && final(self).pos() == old(self).pos(),
            },
    {
        let s = self.take(4, ctx)?;
        let t = [s[0], s[1], s[2], s[3]];
        assert(t@ =~= s@);
        Ok(t)
    }

    /// Consume and return `n` bytes.
    pub fn take_bytes(&mut self, n: usize, ctx: &'static str) -> (r: Result<&'a [u8]>)
        ensures
            final(self).data() == old(self).data(),
            match r {
                Ok(s) => take_at(old(self).data(), old(self).pos(), n as int, ctx) == Ok::<(Seq<u8>, int), ErrorModel>((s@, final(self).pos())),
                Err(e) => take_at(old(self).data(), old(self).pos(), n as int, ctx) == Err::<(Seq<u8>, int), ErrorModel>(e@),
            },
            match r {
                Ok(s) => old(self).after(n as int, ctx) == Ok::<int, crate::error::ErrorModel>(final(self).pos())
                    && s@ == old(self).data().subrange(old(self).pos(), final(self).pos()) && final(self).wf(),
                Err(e) => old(self).after(n as int, ctx) == Err::<int, crate::error::ErrorModel>(e@)
                    && final(self).pos() == old(self).pos(),
            },
    {
        self.take(n, ctx)
    }

    /// Borrow a range of the data without moving the cursor.
    pub fn slice_at(&self, start: usize, len: usize) -> (r: Option<&'a [u8]>)
        ensures
            match r {
                Some(s) => start + len <= self.data().len() && s@ == self.data().subrange(start as int, start + len),
                None => start + len > self.data().len(),
            },
    {
        let n = self.data.len();
        let end = start.checked_add(len)?;
        if end > n {
            return None;
        }
        Some(&self.data[start..end])
    }

    /// Move past `n` bytes.
    pub fn skip(&mut self, n: usize, ctx: &'static str) -> (r: Result<()>)
        ensures
            final(self).data() == old(self).data(),
            match r {
                Ok(_) => old(self).after(n as int, ctx) == Ok::<int, crate::error::ErrorModel>(final(self).pos()) && final(self).wf(),
                Err(e) => old(self).after(n as int, ctx) == Err::<int, crate::error::ErrorModel>(e@)
                    && final(self).pos() == old(self).pos(),
            },
    {
        self.take(n, ctx)?;
        Ok(())
    }
}

} // verus!
