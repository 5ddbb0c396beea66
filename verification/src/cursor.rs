use vstd::prelude::*;
use crate::error::FormatError;

verus! {

/// The four bytes "PACK" read as a big-endian integer.
pub const MAGIC_HEADER: u32 = 0x5041_434B;

/// The big-endian value of the four bytes of `s` that start at `at`.
pub open spec fn be_u32_at(s: Seq<u8>, at: int) -> int {
    s[at] * 0x100_0000 + s[at + 1] * 0x1_0000 + s[at + 2] * 0x100 + s[at + 3]
}

/// A sequential reader over a borrowed byte buffer, with an absolute position
/// that may be moved anywhere; a position at or past the end reads nothing.
pub struct ByteCursor<'a> {
    data: &'a [u8],
    pos: usize,
}

impl<'a> ByteCursor<'a> {
    /// The bytes the cursor reads from.
    pub closed spec fn bytes(&self) -> Seq<u8> {
        self.data@
    }

    /// The index of the next byte to be read.
    pub closed spec fn offset(&self) -> int {
        self.pos as int
    }

    /// A cursor at the start of `data`.
    pub fn new(data: &'a [u8]) -> (c: Self)
        ensures
            c.bytes() == data@,
            c.offset() == 0,
    {
        ByteCursor { data, pos: 0 }
    }

    /// The whole buffer, whatever the position.
    pub fn data(&self) -> (d: &'a [u8])
        ensures
            d@ == self.bytes(),
    {
        self.data
    }

    /// The current position.
    pub fn position(&self) -> (p: usize)
        ensures
            p == self.offset(),
    {
        self.pos
    }

    /// Moves the cursor to the absolute position `pos`.
    pub fn seek(&mut self, pos: usize)
        ensures
            final(self).bytes() == old(self).bytes(),
            final(self).offset() == pos,
    {
        self.pos = pos;
    }
}

/// Reads one byte and steps past it; `Truncated`, with the cursor unmoved,
/// when no byte is left.
pub fn read_byte(r: &mut ByteCursor) -> (res: Result<u8, FormatError>)
    ensures
        final(r).bytes() == old(r).bytes(),
        match res {
            Ok(b) => old(r).offset() < old(r).bytes().len()
                && b == old(r).bytes()[old(r).offset()]
                && final(r).offset() == old(r).offset() + 1,
            Err(e) => e == FormatError::Truncated
                && old(r).offset() >= old(r).bytes().len()
                && final(r).offset() == old(r).offset(),
        },
{
    if r.pos < r.data.len() {
        let b: u8 = r.data[r.pos];
        r.pos = r.pos + 1;
        Ok(b)
    } else {
        Err(FormatError::Truncated)
    }
}

/// Reads four bytes as a big-endian integer and steps past them; `Truncated`,
/// with the cursor unmoved, when fewer than four bytes are left.
pub fn read_be_u32(r: &mut ByteCursor) -> (res: Result<u32, FormatError>)
    ensures
        final(r).bytes() == old(r).bytes(),
        match res {
            Ok(v) => old(r).offset() + 4 <= old(r).bytes().len()
                && v == be_u32_at(old(r).bytes(), old(r).offset())
                && final(r).offset() == old(r).offset() + 4,
            Err(e) => e == FormatError::Truncated
                && old(r).offset() + 4 > old(r).bytes().len()
                && final(r).offset() == old(r).offset(),
        },
{
    let len: usize = r.data.len();
    if r.pos <= len && len - r.pos >= 4 {
        let b0: u32 = r.data[r.pos] as u32;
        let b1: u32 = r.data[r.pos + 1] as u32;
        let b2: u32 = r.data[r.pos + 2] as u32;
        let b3: u32 = r.data[r.pos + 3] as u32;
        r.pos = r.pos + 4;
        Ok(b0 * 0x100_0000 + b1 * 0x1_0000 + b2 * 0x100 + b3)
    } else {
        Err(FormatError::Truncated)
    }
}

/// What the twelve-byte preamble at the start of `s` declares: the format
/// version and the object count, in that order.
pub open spec fn header_of(s: Seq<u8>) -> Result<(u32, u32), FormatError> {
    if s.len() < 12 {
        Err(FormatError::Truncated)
    } else if be_u32_at(s, 0) != MAGIC_HEADER {
        Err(FormatError::BadMagic)
    } else {
        Ok((be_u32_at(s, 4) as u32, be_u32_at(s, 8) as u32))
    }
}

/// Reads the preamble from a cursor at the start of its buffer and leaves the
/// cursor on the first object; on failure the cursor is back at the start.
pub fn read_header(r: &mut ByteCursor) -> (res: Result<(u32, u32), FormatError>)
    requires
        old(r).offset() == 0,
    ensures
        final(r).bytes() == old(r).bytes(),
        res == header_of(old(r).bytes()),
        final(r).offset() == if res is Ok { 12int } else { 0int },
{
    let magic = match read_be_u32(r) {
        Ok(v) => v,
        Err(e) => {
            return Err(e);
        },
    };
    let version = match read_be_u32(r) {
        Ok(v) => v,
        Err(e) => {
            r.pos = 0;
            return Err(e);
        },
    };
    let num_objects = match read_be_u32(r) {
        Ok(v) => v,
        Err(e) => {
            r.pos = 0;
            return Err(e);
        },
    };
    if magic == MAGIC_HEADER {
        Ok((version, num_objects))
    } else {
        r.pos = 0;
        Err(FormatError::BadMagic)
    }
}

} // verus!
