//! A reading position in a byte slice.

use crate::bytes;
use crate::bytes::{read_u16, read_u32, read_u64, signed_16, signed_32};
use crate::error::{Error, Fault, Result};
use crate::float::{Double, Single};
use vstd::prelude::*;
use vstd::slice::slice_subrange;

verus! {

/// The outcome of reading `len` bytes at `offset`.
pub open spec fn take(bytes: Seq<u8>, offset: int, len: int) -> std::result::Result<
    Seq<u8>,
    Fault,
> {
    if offset + len > usize::MAX {
        Err(Fault::InvalidBlob("offset overflow"@))
    } else if offset + len > bytes.len() {
        Err(
            Fault::Truncated {
                offset: offset as nat,
                needed: len as nat,
                available: (bytes.len() - offset) as nat,
            },
        )
    } else {
        Ok(bytes.subrange(offset, offset + len))
    }
}

/// The outcome of reading one byte.
pub open spec fn take_u8(bytes: Seq<u8>, offset: int) -> std::result::Result<u8, Fault> {
    match take(bytes, offset, 1) {
        Ok(field) => Ok(field[0]),
        Err(e) => Err(e),
    }
}

/// The outcome of reading an unsigned little-endian number of `len` bytes.
pub open spec fn take_number(bytes: Seq<u8>, offset: int, len: int) -> std::result::Result<
    nat,
    Fault,
> {
    match take(bytes, offset, len) {
        Ok(field) => Ok(bytes::le_value(field)),
        Err(e) => Err(e),
    }
}

/// The outcome of reading a signed 16-bit number.
pub open spec fn take_i16(bytes: Seq<u8>, offset: int) -> std::result::Result<int, Fault> {
    match take_number(bytes, offset, 2) {
        Ok(value) => Ok(bytes::signed(value, 0x1_0000)),
        Err(e) => Err(e),
    }
}

/// The outcome of reading a signed 32-bit number.
pub open spec fn take_i32(bytes: Seq<u8>, offset: int) -> std::result::Result<int, Fault> {
    match take_number(bytes, offset, 4) {
        Ok(value) => Ok(bytes::signed(value, 0x1_0000_0000)),
        Err(e) => Err(e),
    }
}

/// The outcome of reading a double.
pub open spec fn take_double(bytes: Seq<u8>, offset: int) -> std::result::Result<Double, Fault> {
    match take_number(bytes, offset, 8) {
        Ok(value) => Ok(Double { bits: value as u64 }),
        Err(e) => Err(e),
    }
}

/// The outcome of reading a single.
pub open spec fn take_single(bytes: Seq<u8>, offset: int) -> std::result::Result<Single, Fault> {
    match take_number(bytes, offset, 4) {
        Ok(value) => Ok(Single { bits: value as u32 }),
        Err(e) => Err(e),
    }
}

/// A byte slice and the offset of the next unread byte.
#[derive(Clone, Copy)]
pub struct Cursor<'a> {
    bytes: &'a [u8],
    offset: usize,
}

impl<'a> Cursor<'a> {
    /// All the bytes, read and unread.
    pub closed spec fn all(self) -> Seq<u8> {
        self.bytes@
    }

    /// The offset of the next unread byte.
    pub closed spec fn at(self) -> int {
        self.offset as int
    }

    /// The position lies within the bytes.
    pub open spec fn wf(self) -> bool {
        0 <= self.at() <= self.all().len() <= usize::MAX
    }

    /// Starts at the first byte.
    pub fn new(bytes: &'a [u8]) -> (r: Cursor<'a>)
        ensures
            r.wf(),
            r.all() == bytes@,
            r.at() == 0,
    {
        let _len: usize = bytes.len();
        Cursor { bytes, offset: 0 }
    }

    /// The number of unread bytes.
    pub fn remaining(&self) -> (r: usize)
        requires
            self.wf(),
        ensures
            r == self.all().len() - self.at(),
    {
        self.bytes.len() - self.offset
    }

    /// The offset of the next unread byte.
    pub fn offset(&self) -> (r: usize)
        ensures
            r == self.at(),
    {
        self.offset
    }

    /// Reads `len` bytes.
    pub fn read_bytes(&mut self, len: usize) -> (r: Result<&'a [u8]>)
        requires
            old(self).wf(),
        ensures
            final(self).wf(),
            final(self).all() == old(self).all(),
            match r {
                Ok(field) => {
                    &&& take(old(self).all(), old(self).at(), len as int) == Ok::<_, Fault>(field@)
                    &&& final(self).at() == old(self).at() + len
                    &&& field@.len() == len
                },
                Err(e) => {
                    &&& take(old(self).all(), old(self).at(), len as int) == Err::<Seq<u8>, _>(e@)
                    &&& final(self).at() == old(self).at()
                },
            },
    {
        let end: usize = match self.offset.checked_add(len) {
            Some(end) => end,
            None => {
                return Err(Error::invalid_blob("offset overflow"));
            },
        };
        if end > self.bytes.len() {
            return Err(
                Error::Truncated {
                    offset: self.offset,
                    needed: len,
                    available: self.bytes.len() - self.offset,
                },
            );
        }
        let field: &'a [u8] = slice_subrange(self.bytes, self.offset, end);
        self.offset = end;
        Ok(field)
    }

    /// Moves past `len` bytes.
    pub fn skip(&mut self, len: usize) -> (r: Result<()>)
        requires
            old(self).wf(),
        ensures
            final(self).wf(),
            final(self).all() == old(self).all(),
            match r {
                Ok(_) => {
                    &&& take(old(self).all(), old(self).at(), len as int) is Ok
                    &&& final(self).at() == old(self).at() + len
                },
                Err(e) => {
                    &&& take(old(self).all(), old(self).at(), len as int) == Err::<Seq<u8>, _>(e@)
                    &&& final(self).at() == old(self).at()
                },
            },
    {
        let _field: &'a [u8] = self.read_bytes(len)?;
        Ok(())
    }

    /// Reads one byte.
    pub fn read_u8(&mut self) -> (r: Result<u8>)
        requires
            old(self).wf(),
        ensures
            final(self).wf(),
            final(self).all() == old(self).all(),
            match r {
                Ok(value) => {
                    &&& take_u8(old(self).all(), old(self).at()) == Ok::<_, Fault>(value)
                    &&& final(self).at() == old(self).at() + 1
                },
                Err(e) => {
                    &&& take_u8(old(self).all(), old(self).at()) == Err::<u8, _>(e@)
                    &&& final(self).at() == old(self).at()
                },
            },
    {
        let field: &'a [u8] = self.read_bytes(1)?;
        Ok(field[0])
    }

    /// Reads an unsigned 16-bit number.
    pub fn read_u16(&mut self) -> (r: Result<u16>)
        requires
            old(self).wf(),
        ensures
            final(self).wf(),
            final(self).all() == old(self).all(),
            match r {
                Ok(value) => {
                    &&& take_number(old(self).all(), old(self).at(), 2) == Ok::<_, Fault>(
                        value as nat,
                    )
                    &&& final(self).at() == old(self).at() + 2
                },
                Err(e) => {
                    &&& take_number(old(self).all(), old(self).at(), 2) == Err::<nat, _>(e@)
                    &&& final(self).at() == old(self).at()
                },
            },
    {
        let field: &'a [u8] = self.read_bytes(2)?;
        Ok(read_u16(field))
    }

    /// Reads an unsigned 32-bit number.
    pub fn read_u32(&mut self) -> (r: Result<u32>)
        requires
            old(self).wf(),
        ensures
            final(self).wf(),
            final(self).all() == old(self).all(),
            match r {
                Ok(value) => {
                    &&& take_number(old(self).all(), old(self).at(), 4) == Ok::<_, Fault>(
                        value as nat,
                    )
                    &&& final(self).at() == old(self).at() + 4
                },
                Err(e) => {
                    &&& take_number(old(self).all(), old(self).at(), 4) == Err::<nat, _>(e@)
                    &&& final(self).at() == old(self).at()
                },
            },
    {
        let field: &'a [u8] = self.read_bytes(4)?;
        Ok(read_u32(field))
    }

    /// Reads a signed 16-bit number.
    pub fn read_i16(&mut self) -> (r: Result<i16>)
        requires
            old(self).wf(),
        ensures
            final(self).wf(),
            final(self).all() == old(self).all(),
            match r {
                Ok(value) => {
                    &&& take_i16(old(self).all(), old(self).at()) == Ok::<_, Fault>(value as int)
                    &&& final(self).at() == old(self).at() + 2
                },
                Err(e) => {
                    &&& take_i16(old(self).all(), old(self).at()) == Err::<int, _>(e@)
                    &&& final(self).at() == old(self).at()
                },
            },
    {
        let field: &'a [u8] = self.read_bytes(2)?;
        Ok(signed_16(read_u16(field)))
    }

    /// Reads a signed 32-bit number.
    pub fn read_i32(&mut self) -> (r: Result<i32>)
        requires
            old(self).wf(),
        ensures
            final(self).wf(),
            final(self).all() == old(self).all(),
            match r {
                Ok(value) => {
                    &&& take_i32(old(self).all(), old(self).at()) == Ok::<_, Fault>(value as int)
                    &&& final(self).at() == old(self).at() + 4
                },
                Err(e) => {
                    &&& take_i32(old(self).all(), old(self).at()) == Err::<int, _>(e@)
                    &&& final(self).at() == old(self).at()
                },
            },
    {
        let field: &'a [u8] = self.read_bytes(4)?;
        Ok(signed_32(read_u32(field)))
    }

    /// Reads a double.
    pub fn read_f64(&mut self) -> (r: Result<Double>)
        requires
            old(self).wf(),
        ensures
            final(self).wf(),
            final(self).all() == old(self).all(),
            match r {
                Ok(value) => {
                    &&& take_double(old(self).all(), old(self).at()) == Ok::<_, Fault>(value)
                    &&& final(self).at() == old(self).at() + 8
                },
                Err(e) => {
                    &&& take_double(old(self).all(), old(self).at()) == Err::<Double, _>(e@)
                    &&& final(self).at() == old(self).at()
                },
            },
    {
        let field: &'a [u8] = self.read_bytes(8)?;
        Ok(Double { bits: read_u64(field) })
    }

    /// Reads a single.
    pub fn read_f32(&mut self) -> (r: Result<Single>)
        requires
            old(self).wf(),
        ensures
            final(self).wf(),
            final(self).all() == old(self).all(),
            match r {
                Ok(value) => {
                    &&& take_single(old(self).all(), old(self).at()) == Ok::<_, Fault>(value)
                    &&& final(self).at() == old(self).at() + 4
                },
                Err(e) => {
                    &&& take_single(old(self).all(), old(self).at()) == Err::<Single, _>(e@)
                    &&& final(self).at() == old(self).at()
                },
            },
    {
        let field: &'a [u8] = self.read_bytes(4)?;
        Ok(Single { bits: read_u32(field) })
    }
}

} // verus!
