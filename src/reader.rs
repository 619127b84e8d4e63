use vstd::prelude::*;

use crate::error::FontError;

verus! {

/// The big-endian 16-bit value of the two bytes of `b` at `pos`.
pub open spec fn be_u16(b: Seq<u8>, pos: int) -> int {
    b[pos] as int * 256 + b[pos + 1] as int
}

/// The big-endian 32-bit value of the four bytes of `b` at `pos`.
pub open spec fn be_u32(b: Seq<u8>, pos: int) -> int {
    be_u16(b, pos) * 65536 + be_u16(b, pos + 2)
}

/// The two's-complement value of a 16-bit pattern.
pub open spec fn signed16(v: int) -> int {
    if v >= 0x8000 {
        v - 0x10000
    } else {
        v
    }
}

/// A bounds-checked, advancing view over borrowed bytes.
///
/// Copies are cheap and independent: several cursors over one table serve as pointers
/// into parallel arrays.
#[derive(Clone, Copy)]
pub struct Cursor<'a> {
    bytes: &'a [u8],
    pos: usize,
}

impl<'a> Cursor<'a> {
    /// The bytes the cursor reads from.
    pub closed spec fn data(&self) -> Seq<u8> {
        self.bytes@
    }

    /// Where the next read starts, as an offset into `data()`.
    pub closed spec fn position(&self) -> int {
        self.pos as int
    }

    pub open spec fn wf(&self) -> bool {
        0 <= self.position() <= self.data().len()
    }

    pub fn new(bytes: &'a [u8]) -> (r: Cursor<'a>)
        ensures
            r.data() == bytes@,
            r.position() == 0,
            r.wf(),
    {
        Cursor { bytes, pos: 0 }
    }

    /// Moves `offset` bytes forward; landing exactly at the end is allowed.
    pub fn jump(&mut self, offset: u64) -> (r: Result<(), FontError>)
        requires
            old(self).wf(),
        ensures
            final(self).data() == old(self).data(),
            final(self).wf(),
            old(self).position() + offset <= old(self).data().len() ==> r is Ok
                && final(self).position() == old(self).position() + offset,
            old(self).position() + offset > old(self).data().len() ==> r == Err::<(), FontError>(
                FontError::UnexpectedEndOfData,
            ) && final(self).position() == old(self).position(),
    {
        if offset > (self.bytes.len() - self.pos) as u64 {
            Err(FontError::UnexpectedEndOfData)
        } else {
            self.pos = self.pos + offset as usize;
            Ok(())
        }
    }

    pub fn read_u16(&mut self) -> (r: Result<u16, FontError>)
        requires
            old(self).wf(),
        ensures
            final(self).data() == old(self).data(),
            final(self).wf(),
            old(self).position() + 2 <= old(self).data().len() ==> r == Ok::<u16, FontError>(
                be_u16(old(self).data(), old(self).position()) as u16,
            ) && final(self).position() == old(self).position() + 2,
            old(self).position() + 2 > old(self).data().len() ==> r == Err::<u16, FontError>(
                FontError::UnexpectedEndOfData,
            ),
    {
        if self.bytes.len() - self.pos < 2 {
            return Err(FontError::UnexpectedEndOfData);
        }
        let hi = self.bytes[self.pos] as u16;
        let lo = self.bytes[self.pos + 1] as u16;
        self.pos = self.pos + 2;
        Ok(hi * 256 + lo)
    }

    pub fn read_i16(&mut self) -> (r: Result<i16, FontError>)
        requires
            old(self).wf(),
        ensures
            final(self).data() == old(self).data(),
            final(self).wf(),
            old(self).position() + 2 <= old(self).data().len() ==> r == Ok::<i16, FontError>(
                signed16(be_u16(old(self).data(), old(self).position())) as i16,
            ) && final(self).position() == old(self).position() + 2,
            old(self).position() + 2 > old(self).data().len() ==> r == Err::<i16, FontError>(
                FontError::UnexpectedEndOfData,
            ),
    {
        let v = self.read_u16()?;
        if v >= 0x8000 {
            Ok((v as i32 - 0x10000) as i16)
        } else {
            Ok(v as i16)
        }
    }

    pub fn read_u32(&mut self) -> (r: Result<u32, FontError>)
        requires
            old(self).wf(),
        ensures
            final(self).data() == old(self).data(),
            final(self).wf(),
            old(self).position() + 4 <= old(self).data().len() ==> r == Ok::<u32, FontError>(
                be_u32(old(self).data(), old(self).position()) as u32,
            ) && final(self).position() == old(self).position() + 4,
            old(self).position() + 4 > old(self).data().len() ==> r == Err::<u32, FontError>(
                FontError::UnexpectedEndOfData,
            ),
    {
        if self.bytes.len() - self.pos < 4 {
            return Err(FontError::UnexpectedEndOfData);
        }
        let hi = self.read_u16()?;
        let lo = self.read_u16()?;
        Ok(hi as u32 * 65536 + lo as u32)
    }
}

} // verus!
