use vstd::prelude::*;
use crate::error::EbmlError;

verus! {

/// Largest forward move that a seek relative to the cursor accepts.
pub const MAX_RELATIVE_SEEK: u64 = 0x7fff_ffff_ffff_ffff;

/// A readable, seekable byte source: the bytes, and a cursor that may stand
/// anywhere, also past the end (reads there find nothing).
pub struct ByteSource {
    bytes: Vec<u8>,
    pos: u64,
}

impl ByteSource {
    /// The bytes of the source.
    pub closed spec fn content(&self) -> Seq<u8> {
        self.bytes@
    }

    /// Where the next read starts.
    pub closed spec fn cursor(&self) -> nat {
        self.pos as nat
    }

    pub fn new(bytes: Vec<u8>) -> (r: ByteSource)
        ensures
            r.content() == bytes@,
            r.cursor() == 0,
    {
        ByteSource { bytes, pos: 0 }
    }

    pub fn position(&self) -> (r: u64)
        ensures
            r == self.cursor(),
    {
        self.pos
    }

    /// Moves the cursor to an absolute position.
    pub fn seek_to(&mut self, pos: u64)
        ensures
            final(self).content() == old(self).content(),
            final(self).cursor() == pos,
    {
        self.pos = pos;
    }

    /// Moves the cursor forward by `n`; refused where `n` exceeds the largest
    /// relative move or the new position does not fit in a `u64`.
    pub fn seek_forward(&mut self, n: u64) -> (r: Result<(), EbmlError>)
        ensures
            final(self).content() == old(self).content(),
            r is Ok <==> n <= MAX_RELATIVE_SEEK && old(self).cursor() + n <= u64::MAX,
            r is Ok ==> final(self).cursor() == old(self).cursor() + n,
            r is Err ==> r == Err::<(), EbmlError>(EbmlError::Seek) && final(self).cursor() == old(self).cursor(),
    {
        if n > MAX_RELATIVE_SEEK || n > u64::MAX - self.pos {
            return Err(EbmlError::Seek);
        }
        self.pos = self.pos + n;
        Ok(())
    }

    /// Reads one byte, or nothing where the cursor stands at or past the end.
    pub fn read_byte(&mut self) -> (r: Option<u8>)
        ensures
            final(self).content() == old(self).content(),
            old(self).cursor() < old(self).content().len() ==> r == Some(old(self).content()[old(self).cursor() as int])
                && final(self).cursor() == old(self).cursor() + 1,
            old(self).cursor() >= old(self).content().len() ==> r is None
                && final(self).cursor() == old(self).cursor(),
    {
        if self.pos < self.bytes.len() as u64 {
            let b = self.bytes[self.pos as usize];
            self.pos = self.pos + 1;
            Some(b)
        } else {
            None
        }
    }

    /// Reads exactly `n` bytes, or fails with `Truncated`, moving nothing,
    /// where fewer are left.
    pub fn read_exact(&mut self, n: u64) -> (r: Result<Vec<u8>, EbmlError>)
        ensures
            final(self).content() == old(self).content(),
            r is Ok <==> old(self).cursor() + n <= old(self).content().len(),
            r matches Ok(v) ==> v@ == old(self).content().subrange(
                old(self).cursor() as int,
                old(self).cursor() + n as int,
            ) && final(self).cursor() == old(self).cursor() + n,
            r is Err ==> r == Err::<Vec<u8>, EbmlError>(EbmlError::Truncated) && final(self).cursor() == old(self).cursor(),
    {
        let len = self.bytes.len() as u64;
        if self.pos > len || n > len - self.pos {
            return Err(EbmlError::Truncated);
        }
        let start = self.pos as usize;
        let end = (self.pos + n) as usize;
        let mut out: Vec<u8> = Vec::new();
        let mut i: usize = start;
        while i < end
            invariant
                start <= i <= end,
                end <= self.bytes@.len(),
                out@ == self.bytes@.subrange(start as int, i as int),
            decreases end - i,
        {
            out.push(self.bytes[i]);
            i = i + 1;
        }
        self.pos = self.pos + n;
        Ok(out)
    }
}

} // verus!
