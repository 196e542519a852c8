//! Random-access reads from a source of bytes.

use crate::binfmt::endian::{be_value, decode_u32, decode_u64};
use crate::error::IoError;
use vstd::prelude::*;

verus! {

/// What is known of a source that behaves as a fixed run of bytes: a read
/// that lies within the bytes succeeds and gives them, and a read that
/// reaches beyond them fails.
pub struct SourceModel {
    /// The bytes that the source holds.
    pub content: Seq<u8>,
    /// The number of reads that the source has been asked for so far.
    pub reads: nat,
}

impl SourceModel {
    /// The model after one more read.
    pub open spec fn after_read(self) -> SourceModel {
        SourceModel { content: self.content, reads: self.reads + 1 }
    }

    /// Whether `len` bytes at `offset` lie within the content.
    pub open spec fn holds(self, offset: u64, len: nat) -> bool {
        offset + len <= self.content.len()
    }

    /// The `len` bytes at `offset`.
    pub open spec fn bytes_at(self, offset: u64, len: nat) -> Seq<u8>
        recommends
            self.holds(offset, len),
    {
        self.content.subrange(offset as int, offset + len)
    }
}

/// A source of bytes that is read at given offsets.
///
/// A source may come with a model, which says what it holds and counts its
/// reads. The contracts below say what the methods do to a source with a
/// model. Of a source without one, such as a file, which may fail at any
/// read, they say nothing but that it gets no model and that a buffer keeps
/// its length.
pub trait ReadAt {
    /// The model of the source, if it has one. An implementation that
    /// gives none has nothing to prove.
    open spec fn model(&self) -> Option<SourceModel> {
        None
    }

    /// The number of bytes that the source holds.
    fn len(&mut self) -> (r: Result<u64, IoError>)
        ensures
            old(self).model() is None ==> final(self).model() is None,
            old(self).model() matches Some(m) ==> {
                &&& final(self).model() == Some(m)
                &&& r matches Ok(n) && n == m.content.len()
            },
    ;

    /// Fills `buf` with the bytes that start at `offset`. After a failure
    /// `buf` may hold anything.
    fn fill_buf_at(&mut self, buf: &mut [u8], offset: u64) -> (r: Result<(), IoError>)
        ensures
            final(buf)@.len() == old(buf)@.len(),
            old(self).model() is None ==> final(self).model() is None,
            old(self).model() matches Some(m) ==> {
                &&& final(self).model() == Some(m.after_read())
                &&& if m.holds(offset, old(buf)@.len()) {
                    &&& r is Ok
                    &&& final(buf)@ == m.bytes_at(offset, old(buf)@.len())
                } else {
                    r == Err::<(), IoError>(IoError::UnexpectedEof)
                }
            },
    ;

    /// Reads the byte at `offset`.
    fn read_u8_at(&mut self, offset: u64) -> (r: Result<u8, IoError>)
        ensures
            old(self).model() is None ==> final(self).model() is None,
            old(self).model() matches Some(m) ==> {
                &&& final(self).model() == Some(m.after_read())
                &&& r == if m.holds(offset, 1) {
                    Ok::<u8, IoError>(m.content[offset as int])
                } else {
                    Err::<u8, IoError>(IoError::UnexpectedEof)
                }
            },
    {
        let mut buf: [u8; 1] = [0u8; 1];
        match self.fill_buf_at(&mut buf, offset) {
            Ok(()) => Ok(buf[0]),
            Err(e) => Err(e),
        }
    }

    /// Reads the big-endian 32-bit number at `offset`.
    fn read_u32_at(&mut self, offset: u64) -> (r: Result<u32, IoError>)
        ensures
            old(self).model() is None ==> final(self).model() is None,
            old(self).model() matches Some(m) ==> {
                &&& final(self).model() == Some(m.after_read())
                &&& r == if m.holds(offset, 4) {
                    Ok::<u32, IoError>(be_value(m.bytes_at(offset, 4)) as u32)
                } else {
                    Err::<u32, IoError>(IoError::UnexpectedEof)
                }
            },
    {
        let mut buf: [u8; 4] = [0u8; 4];
        match self.fill_buf_at(&mut buf, offset) {
            Ok(()) => {
                assert(buf@.subrange(0, 4) =~= buf@);
                Ok(decode_u32(&buf))
            },
            Err(e) => Err(e),
        }
    }

    /// Reads the big-endian 64-bit number at `offset`.
    fn read_u64_at(&mut self, offset: u64) -> (r: Result<u64, IoError>)
        ensures
            old(self).model() is None ==> final(self).model() is None,
            old(self).model() matches Some(m) ==> {
                &&& final(self).model() == Some(m.after_read())
                &&& r == if m.holds(offset, 8) {
                    Ok::<u64, IoError>(be_value(m.bytes_at(offset, 8)) as u64)
                } else {
                    Err::<u64, IoError>(IoError::UnexpectedEof)
                }
            },
    {
        let mut buf: [u8; 8] = [0u8; 8];
        match self.fill_buf_at(&mut buf, offset) {
            Ok(()) => {
                assert(buf@.subrange(0, 8) =~= buf@);
                Ok(decode_u64(&buf))
            },
            Err(e) => Err(e),
        }
    }
}

/// A source that holds its bytes in memory.
pub struct MemSource {
    data: Vec<u8>,
    reads: Ghost<nat>,
}

impl MemSource {
    /// A source that holds `data`, not read so far.
    pub fn new(data: Vec<u8>) -> (source: MemSource)
        ensures
            source.model() == Some(SourceModel { content: data@, reads: 0 }),
    {
        MemSource { data, reads: Ghost(0) }
    }

    /// The bytes of the source.
    pub fn into_inner(self) -> (data: Vec<u8>)
        ensures
            self.model() matches Some(m) && data@ == m.content,
    {
        self.data
    }
}

impl ReadAt for MemSource {
    closed spec fn model(&self) -> Option<SourceModel> {
        Some(SourceModel { content: self.data@, reads: self.reads@ })
    }

    fn len(&mut self) -> (r: Result<u64, IoError>) {
        Ok(self.data.len() as u64)
    }

    fn fill_buf_at(&mut self, buf: &mut [u8], offset: u64) -> (r: Result<(), IoError>)
        ensures
            r is Err ==> final(buf)@ == old(buf)@,
    {
        self.reads = Ghost(self.reads@ + 1);
        let n: usize = buf.len();
        let size: usize = self.data.len();
        if offset > size as u64 || n > size - offset as usize {
            return Err(IoError::UnexpectedEof);
        }
        let start: usize = offset as usize;
        let mut i: usize = 0;
        while i < n
            invariant
                i <= n,
                buf@.len() == n,
                size == self.data@.len(),
                start + n <= size,
                forall|j: int| 0 <= j < i ==> buf@[j] == self.data@[start + j],
            decreases n - i,
        {
            buf[i] = self.data[start + i];
            i += 1;
        }
        assert(buf@ =~= self.data@.subrange(start as int, start + n));
        Ok(())
    }
}

} // verus!
