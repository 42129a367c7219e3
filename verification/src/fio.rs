//! The I/O capability a data file is built on.
//!
//! `IOManager` abstracts positional read, appending write, truncation and
//! sync over one open file. The engine is generic over it: `MemIO` below
//! keeps the bytes in memory and is verified against the same contract that
//! a file-backed implementation outside the library must honour.

use vstd::prelude::*;
use crate::errors::Errors;

verus! {

/// What a positional read of up to `len` bytes at `off` returns: bytes come
/// back short only at end-of-file.
pub open spec fn read_result(s: Seq<u8>, off: int, len: int) -> Seq<u8> {
    if off >= s.len() {
        Seq::empty()
    } else if off + len <= s.len() {
        s.subrange(off, off + len)
    } else {
        s.subrange(off, s.len() as int)
    }
}

/// Three file operations plus bookkeeping over one open file. Writes are
/// whole appends: a write either appends the entire buffer or reports an
/// error leaving the contents as they were, so a record is never half
/// published by a successful call.
pub trait IOManager: Sized {
    /// The bytes the file currently holds. Implementations outside the
    /// verifier's reach leave the default in place; the contracts below
    /// are what they are held to.
    open spec fn contents(&self) -> Seq<u8> {
        Seq::empty()
    }

    /// Positional read of up to `len` bytes starting at `offset`. Does not
    /// move any cursor; may return fewer bytes than requested only at
    /// end-of-file.
    fn read(&self, len: usize, offset: u64) -> (r: Result<Vec<u8>, Errors>)
        ensures
            (match r {
                Ok(buf) => buf@ == read_result(self.contents(), offset as int, len as int),
                Err(e) => e == Errors::FailedToReadFromDataFile,
            }),
    ;

    /// Appending write of the whole buffer.
    fn write(&mut self, buf: &Vec<u8>) -> (r: Result<usize, Errors>)
        ensures
            (match r {
                Ok(n) => n == buf@.len() && final(self).contents() == old(self).contents() + buf@,
                Err(e) => e == Errors::FailedToWriteToDataFile && final(self).contents() == old(
                    self,
                ).contents(),
            }),
    ;

    /// Flushes buffered writes and metadata to stable storage.
    fn sync(&self) -> (r: Result<(), Errors>)
        ensures
            (r matches Err(e) ==> e == Errors::FailedToSyncDataFile),
    ;

    /// The current length of the file in bytes.
    fn size(&self) -> (r: u64)
        ensures
            r as int == self.contents().len(),
    ;

    /// Discards every byte at or past `size`. Recovery uses this to drop a
    /// truncated trailing frame so that the write cursor and the file
    /// length agree again.
    fn truncate(&mut self, size: u64) -> (r: Result<(), Errors>)
        requires
            size as int <= old(self).contents().len(),
        ensures
            (match r {
                Ok(()) => final(self).contents() == old(self).contents().subrange(
                    0,
                    size as int,
                ),
                Err(e) => e == Errors::FailedToWriteToDataFile && final(self).contents() == old(
                    self,
                ).contents(),
            }),
    ;

    /// Creates the empty data file for `file_id` under `dir_path`. Only
    /// used for ids no existing file carries: the first file of a fresh
    /// directory and the successor file on rotation.
    fn create(dir_path: &String, file_id: u32) -> (r: Result<Self, Errors>)
        ensures
            (match r {
                Ok(io) => io.contents() == Seq::<u8>::empty(),
                Err(e) => e == Errors::FailedToOpenDataFile,
            }),
    ;
}

/// An `IOManager` that holds the file bytes in memory. It backs engines
/// whose directory lives only for the process, and it is the implementation
/// the library's own proofs and tests run against.
pub struct MemIO {
    data: Vec<u8>,
}

impl MemIO {
    /// An empty in-memory file.
    pub fn new() -> (r: MemIO)
        ensures
            r.contents() == Seq::<u8>::empty(),
    {
        MemIO { data: Vec::new() }
    }

    /// An in-memory file that starts with the given bytes.
    pub fn from_vec(data: Vec<u8>) -> (r: MemIO)
        ensures
            r.contents() == data@,
    {
        MemIO { data }
    }

    /// The current bytes of the file.
    pub fn into_vec(self) -> (r: Vec<u8>)
        ensures
            r@ == self.contents(),
    {
        self.data
    }
}

impl IOManager for MemIO {
    closed spec fn contents(&self) -> Seq<u8> {
        self.data@
    }

    fn read(&self, len: usize, offset: u64) -> (r: Result<Vec<u8>, Errors>) {
        let clen: usize = self.data.len();
        let start: usize = if offset >= clen as u64 {
            clen
        } else {
            offset as usize
        };
        let avail: usize = clen - start;
        let n: usize = if len < avail {
            len
        } else {
            avail
        };
        let mut out: Vec<u8> = Vec::new();
        let mut i: usize = 0;
        while i < n
            invariant
                0 <= i <= n,
                clen == self.data@.len(),
                start + n <= clen,
                out@ == self.data@.subrange(start as int, start as int + i),
            decreases n - i,
        {
            out.push(self.data[start + i]);
            proof {
                assert(self.data@.subrange(start as int, start as int + i + 1)
                    =~= self.data@.subrange(start as int, start as int + i).push(
                    self.data@[start + i],
                ));
            }
            i = i + 1;
        }
        proof {
            assert(out@ == read_result(self.data@, offset as int, len as int));
        }
        Ok(out)
    }

    fn write(&mut self, buf: &Vec<u8>) -> (r: Result<usize, Errors>) {
        let mut i: usize = 0;
        while i < buf.len()
            invariant
                0 <= i <= buf@.len(),
                self.data@ == old(self).data@ + buf@.take(i as int),
            decreases buf@.len() - i,
        {
            self.data.push(buf[i]);
            proof {
                assert(old(self).data@ + buf@.take(i + 1) =~= (old(self).data@ + buf@.take(
                    i as int,
                )).push(buf@[i as int]));
            }
            i = i + 1;
        }
        proof {
            assert(old(self).data@ + buf@.take(buf@.len() as int) =~= old(self).data@ + buf@);
        }
        Ok(buf.len())
    }

    fn sync(&self) -> (r: Result<(), Errors>) {
        Ok(())
    }

    fn size(&self) -> (r: u64) {
        self.data.len() as u64
    }

    fn truncate(&mut self, size: u64) -> (r: Result<(), Errors>) {
        self.data.truncate(size as usize);
        Ok(())
    }

    fn create(_dir_path: &String, _file_id: u32) -> (r: Result<Self, Errors>) {
        Ok(MemIO { data: Vec::new() })
    }
}

} // verus!
