//! One data file: an I/O capability, a file id, and a write cursor.

use vstd::prelude::*;
use vstd::bytes::u32_from_le_bytes;
use vstd::slice::slice_subrange;
use crate::errors::Errors;
use crate::fio::IOManager;
use crate::data::log_record::{
    checksum, lemma_subrange_transfer, parse_at, LogRecord, LogRecordType, ParseResult,
    ReadLogRecord,
};

verus! {

/// A physical data file named `{file_id}.data`: a flat concatenation of
/// encoded records with no header or footer. `write_offset` is the byte
/// length of the file and the position the next append lands at.
pub struct DataFile<IO: IOManager> {
    pub file_id: u32,
    pub write_offset: u64,
    pub io: IO,
}

impl<IO: IOManager> DataFile<IO> {
    /// The bytes the file currently holds.
    pub open spec fn contents(&self) -> Seq<u8> {
        self.io.contents()
    }

    /// The write cursor agrees with the file length.
    pub open spec fn wf(&self) -> bool {
        self.write_offset as int == self.io.contents().len()
    }

    /// Wraps an already opened file; the write cursor starts at the file's
    /// current length.
    pub fn new(file_id: u32, io: IO) -> (r: DataFile<IO>)
        ensures
            r.file_id == file_id,
            r.io == io,
            r.wf(),
    {
        let write_offset = io.size();
        DataFile { file_id, write_offset, io }
    }

    /// Creates the empty data file for `file_id` under `dir_path`.
    pub fn create(file_id: u32, dir_path: &String) -> (r: Result<DataFile<IO>, Errors>)
        ensures
            (match r {
                Ok(f) => f.file_id == file_id && f.contents() == Seq::<u8>::empty() && f.wf(),
                Err(e) => e == Errors::FailedToOpenDataFile,
            }),
    {
        match IO::create(dir_path, file_id) {
            Ok(io) => Ok(DataFile { file_id, write_offset: 0, io }),
            Err(e) => Err(e),
        }
    }

    /// Gives the underlying I/O capability back, for a caller that owns
    /// the file.
    pub fn into_io(self) -> (r: IO)
        ensures
            r == self.io,
    {
        self.io
    }

    pub fn get_write_offset(&self) -> (r: u64)
        ensures
            r == self.write_offset,
    {
        self.write_offset
    }

    pub fn get_file_id(&self) -> (r: u32)
        ensures
            r == self.file_id,
    {
        self.file_id
    }

    /// Appends `buf` and advances the write cursor by the bytes written.
    pub fn write(&mut self, buf: &Vec<u8>) -> (r: Result<usize, Errors>)
        requires
            old(self).wf(),
            old(self).contents().len() + buf@.len() <= u64::MAX,
        ensures
            (match r {
                Ok(n) => {
                    &&& n == buf@.len()
                    &&& final(self).contents() == old(self).contents() + buf@
                    &&& final(self).write_offset == old(self).write_offset + n
                    &&& final(self).file_id == old(self).file_id
                    &&& final(self).wf()
                },
                Err(e) => {
                    &&& e == Errors::FailedToWriteToDataFile
                    &&& final(self).contents() == old(self).contents()
                    &&& final(self).write_offset == old(self).write_offset
                    &&& final(self).file_id == old(self).file_id
                },
            }),
    {
        match self.io.write(buf) {
            Ok(n) => {
                self.write_offset = self.write_offset + n as u64;
                Ok(n)
            },
            Err(e) => Err(e),
        }
    }

    /// Flushes the file to stable storage.
    pub fn sync(&self) -> (r: Result<(), Errors>)
        ensures
            (r matches Err(e) ==> e == Errors::FailedToSyncDataFile),
    {
        self.io.sync()
    }

    /// Resumes the write cursor during recovery. Bytes at or past the new
    /// cursor — a truncated trailing frame left by an interrupted write —
    /// are discarded, so that the cursor and the file length agree again.
    pub fn set_write_offset(&mut self, offset: u64) -> (r: Result<(), Errors>)
        requires
            offset as int <= old(self).contents().len(),
        ensures
            (match r {
                Ok(()) => {
                    &&& final(self).contents() == old(self).contents().subrange(0, offset as int)
                    &&& final(self).write_offset == offset
                    &&& final(self).file_id == old(self).file_id
                    &&& final(self).wf()
                },
                Err(e) => {
                    &&& e == Errors::FailedToWriteToDataFile
                    &&& final(self).contents() == old(self).contents()
                    &&& final(self).write_offset == old(self).write_offset
                    &&& final(self).file_id == old(self).file_id
                },
            }),
    {
        match self.io.truncate(offset) {
            Ok(()) => {
                self.write_offset = offset;
                Ok(())
            },
            Err(e) => Err(e),
        }
    }

    /// Reads and decodes the record that starts at `offset`, returning it
    /// together with the number of bytes its frame occupies.
    pub fn read_log_record(&self, offset: u64) -> (r: Result<ReadLogRecord, Errors>)
        ensures
            (match r {
                Ok(rr) => parse_at(self.contents(), offset as int) == (ParseResult::Record {
                    rec: rr.record@,
                    size: rr.size as int,
                }) && 13 <= rr.size && offset as int + rr.size as int <= self.contents().len(),
                Err(e) => {
                    &&& (e == Errors::ReadDataFileEOF ==> parse_at(self.contents(), offset as int)
                        is Eof)
                    &&& (e == Errors::InvalidRecordCrc ==> parse_at(self.contents(), offset as int)
                        is Corrupt)
                    &&& (e == Errors::ReadDataFileEOF || e == Errors::InvalidRecordCrc || e
                        == Errors::FailedToReadFromDataFile)
                },
            }),
    {
        let ghost s = self.contents();
        let header = match self.io.read(13, offset) {
            Ok(h) => h,
            Err(e) => {
                return Err(e);
            },
        };
        if header.len() < 13 {
            return Err(Errors::ReadDataFileEOF);
        }
        proof {
            assert(offset as int + 13 <= s.len());
            assert(header@ == s.subrange(offset as int, offset as int + 13));
            lemma_subrange_transfer(s, header@, offset as int, 1, 5);
            lemma_subrange_transfer(s, header@, offset as int, 5, 9);
        }
        let klen = u32_from_le_bytes(slice_subrange(header.as_slice(), 1, 5));
        let vlen = u32_from_le_bytes(slice_subrange(header.as_slice(), 5, 9));
        let total: u64 = 13u64 + klen as u64 + vlen as u64;
        if total > usize::MAX as u64 {
            return Err(Errors::FailedToReadFromDataFile);
        }
        let buf = match self.io.read(total as usize, offset) {
            Ok(b) => b,
            Err(e) => {
                return Err(e);
            },
        };
        if (buf.len() as u64) < total {
            return Err(Errors::ReadDataFileEOF);
        }
        proof {
            assert(offset as int + total as int <= s.len());
            assert(buf@ == s.subrange(offset as int, offset as int + total as int));
            assert(buf@[0] == s[offset as int]) by {
                assert(s.subrange(offset as int, offset as int + total as int)[0] == s[offset as int]);
            }
            lemma_subrange_transfer(s, buf@, offset as int, 0, total as int - 4);
            lemma_subrange_transfer(s, buf@, offset as int, total as int - 4, total as int);
            lemma_subrange_transfer(s, buf@, offset as int, 9, 9 + klen as int);
            lemma_subrange_transfer(
                s,
                buf@,
                offset as int,
                9 + klen as int,
                9 + klen as int + vlen as int,
            );
        }
        let tag = buf[0];
        if !(tag == 1 || tag == 2) {
            return Err(Errors::InvalidRecordCrc);
        }
        let body_len = (total - 4) as usize;
        let crc_computed = checksum(slice_subrange(buf.as_slice(), 0, body_len));
        let crc_stored = u32_from_le_bytes(
            slice_subrange(buf.as_slice(), body_len, total as usize),
        );
        if crc_stored != crc_computed {
            return Err(Errors::InvalidRecordCrc);
        }
        let key = copy_range(&buf, 9, 9 + klen as usize);
        let value = copy_range(&buf, 9 + klen as usize, 9 + klen as usize + vlen as usize);
        let record = LogRecord {
            key,
            value,
            record_type: if tag == 1 {
                LogRecordType::NORMAL
            } else {
                LogRecordType::DELETE
            },
        };
        Ok(ReadLogRecord { record, size: total })
    }
}

/// Copies `src[a..b]` into a fresh vector.
fn copy_range(src: &Vec<u8>, a: usize, b: usize) -> (r: Vec<u8>)
    requires
        a <= b <= src@.len(),
    ensures
        r@ == src@.subrange(a as int, b as int),
{
    let mut out: Vec<u8> = Vec::new();
    let mut i: usize = a;
    while i < b
        invariant
            a <= i <= b <= src@.len(),
            out@ == src@.subrange(a as int, i as int),
        decreases b - i,
    {
        out.push(src[i]);
        proof {
            assert(src@.subrange(a as int, i + 1) =~= src@.subrange(a as int, i as int).push(
                src@[i as int],
            ));
        }
        i = i + 1;
    }
    out
}

} // verus!
