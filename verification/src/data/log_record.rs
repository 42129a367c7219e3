//! Records and their self-delimiting, checksummed on-disk frame.
//!
//! A frame is laid out as
//!
//! ```text
//! | tag: 1 byte | key len: u32 LE | value len: u32 LE | key | value | checksum: u32 LE |
//! ```
//!
//! where the tag is `1` for a `NORMAL` record and `2` for a `DELETE`
//! tombstone, and the checksum covers every byte before it. The layout is
//! independent of host byte order and pointer width.

use vstd::prelude::*;
use vstd::bytes::*;

verus! {

/// Where a record begins on disk: the data file that holds it and the byte
/// offset of its first byte. Positions are stable for the lifetime of the
/// directory; no record is ever moved or rewritten.
#[derive(Clone, Copy, Debug, PartialEq, Eq, Structural)]
pub struct LogRecordPos {
    pub file_id: u32,
    pub offset: u64,
}

/// `NORMAL` marks a live record; `DELETE` is a tombstone that marks its key
/// as no longer live at that point of the log.
#[derive(Clone, Copy, Debug, PartialEq, Eq, Structural)]
pub enum LogRecordType {
    NORMAL,
    DELETE,
}

/// A single append unit: a key, a value, and the record type.
#[derive(Debug)]
pub struct LogRecord {
    pub key: Vec<u8>,
    pub value: Vec<u8>,
    pub record_type: LogRecordType,
}

/// The mathematical content of a record.
pub struct LogRecordView {
    pub key: Seq<u8>,
    pub value: Seq<u8>,
    pub record_type: LogRecordType,
}

impl View for LogRecord {
    type V = LogRecordView;

    open spec fn view(&self) -> LogRecordView {
        LogRecordView { key: self.key@, value: self.value@, record_type: self.record_type }
    }
}

/// A parsed record together with the number of bytes its frame occupies on
/// disk, so that a replay scan can advance to the next record.
pub struct ReadLogRecord {
    pub record: LogRecord,
    pub size: u64,
}

/// Bytes of a frame that are not key or value: the tag, the two length
/// fields and the checksum.
pub const RECORD_OVERHEAD: u64 = 13;

/// One step of the rolling checksum: multiply by 31 and add the next byte,
/// modulo 2^32.
pub open spec fn checksum_step(acc: u32, b: u8) -> u32 {
    (((acc * 31) + b) % 0x1_0000_0000) as u32
}

/// Checksum of a byte sequence: a polynomial rolling sum modulo 2^32.
pub open spec fn checksum_spec(s: Seq<u8>) -> u32
    decreases s.len(),
{
    if s.len() == 0 {
        0u32
    } else {
        checksum_step(checksum_spec(s.drop_last()), s.last())
    }
}

/// Computes the frame checksum of `data`.
pub fn checksum(data: &[u8]) -> (r: u32)
    ensures
        r == checksum_spec(data@),
{
    let mut acc: u32 = 0;
    let mut i: usize = 0;
    while i < data.len()
        invariant
            0 <= i <= data@.len(),
            acc == checksum_spec(data@.take(i as int)),
        decreases data@.len() - i,
    {
        let b: u8 = data[i];
        let wide: u64 = (acc as u64) * 31 + (b as u64);
        acc = (wide % 0x1_0000_0000) as u32;
        proof {
            assert(data@.take(i + 1).drop_last() =~= data@.take(i as int));
            assert(data@.take(i + 1).last() == b);
        }
        i = i + 1;
    }
    proof {
        assert(data@.take(data@.len() as int) =~= data@);
    }
    acc
}

/// The tag byte that marks a record type on disk.
pub open spec fn type_byte(t: LogRecordType) -> u8 {
    match t {
        LogRecordType::NORMAL => 1u8,
        LogRecordType::DELETE => 2u8,
    }
}

/// A record whose key and value fit the frame's 32-bit length fields.
pub open spec fn record_valid(r: LogRecordView) -> bool {
    &&& r.key.len() <= u32::MAX
    &&& r.value.len() <= u32::MAX
}

/// The frame minus its checksum field: tag, key length, value length, key,
/// value.
pub open spec fn record_body(r: LogRecordView) -> Seq<u8> {
    seq![type_byte(r.record_type)] + spec_u32_to_le_bytes(r.key.len() as u32)
        + spec_u32_to_le_bytes(r.value.len() as u32) + r.key + r.value
}

/// The full on-disk frame: the body followed by its checksum.
pub open spec fn encode_spec(r: LogRecordView) -> Seq<u8> {
    record_body(r) + spec_u32_to_le_bytes(checksum_spec(record_body(r)))
}

/// Number of bytes the frame of `r` occupies on disk.
pub open spec fn encoded_len(r: LogRecordView) -> int {
    13 + r.key.len() as int + r.value.len() as int
}

pub proof fn lemma_encoded_len(r: LogRecordView)
    ensures
        encode_spec(r).len() == encoded_len(r),
        record_body(r).len() == encoded_len(r) - 4,
{
    lemma_auto_spec_u32_to_from_le_bytes();
}

/// The outcome of parsing one frame at an offset.
pub enum ParseResult {
    Record { rec: LogRecordView, size: int },
    Eof,
    Corrupt,
}

/// Parses the frame that starts at `off`. A truncated frame — including a
/// truncated header — is end-of-log, so an interrupted trailing write does
/// not poison recovery. A bad tag or a checksum mismatch is corruption.
pub open spec fn parse_at(s: Seq<u8>, off: int) -> ParseResult {
    if off < 0 || off + 13 > s.len() {
        ParseResult::Eof
    } else {
        let klen = spec_u32_from_le_bytes(s.subrange(off + 1, off + 5)) as int;
        let vlen = spec_u32_from_le_bytes(s.subrange(off + 5, off + 9)) as int;
        let size = 13 + klen + vlen;
        if off + size > s.len() {
            ParseResult::Eof
        } else if !(s[off] == 1 || s[off] == 2) {
            ParseResult::Corrupt
        } else if spec_u32_from_le_bytes(s.subrange(off + 9 + klen + vlen, off + size))
            != checksum_spec(s.subrange(off, off + 9 + klen + vlen)) {
            ParseResult::Corrupt
        } else {
            ParseResult::Record {
                rec: LogRecordView {
                    key: s.subrange(off + 9, off + 9 + klen),
                    value: s.subrange(off + 9 + klen, off + 9 + klen + vlen),
                    record_type: if s[off] == 1 {
                        LogRecordType::NORMAL
                    } else {
                        LogRecordType::DELETE
                    },
                },
                size: size,
            }
        }
    }
}

/// How the regions of a frame sit inside `encode_spec(r)`.
pub proof fn lemma_encode_layout(r: LogRecordView)
    requires
        record_valid(r),
    ensures
        encode_spec(r).len() == encoded_len(r),
        encode_spec(r)[0] == type_byte(r.record_type),
        encode_spec(r).subrange(1, 5) == spec_u32_to_le_bytes(r.key.len() as u32),
        encode_spec(r).subrange(5, 9) == spec_u32_to_le_bytes(r.value.len() as u32),
        encode_spec(r).subrange(9, 9 + r.key.len() as int) == r.key,
        encode_spec(r).subrange(
            9 + r.key.len() as int,
            9 + r.key.len() as int + r.value.len() as int,
        ) == r.value,
        encode_spec(r).subrange(0, 9 + r.key.len() as int + r.value.len() as int) == record_body(
            r,
        ),
        encode_spec(r).subrange(
            9 + r.key.len() as int + r.value.len() as int,
            encoded_len(r),
        ) == spec_u32_to_le_bytes(checksum_spec(record_body(r))),
{
    lemma_auto_spec_u32_to_from_le_bytes();
    let kl = r.key.len() as int;
    let vl = r.value.len() as int;
    let k4 = spec_u32_to_le_bytes(r.key.len() as u32);
    let v4 = spec_u32_to_le_bytes(r.value.len() as u32);
    let c4 = spec_u32_to_le_bytes(checksum_spec(record_body(r)));
    let a0 = seq![type_byte(r.record_type)];
    let a1 = a0 + k4;
    let a2 = a1 + v4;
    let a3 = a2 + r.key;
    let a4 = a3 + r.value;
    let e = a4 + c4;
    assert(record_body(r) == a4);
    assert(encode_spec(r) == e);
    assert(e.len() == 13 + kl + vl);
    assert(e[0] == type_byte(r.record_type));
    assert forall|i: int| 1 <= i < 5 implies e[i] == k4[i - 1] by {
        assert(e[i] == a4[i]);
        assert(a4[i] == a3[i]);
        assert(a3[i] == a2[i]);
        assert(a2[i] == a1[i]);
        assert(a1[i] == k4[i - 1]);
    }
    assert(e.subrange(1, 5) =~= k4);
    assert forall|i: int| 5 <= i < 9 implies e[i] == v4[i - 5] by {
        assert(e[i] == a4[i]);
        assert(a4[i] == a3[i]);
        assert(a3[i] == a2[i]);
        assert(a2[i] == v4[i - 5]);
    }
    assert(e.subrange(5, 9) =~= v4);
    assert forall|i: int| 9 <= i < 9 + kl implies e[i] == r.key[i - 9] by {
        assert(e[i] == a4[i]);
        assert(a4[i] == a3[i]);
        assert(a3[i] == r.key[i - 9]);
    }
    assert(e.subrange(9, 9 + kl) =~= r.key);
    assert forall|i: int| 9 + kl <= i < 9 + kl + vl implies e[i] == r.value[i - 9 - kl] by {
        assert(e[i] == a4[i]);
        assert(a4[i] == r.value[i - 9 - kl]);
    }
    assert(e.subrange(9 + kl, 9 + kl + vl) =~= r.value);
    assert forall|i: int| 0 <= i < 9 + kl + vl implies e[i] == a4[i] by {
        assert(e[i] == a4[i]);
    }
    assert(e.subrange(0, 9 + kl + vl) =~= a4);
    assert forall|i: int| 9 + kl + vl <= i < 13 + kl + vl implies e[i] == c4[i - 9 - kl - vl] by {
        assert(e[i] == c4[i - 9 - kl - vl]);
    }
    assert(e.subrange(9 + kl + vl, 13 + kl + vl) =~= c4);
}

/// Equal byte regions have equal sub-regions.
pub proof fn lemma_subrange_transfer(s: Seq<u8>, e: Seq<u8>, off: int, a: int, b: int)
    requires
        0 <= off,
        off + e.len() <= s.len(),
        s.subrange(off, off + e.len() as int) == e,
        0 <= a <= b <= e.len(),
    ensures
        s.subrange(off + a, off + b) == e.subrange(a, b),
{
    assert forall|i: int| 0 <= i < b - a implies s.subrange(off + a, off + b)[i] == e.subrange(
        a,
        b,
    )[i] by {
        assert(s.subrange(off, off + e.len() as int)[a + i] == e[a + i]);
        assert(s.subrange(off, off + e.len() as int)[a + i] == s[off + a + i]);
        assert(s.subrange(off + a, off + b)[i] == s[off + a + i]);
        assert(e.subrange(a, b)[i] == e[a + i]);
    }
    assert(s.subrange(off + a, off + b) =~= e.subrange(a, b));
}

/// Parsing at the position of a well-formed frame recovers exactly the
/// record that was encoded, and consumes exactly its length — whatever
/// bytes surround the frame.
pub proof fn lemma_parse_encoded(s: Seq<u8>, r: LogRecordView, off: int)
    requires
        record_valid(r),
        0 <= off,
        off + encoded_len(r) <= s.len(),
        s.subrange(off, off + encoded_len(r)) == encode_spec(r),
    ensures
        parse_at(s, off) == (ParseResult::Record { rec: r, size: encoded_len(r) }),
{
    lemma_auto_spec_u32_to_from_le_bytes();
    lemma_encode_layout(r);
    let e = encode_spec(r);
    let kl = r.key.len() as int;
    let vl = r.value.len() as int;
    assert(s[off] == e[0]) by {
        assert(s.subrange(off, off + encoded_len(r))[0] == e[0]);
    }
    lemma_subrange_transfer(s, e, off, 1, 5);
    lemma_subrange_transfer(s, e, off, 5, 9);
    let klen = spec_u32_from_le_bytes(s.subrange(off + 1, off + 5)) as int;
    let vlen = spec_u32_from_le_bytes(s.subrange(off + 5, off + 9)) as int;
    assert(klen == kl);
    assert(vlen == vl);
    lemma_subrange_transfer(s, e, off, 0, 9 + kl + vl);
    lemma_subrange_transfer(s, e, off, 9 + kl + vl, 13 + kl + vl);
    lemma_subrange_transfer(s, e, off, 9, 9 + kl);
    lemma_subrange_transfer(s, e, off, 9 + kl, 9 + kl + vl);
    assert(type_byte(r.record_type) == 1 ==> r.record_type == LogRecordType::NORMAL);
    assert(type_byte(r.record_type) == 2 ==> r.record_type == LogRecordType::DELETE);
}

/// Parsing depends only on the bytes of the frame itself: if a prefix `s`
/// of `t` already parses to a record at `off`, the longer sequence parses
/// to the same record there.
pub proof fn lemma_parse_prefix(s: Seq<u8>, t: Seq<u8>, off: int)
    requires
        s.len() <= t.len(),
        t.subrange(0, s.len() as int) == s,
        parse_at(s, off) is Record,
    ensures
        parse_at(t, off) == parse_at(s, off),
{
    assert forall|i: int| 0 <= i < s.len() implies t[i] == s[i] by {
        assert(s[i] == t.subrange(0, s.len() as int)[i]);
    }
    assert forall|a: int, b: int| 0 <= a <= b <= s.len() implies t.subrange(a, b) == s.subrange(
        a,
        b,
    ) by {
        assert(t.subrange(a, b) =~= s.subrange(a, b));
    }
    assert(0 <= off && off + 13 <= s.len());
    assert(t.subrange(off + 1, off + 5) == s.subrange(off + 1, off + 5));
    assert(t.subrange(off + 5, off + 9) == s.subrange(off + 5, off + 9));
}

/// Truncating a sequence after the end of a frame does not change how the
/// frame parses.
pub proof fn lemma_parse_truncate(t: Seq<u8>, m: int, off: int)
    requires
        parse_at(t, off) is Record,
        off + (parse_at(t, off)->Record_size) <= m <= t.len(),
    ensures
        parse_at(t.subrange(0, m), off) == parse_at(t, off),
{
    let s = t.subrange(0, m);
    assert forall|a: int, b: int| 0 <= a <= b <= m implies t.subrange(a, b) == s.subrange(
        a,
        b,
    ) by {
        assert(t.subrange(a, b) =~= s.subrange(a, b));
    }
    assert(0 <= off && off + 13 <= t.len());
    let klen = spec_u32_from_le_bytes(t.subrange(off + 1, off + 5)) as int;
    let vlen = spec_u32_from_le_bytes(t.subrange(off + 5, off + 9)) as int;
    assert(off + 13 + klen + vlen <= m);
    assert(s.subrange(off + 1, off + 5) == t.subrange(off + 1, off + 5));
    assert(s.subrange(off + 5, off + 9) == t.subrange(off + 5, off + 9));
    assert(s[off] == t[off]);
}

/// One record of the log: its position and its content.
pub struct LogEntry {
    pub pos: LogRecordPos,
    pub rec: LogRecordView,
}

/// The records of data file `fid` with contents `s`, scanning frame after
/// frame from `off` until end-of-log or corruption.
pub open spec fn scan_entries(s: Seq<u8>, fid: u32, off: int) -> Seq<LogEntry>
    decreases s.len() - off,
{
    match parse_at(s, off) {
        ParseResult::Record { rec, size } => seq![
            LogEntry { pos: LogRecordPos { file_id: fid, offset: off as u64 }, rec },
        ] + scan_entries(s, fid, off + size),
        _ => Seq::empty(),
    }
}

/// The offset at which a scan from `off` stops.
pub open spec fn scan_end(s: Seq<u8>, off: int) -> int
    decreases s.len() - off,
{
    match parse_at(s, off) {
        ParseResult::Record { rec, size } => scan_end(s, off + size),
        _ => off,
    }
}

/// Whether a scan from `off` stops at end-of-log rather than on a corrupt
/// frame.
pub open spec fn scan_clean(s: Seq<u8>, off: int) -> bool
    decreases s.len() - off,
{
    match parse_at(s, off) {
        ParseResult::Record { rec, size } => scan_clean(s, off + size),
        ParseResult::Eof => true,
        ParseResult::Corrupt => false,
    }
}

pub proof fn lemma_scan_end_bounds(s: Seq<u8>, off: int)
    requires
        0 <= off <= s.len(),
    ensures
        off <= scan_end(s, off) <= s.len(),
    decreases s.len() - off,
{
    match parse_at(s, off) {
        ParseResult::Record { rec, size } => {
            lemma_scan_end_bounds(s, off + size);
        },
        _ => {},
    }
}

/// `e` is a record of `s` exactly where its position says.
pub open spec fn entry_parses(s: Seq<u8>, e: LogEntry) -> bool {
    match parse_at(s, e.pos.offset as int) {
        ParseResult::Record { rec, size } => rec == e.rec,
        _ => false,
    }
}

/// Every entry a scan yields carries the file id it was scanned from, and
/// decodes at its recorded offset to exactly its record — so no record
/// straddles past the end of its file.
pub proof fn lemma_scan_entries_parse(s: Seq<u8>, fid: u32, off: int)
    requires
        0 <= off,
        s.len() <= u64::MAX,
    ensures
        forall|i: int|
            0 <= i < scan_entries(s, fid, off).len() ==> (#[trigger] scan_entries(s, fid, off)[i]).pos.file_id
                == fid && entry_parses(s, scan_entries(s, fid, off)[i]),
    decreases s.len() - off,
{
    match parse_at(s, off) {
        ParseResult::Record { rec, size } => {
            lemma_scan_entries_parse(s, fid, off + size);
            let e0 = LogEntry { pos: LogRecordPos { file_id: fid, offset: off as u64 }, rec };
            let rest = scan_entries(s, fid, off + size);
            assert(entry_parses(s, e0));
            assert forall|i: int| 0 <= i < scan_entries(s, fid, off).len() implies (
            #[trigger] scan_entries(s, fid, off)[i]).pos.file_id == fid && entry_parses(
                s,
                scan_entries(s, fid, off)[i],
            ) by {
                if i >= 1 {
                    assert(scan_entries(s, fid, off)[i] == rest[i - 1]);
                }
            }
        },
        _ => {},
    }
}

/// Appending one well-formed frame to contents whose scan ends cleanly at
/// their end extends the scan by exactly that record, keeps the scan clean,
/// and moves its end to the new end of contents.
pub proof fn lemma_scan_append(s: Seq<u8>, r: LogRecordView, fid: u32, off: int)
    requires
        record_valid(r),
        0 <= off <= s.len(),
        scan_clean(s, off),
        scan_end(s, off) == s.len(),
    ensures
        scan_entries(s + encode_spec(r), fid, off) == scan_entries(s, fid, off) + seq![
            LogEntry {
                pos: LogRecordPos { file_id: fid, offset: s.len() as u64 },
                rec: r,
            },
        ],
        scan_clean(s + encode_spec(r), off),
        scan_end(s + encode_spec(r), off) == s.len() + encode_spec(r).len(),
    decreases s.len() - off,
{
    lemma_encoded_len(r);
    let t = s + encode_spec(r);
    let new_entry = LogEntry { pos: LogRecordPos { file_id: fid, offset: s.len() as u64 }, rec: r };
    assert(t.subrange(0, s.len() as int) =~= s);
    match parse_at(s, off) {
        ParseResult::Record { rec, size } => {
            lemma_parse_prefix(s, t, off);
            lemma_scan_append(s, r, fid, off + size);
            assert(scan_entries(t, fid, off) =~= scan_entries(s, fid, off) + seq![new_entry]);
        },
        ParseResult::Eof => {
            assert(off == s.len());
            assert(t.subrange(off, off + encoded_len(r)) =~= encode_spec(r));
            lemma_parse_encoded(t, r, off);
            assert(parse_at(t, off + encoded_len(r)) is Eof);
            assert(scan_entries(t, fid, off + encoded_len(r)) =~= Seq::<LogEntry>::empty());
            assert(scan_entries(t, fid, off) =~= scan_entries(s, fid, off) + seq![new_entry]);
            assert(scan_clean(t, off + encoded_len(r)));
            assert(scan_end(t, off + encoded_len(r)) == off + encoded_len(r));
            assert(scan_clean(t, off));
            assert(scan_end(t, off) == s.len() + encode_spec(r).len());
        },
        ParseResult::Corrupt => {},
    }
}

/// Discarding the bytes past a clean scan's end does not change what the
/// scan yields, and makes it end exactly at the new end of contents.
pub proof fn lemma_scan_take(s: Seq<u8>, fid: u32, off: int, m: int)
    requires
        0 <= off <= m <= s.len(),
        scan_clean(s, off),
        scan_end(s, off) == m,
    ensures
        scan_entries(s.subrange(0, m), fid, off) == scan_entries(s, fid, off),
        scan_clean(s.subrange(0, m), off),
        scan_end(s.subrange(0, m), off) == m,
    decreases s.len() - off,
{
    let u = s.subrange(0, m);
    match parse_at(s, off) {
        ParseResult::Record { rec, size } => {
            lemma_scan_end_bounds(s, off + size);
            lemma_parse_truncate(s, m, off);
            lemma_scan_take(s, fid, off + size, m);
            assert(scan_entries(u, fid, off) =~= scan_entries(s, fid, off));
        },
        ParseResult::Eof => {
            assert(off == m);
            assert(parse_at(u, off) is Eof);
        },
        ParseResult::Corrupt => {},
    }
}

impl LogRecord {
    /// Encodes the record into its on-disk frame.
    pub fn encode(&self) -> (r: Vec<u8>)
        requires
            record_valid(self@),
        ensures
            r@ == encode_spec(self@),
            r@.len() == encoded_len(self@),
    {
        proof {
            lemma_auto_spec_u32_to_from_le_bytes();
        }
        let mut out: Vec<u8> = Vec::new();
        let tb: u8 = match self.record_type {
            LogRecordType::NORMAL => 1u8,
            LogRecordType::DELETE => 2u8,
        };
        out.push(tb);
        let mut klen_bytes = u32_to_le_bytes(self.key.len() as u32);
        out.append(&mut klen_bytes);
        let mut vlen_bytes = u32_to_le_bytes(self.value.len() as u32);
        out.append(&mut vlen_bytes);
        push_all(&mut out, &self.key);
        push_all(&mut out, &self.value);
        proof {
            assert(out@ =~= record_body(self@));
        }
        let crc = checksum(out.as_slice());
        let mut crc_bytes = u32_to_le_bytes(crc);
        out.append(&mut crc_bytes);
        proof {
            assert(out@ =~= encode_spec(self@));
            lemma_encoded_len(self@);
        }
        out
    }
}

/// Appends every byte of `src` to `out`.
fn push_all(out: &mut Vec<u8>, src: &Vec<u8>)
    ensures
        final(out)@ == old(out)@ + src@,
{
    let mut i: usize = 0;
    while i < src.len()
        invariant
            0 <= i <= src@.len(),
            out@ == old(out)@ + src@.take(i as int),
        decreases src@.len() - i,
    {
        out.push(src[i]);
        proof {
            assert(old(out)@ + src@.take(i + 1) =~= (old(out)@ + src@.take(i as int)).push(
                src@[i as int],
            ));
        }
        i = i + 1;
    }
    proof {
        assert(old(out)@ + src@.take(src@.len() as int) =~= old(out)@ + src@);
    }
}

} // verus!
